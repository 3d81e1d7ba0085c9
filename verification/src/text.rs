//! Text helpers: decimal rendering, human-readable byte counts,
//! usage bars, truncation and case-insensitive substring matching.
//!
//! Everything works over `Seq<char>` views; sizes are truncated (not
//! rounded) to the printed precision.

use vstd::prelude::*;

verus! {

pub const KIB: u64 = 1024;

pub const MIB: u64 = 1048576;

pub const GIB: u64 = 1073741824;

/// The character for a single decimal digit value.
pub open spec fn digit_char(d: int) -> char {
    if d == 0 {
        '0'
    } else if d == 1 {
        '1'
    } else if d == 2 {
        '2'
    } else if d == 3 {
        '3'
    } else if d == 4 {
        '4'
    } else if d == 5 {
        '5'
    } else if d == 6 {
        '6'
    } else if d == 7 {
        '7'
    } else if d == 8 {
        '8'
    } else {
        '9'
    }
}

/// Decimal digits of `n`, most significant first.
pub open spec fn dec_spec(n: nat) -> Seq<char>
    decreases n,
{
    if n < 10 {
        seq![digit_char(n as int)]
    } else {
        dec_spec(n / 10).push(digit_char((n % 10) as int))
    }
}

fn digit_str(d: u64) -> (r: &'static str)
    requires
        d < 10,
    ensures
        r@ == seq![digit_char(d as int)],
{
    proof {
        reveal_strlit("0");
        reveal_strlit("1");
        reveal_strlit("2");
        reveal_strlit("3");
        reveal_strlit("4");
        reveal_strlit("5");
        reveal_strlit("6");
        reveal_strlit("7");
        reveal_strlit("8");
        reveal_strlit("9");
    }
    let r: &'static str = if d == 0 {
        "0"
    } else if d == 1 {
        "1"
    } else if d == 2 {
        "2"
    } else if d == 3 {
        "3"
    } else if d == 4 {
        "4"
    } else if d == 5 {
        "5"
    } else if d == 6 {
        "6"
    } else if d == 7 {
        "7"
    } else if d == 8 {
        "8"
    } else {
        "9"
    };
    proof {
        assert(r@ =~= seq![digit_char(d as int)]);
    }
    r
}

/// `n` written in decimal.
pub fn u64_to_string(n: u64) -> (s: String)
    ensures
        s@ == dec_spec(n as nat),
    decreases n,
{
    if n < 10 {
        digit_str(n).to_owned()
    } else {
        let mut s = u64_to_string(n / 10);
        s.append(digit_str(n % 10));
        proof {
            assert(s@ =~= dec_spec(n as nat));
        }
        s
    }
}

/// `n` written in decimal.
pub fn u32_to_string(n: u32) -> (s: String)
    ensures
        s@ == dec_spec(n as nat),
{
    u64_to_string(n as u64)
}

fn digit_char_exec(d: u64) -> (c: char)
    requires
        d < 10,
    ensures
        c == digit_char(d as int),
{
    if d == 0 {
        '0'
    } else if d == 1 {
        '1'
    } else if d == 2 {
        '2'
    } else if d == 3 {
        '3'
    } else if d == 4 {
        '4'
    } else if d == 5 {
        '5'
    } else if d == 6 {
        '6'
    } else if d == 7 {
        '7'
    } else if d == 8 {
        '8'
    } else {
        '9'
    }
}

/// Decimal digits of `n` as characters, most significant first.
pub fn dec_chars(n: u64) -> (v: Vec<char>)
    ensures
        v@ == dec_spec(n as nat),
    decreases n,
{
    if n < 10 {
        let mut v: Vec<char> = Vec::new();
        v.push(digit_char_exec(n));
        proof {
            assert(v@ =~= dec_spec(n as nat));
        }
        v
    } else {
        let mut v = dec_chars(n / 10);
        v.push(digit_char_exec(n % 10));
        proof {
            assert(v@ =~= dec_spec(n as nat));
        }
        v
    }
}

/// A byte count in the narrow "top" style: whole gibibytes with one
/// (truncated) decimal, else whole mebibytes, kibibytes or bytes.
pub open spec fn human_bytes_spec(b: nat) -> Seq<char> {
    if b >= GIB {
        dec_spec(b / (GIB as nat)) + seq!['.'] + seq![
            digit_char(((b % (GIB as nat)) * 10 / (GIB as nat)) as int),
        ] + seq!['G']
    } else if b >= MIB {
        dec_spec(b / (MIB as nat)) + seq!['M']
    } else if b >= KIB {
        dec_spec(b / (KIB as nat)) + seq!['K']
    } else {
        dec_spec(b) + seq!['B']
    }
}

pub fn human_bytes(b: u64) -> (s: String)
    ensures
        s@ == human_bytes_spec(b as nat),
{
    proof {
        reveal_strlit(".");
        reveal_strlit("G");
        reveal_strlit("M");
        reveal_strlit("K");
        reveal_strlit("B");
    }
    if b >= GIB {
        let mut s = u64_to_string(b / GIB);
        s.append(".");
        let tenth: u64 = (b % GIB) * 10 / GIB;
        s.append(digit_str(tenth));
        s.append("G");
        proof {
            assert(s@ =~= human_bytes_spec(b as nat));
        }
        s
    } else if b >= MIB {
        let mut s = u64_to_string(b / MIB);
        s.append("M");
        proof {
            assert(s@ =~= human_bytes_spec(b as nat));
        }
        s
    } else if b >= KIB {
        let mut s = u64_to_string(b / KIB);
        s.append("K");
        proof {
            assert(s@ =~= human_bytes_spec(b as nat));
        }
        s
    } else {
        let mut s = u64_to_string(b);
        s.append("B");
        proof {
            assert(s@ =~= human_bytes_spec(b as nat));
        }
        s
    }
}

/// A transfer rate: the unit scaled as in [`human_bytes_spec`] but with
/// a spelled-out suffix, one truncated decimal above the byte range.
pub open spec fn human_rate_spec(r: nat) -> Seq<char> {
    if r >= GIB {
        dec_spec(r / (GIB as nat)) + seq!['.'] + seq![
            digit_char(((r % (GIB as nat)) * 10 / (GIB as nat)) as int),
        ] + seq![' ', 'G', 'i', 'B']
    } else if r >= MIB {
        dec_spec(r / (MIB as nat)) + seq!['.'] + seq![
            digit_char(((r % (MIB as nat)) * 10 / (MIB as nat)) as int),
        ] + seq![' ', 'M', 'i', 'B']
    } else if r >= KIB {
        dec_spec(r / (KIB as nat)) + seq!['.'] + seq![
            digit_char(((r % (KIB as nat)) * 10 / (KIB as nat)) as int),
        ] + seq![' ', 'K', 'i', 'B']
    } else {
        dec_spec(r) + seq![' ', 'B']
    }
}

/// A transfer rate in bytes per second, scaled to a readable unit.
pub fn human_rate(r: u64) -> (s: String)
    ensures
        s@ == human_rate_spec(r as nat),
{
    proof {
        reveal_strlit(".");
        reveal_strlit(" GiB");
        reveal_strlit(" MiB");
        reveal_strlit(" KiB");
        reveal_strlit(" B");
    }
    if r >= GIB {
        let mut s = u64_to_string(r / GIB);
        s.append(".");
        s.append(digit_str((r % GIB) * 10 / GIB));
        s.append(" GiB");
        proof {
            assert(s@ =~= human_rate_spec(r as nat));
        }
        s
    } else if r >= MIB {
        let mut s = u64_to_string(r / MIB);
        s.append(".");
        s.append(digit_str((r % MIB) * 10 / MIB));
        s.append(" MiB");
        proof {
            assert(s@ =~= human_rate_spec(r as nat));
        }
        s
    } else if r >= KIB {
        let mut s = u64_to_string(r / KIB);
        s.append(".");
        s.append(digit_str((r % KIB) * 10 / KIB));
        s.append(" KiB");
        proof {
            assert(s@ =~= human_rate_spec(r as nat));
        }
        s
    } else {
        let mut s = u64_to_string(r);
        s.append(" B");
        proof {
            assert(s@ =~= human_rate_spec(r as nat));
        }
        s
    }
}

/// Cells filled in a `width`-cell bar showing `centi` centi-percent:
/// the share of the scale, rounded to the nearest cell.
pub open spec fn bar_fill_spec(centi: int, width: int) -> int {
    let v = if centi > 10000 {
        10000
    } else {
        centi
    };
    (v * width + 5000) / 10000
}

/// One bar: `fill` solid cells followed by dots up to `width`.
pub open spec fn bar_spec(centi: int, width: int) -> Seq<char> {
    Seq::new(
        width as nat,
        |i: int|
            if i < bar_fill_spec(centi, width) {
                '█'
            } else {
                '·'
            },
    )
}

/// A fixed-width usage bar for a centi-percent figure.
pub fn bar(centi: u32, width: usize) -> (s: String)
    requires
        width <= 1000,
    ensures
        s@ == bar_spec(centi as int, width as int),
{
    proof {
        reveal_strlit("█");
        reveal_strlit("·");
    }
    let v: u32 = if centi > 10000 {
        10000
    } else {
        centi
    };
    proof {
        assert((v as u64) * (width as u64) <= 10000 * 1000) by (nonlinear_arith)
            requires
                v <= 10000,
                width <= 1000,
        ;
    }
    let fill: u64 = ((v as u64) * (width as u64) + 5000) / 10000;
    let mut s = String::new();
    let mut i: usize = 0;
    while i < width
        invariant
            i <= width,
            width <= 1000,
            fill == bar_fill_spec(centi as int, width as int),
            s@ =~= bar_spec(centi as int, width as int).subrange(0, i as int),
        decreases width - i,
    {
        proof {
            reveal_strlit("█");
            reveal_strlit("·");
        }
        if (i as u64) < fill {
            s.append("█");
        } else {
            s.append("·");
        }
        i = i + 1;
        proof {
            assert(s@ =~= bar_spec(centi as int, width as int).subrange(0, i as int));
        }
    }
    proof {
        assert(s@ =~= bar_spec(centi as int, width as int));
    }
    s
}

/// The first `max_chars` characters, with `..` appended when anything
/// was cut off.
pub open spec fn trim_spec(s: Seq<char>, max_chars: int) -> Seq<char> {
    if s.len() <= max_chars {
        s
    } else {
        s.subrange(0, max_chars) + seq!['.', '.']
    }
}

pub fn trim_text(s: &str, max_chars: usize) -> (r: String)
    ensures
        r@ == trim_spec(s@, max_chars as int),
{
    proof {
        reveal_strlit("..");
    }
    let n = s.unicode_len();
    if n <= max_chars {
        s.to_owned()
    } else {
        let head = s.substring_char(0, max_chars);
        let r = head.to_owned().concat("..");
        proof {
            assert(r@ =~= trim_spec(s@, max_chars as int));
        }
        r
    }
}

/// Appends one character to a string.
///
/// Relies on `String::push` of std: it appends exactly the given
/// character to the end of the string.
#[verifier::external_body]
pub fn push_char(s: &mut String, c: char)
    ensures
        final(s)@ == old(s)@.push(c),
{
    s.push(c)
}

/// ASCII lowercase of one character; anything else is unchanged.
pub open spec fn lower_char(c: char) -> char {
    if 'A' <= c <= 'Z' {
        ((c as u8) + 32) as char
    } else {
        c
    }
}

/// ASCII lowercase applied to every character.
pub open spec fn lower_seq(s: Seq<char>) -> Seq<char> {
    Seq::new(s.len(), |i: int| lower_char(s[i]))
}

fn lower_char_exec(c: char) -> (r: char)
    ensures
        r == lower_char(c),
{
    if 'A' <= c && c <= 'Z' {
        ((c as u8) + 32) as char
    } else {
        c
    }
}

/// The characters of `s` in ASCII lowercase.
pub fn lower_chars(s: &str) -> (v: Vec<char>)
    ensures
        v@ == lower_seq(s@),
{
    let n = s.unicode_len();
    let mut v: Vec<char> = Vec::new();
    let mut i: usize = 0;
    while i < n
        invariant
            i <= n,
            n == s@.len(),
            v@ =~= lower_seq(s@).subrange(0, i as int),
        decreases n - i,
    {
        v.push(lower_char_exec(s.get_char(i)));
        i = i + 1;
        proof {
            assert(v@ =~= lower_seq(s@).subrange(0, i as int));
        }
    }
    proof {
        assert(v@ =~= lower_seq(s@));
    }
    v
}

/// The characters of `s`, unchanged.
pub fn str_chars(s: &str) -> (v: Vec<char>)
    ensures
        v@ == s@,
{
    let n = s.unicode_len();
    let mut v: Vec<char> = Vec::new();
    let mut i: usize = 0;
    while i < n
        invariant
            i <= n,
            n == s@.len(),
            v@ =~= s@.subrange(0, i as int),
        decreases n - i,
    {
        v.push(s.get_char(i));
        i = i + 1;
        proof {
            assert(v@ =~= s@.subrange(0, i as int));
        }
    }
    proof {
        assert(v@ =~= s@);
    }
    v
}

/// Whether `needle` occurs contiguously inside `hay` (an empty needle
/// always does).
pub open spec fn is_substring(hay: Seq<char>, needle: Seq<char>) -> bool {
    exists|i: int|
        0 <= i && i + needle.len() <= hay.len() && #[trigger] hay.subrange(i, i + needle.len())
            == needle
}

/// Substring search over plain character vectors.
pub fn contains_chars(hay: &Vec<char>, needle: &Vec<char>) -> (r: bool)
    ensures
        r == is_substring(hay@, needle@),
{
    let hl = hay.len();
    let nl = needle.len();
    if nl > hl {
        proof {
            assert(!is_substring(hay@, needle@));
        }
        return false;
    }
    if nl == 0 {
        proof {
            assert(hay@.subrange(0, 0 + needle@.len() as int) =~= needle@);
        }
        return true;
    }
    let mut i: usize = 0;
    while i <= hl - nl
        invariant
            nl <= hl,
            hl == hay@.len(),
            nl == needle@.len(),
            1 <= nl,
            i <= hl - nl + 1,
            forall|k: int|
                0 <= k < i ==> #[trigger] hay@.subrange(k, k + needle@.len()) != needle@,
        decreases hl - nl + 1 - i,
    {
        let mut j: usize = 0;
        let mut matched = true;
        while j < nl && matched
            invariant
                nl <= hl,
                hl == hay@.len(),
                nl == needle@.len(),
                i + nl <= hl,
                j <= nl,
                matched ==> forall|k: int| 0 <= k < j ==> hay@[i + k] == needle@[k],
                !matched ==> hay@.subrange(i as int, i + needle@.len()) != needle@,
            decreases nl - j, (if matched { 1int } else { 0int }),
        {
            if hay[i + j] != needle[j] {
                proof {
                    assert(hay@.subrange(i as int, i + needle@.len())[j as int] != needle@[j as int]);
                }
                matched = false;
            } else {
                j = j + 1;
            }
        }
        if matched {
            proof {
                assert(hay@.subrange(i as int, i + needle@.len()) =~= needle@);
            }
            return true;
        }
        i = i + 1;
    }
    proof {
        assert forall|k: int| 0 <= k && k + needle@.len() <= hay@.len() implies #[trigger] hay@
            .subrange(k, k + needle@.len()) != needle@ by {
            assert(k < i);
        }
    }
    false
}

/// Index of the last `/` in `s`, or -1 when there is none.
pub open spec fn last_slash(s: Seq<char>) -> int
    decreases s.len(),
{
    if s.len() == 0 {
        -1
    } else if s[s.len() - 1] == '/' {
        s.len() - 1
    } else {
        last_slash(s.drop_last())
    }
}

/// A short label for a mount point: `/` itself, else the final path
/// component, else the path (its last 12 characters when it is long).
pub open spec fn friendly_mount_spec(s: Seq<char>) -> Seq<char> {
    if s == seq!['/'] {
        seq!['/']
    } else {
        let cut = last_slash(s) + 1;
        if cut < s.len() {
            s.subrange(cut, s.len() as int)
        } else if s.len() <= 12 {
            s
        } else {
            seq!['.', '.'] + s.subrange(s.len() - 12, s.len() as int)
        }
    }
}

pub fn friendly_mount(path: &str) -> (r: String)
    ensures
        r@ == friendly_mount_spec(path@),
{
    proof {
        reveal_strlit("/");
        reveal_strlit("..");
    }
    let n = path.unicode_len();
    if n == 1 && path.get_char(0) == '/' {
        proof {
            assert(path@ =~= seq!['/']);
        }
        let r = "/".to_owned();
        proof {
            assert(r@ =~= friendly_mount_spec(path@));
        }
        return r;
    }
    proof {
        assert(path@ != seq!['/']);
    }
    proof {
        assert(path@.subrange(0, n as int) =~= path@);
    }
    let mut cut: usize = n;
    let mut found = false;
    while cut > 0 && !found
        invariant
            cut <= n,
            n == path@.len(),
            !found ==> last_slash(path@.subrange(0, cut as int)) == last_slash(path@),
            found ==> last_slash(path@) == cut - 1,
        decreases cut, (if found { 0int } else { 1int }),
    {
        if path.get_char(cut - 1) == '/' {
            proof {
                assert(path@.subrange(0, cut as int).last() == '/');
                assert(last_slash(path@.subrange(0, cut as int)) == cut - 1);
            }
            found = true;
        } else {
            proof {
                assert(path@.subrange(0, cut as int).drop_last() =~= path@.subrange(0, cut - 1));
            }
            cut = cut - 1;
        }
    }
    proof {
        if !found {
            assert(path@.subrange(0, 0) =~= Seq::<char>::empty());
            assert(last_slash(path@) == -1);
        }
        assert(last_slash(path@) + 1 == cut);
    }
    if cut < n {
        let r = path.substring_char(cut, n).to_owned();
        proof {
            assert(r@ =~= friendly_mount_spec(path@));
        }
        r
    } else if n <= 12 {
        path.to_owned()
    } else {
        let r = "..".to_owned().concat(path.substring_char(n - 12, n));
        proof {
            assert(r@ =~= friendly_mount_spec(path@));
        }
        r
    }
}

} // verus!
