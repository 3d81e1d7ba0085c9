use ttop::percent::{counter_rate, pct, rate_to_pct};
use ttop::text::{
    bar, dec_chars, friendly_mount, human_bytes, human_rate, trim_text, u32_to_string,
    u64_to_string,
};

#[test]
fn decimal_rendering() {
    assert_eq!(u64_to_string(0), "0");
    assert_eq!(u64_to_string(7), "7");
    assert_eq!(u64_to_string(12345), "12345");
    assert_eq!(u64_to_string(u64::MAX), "18446744073709551615");
    assert_eq!(u32_to_string(4294967295), "4294967295");
    assert_eq!(dec_chars(907), vec!['9', '0', '7']);
}

#[test]
fn human_bytes_units() {
    assert_eq!(human_bytes(0), "0B");
    assert_eq!(human_bytes(512), "512B");
    assert_eq!(human_bytes(1023), "1023B");
    assert_eq!(human_bytes(1024), "1K");
    assert_eq!(human_bytes(2048), "2K");
    assert_eq!(human_bytes(5 * 1024 * 1024), "5M");
    // 1.5 GiB renders with one truncated decimal
    assert_eq!(human_bytes(1024 * 1024 * 1024 + 512 * 1024 * 1024), "1.5G");
}

#[test]
fn human_rate_units() {
    assert_eq!(human_rate(100), "100 B");
    assert_eq!(human_rate(2048), "2.0 KiB");
    assert_eq!(human_rate(1536), "1.5 KiB");
    assert_eq!(human_rate(3 * 1024 * 1024), "3.0 MiB");
}

#[test]
fn bar_fill() {
    assert_eq!(bar(10000, 10), "██████████");
    assert_eq!(bar(0, 10), "··········");
    assert_eq!(bar(5000, 10), "█████·····");
    // rounds to the nearest cell
    assert_eq!(bar(2400, 10), "██········");
    assert_eq!(bar(2600, 10), "███·······");
    // clamped above the scale
    assert_eq!(bar(20000, 4), "████");
}

#[test]
fn trim_text_cuts_with_ellipsis() {
    assert_eq!(trim_text("abc", 4), "abc");
    assert_eq!(trim_text("abcd", 4), "abcd");
    assert_eq!(trim_text("abcdefghij", 4), "abcd..");
    assert_eq!(trim_text("", 0), "");
    assert_eq!(trim_text("xy", 0), "..");
}

#[test]
fn friendly_mount_labels() {
    assert_eq!(friendly_mount("/"), "/");
    assert_eq!(friendly_mount("/home/user"), "user");
    assert_eq!(friendly_mount("/mnt/data/backup"), "backup");
    assert_eq!(friendly_mount("plainname"), "plainname");
    assert_eq!(friendly_mount(""), "");
}

#[test]
fn pct_is_clamped_centi_percent() {
    assert_eq!(pct(1, 2), 5000);
    assert_eq!(pct(0, 10), 0);
    assert_eq!(pct(10, 10), 10000);
    // over the scale clamps rather than exceeding 100%
    assert_eq!(pct(20, 10), 10000);
    // a zero total never divides
    assert_eq!(pct(3, 0), 0);
    assert_eq!(rate_to_pct(50, 200), 2500);
}

#[test]
fn counter_rate_handles_resets() {
    // a counter running backwards yields zero, not a huge figure
    assert_eq!(counter_rate(1000, 900, 1000), 0);
    assert_eq!(counter_rate(0, 1000, 1000), 1000);
    // elapsed time is floored to one millisecond
    assert_eq!(counter_rate(0, 5, 0), 5000);
    assert_eq!(counter_rate(500, 1500, 2000), 500);
}

#[test]
fn parse_u64_counter_fields() {
    assert_eq!(ttop::counters::parse_u64("0"), Some(0));
    assert_eq!(ttop::counters::parse_u64("123"), Some(123));
    assert_eq!(ttop::counters::parse_u64("18446744073709551615"), Some(u64::MAX));
    assert_eq!(ttop::counters::parse_u64("18446744073709551616"), None);
    assert_eq!(ttop::counters::parse_u64(""), None);
    assert_eq!(ttop::counters::parse_u64("12a"), None);
    assert_eq!(ttop::counters::parse_u64("-5"), None);
}

#[test]
fn cpu_times_fields() {
    let t = ttop::counters::cpu_times_from_fields(&vec![1, 2, 3, 4, 5, 6, 7, 8]).unwrap();
    assert_eq!(t.user, 1);
    assert_eq!(t.idle, 4);
    assert_eq!(t.steal, 8);
    assert_eq!(t.total(), 36);
    assert_eq!(t.idle_total(), 9);
    // short lines pad the optional classes with zero
    let s = ttop::counters::cpu_times_from_fields(&vec![9, 8, 7, 6]).unwrap();
    assert_eq!(s.iowait, 0);
    assert_eq!(s.total(), 30);
    // fewer than four fields is rejected
    assert!(ttop::counters::cpu_times_from_fields(&vec![1, 2, 3]).is_none());
    // a total beyond the machine word is rejected
    assert!(ttop::counters::cpu_times_from_fields(&vec![u64::MAX, 1, 0, 0]).is_none());
}
