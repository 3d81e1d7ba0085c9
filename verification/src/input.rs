//! Keyboard and modal input as plain values: the key alphabet the
//! engine understands, the fixed signal catalog, and the modal states
//! that suspend normal-mode handling.

use vstd::prelude::*;

verus! {

/// A decoded key press.  The embedding binary maps its event source
/// onto this alphabet; anything it does not recognize becomes `Other`.
#[derive(Clone, Copy, PartialEq, Eq, Structural, Debug)]
pub enum Key {
    Up,
    Down,
    Left,
    Right,
    PageUp,
    PageDown,
    Home,
    End,
    Enter,
    Esc,
    Backspace,
    Char(char),
    CtrlC,
    Other,
}

/// How many signals the picker offers.
pub const SIGNAL_COUNT: usize = 6;

/// The fixed catalog of signals that can be sent to a process.
#[derive(Clone, Copy, PartialEq, Eq, Structural, Debug)]
pub enum Signal {
    Term,
    Kill,
    Int,
    Hup,
    Usr1,
    Usr2,
}

/// Short name of a signal.
pub open spec fn signal_name_spec(s: Signal) -> Seq<char> {
    match s {
        Signal::Term => "TERM"@,
        Signal::Kill => "KILL"@,
        Signal::Int => "INT"@,
        Signal::Hup => "HUP"@,
        Signal::Usr1 => "USR1"@,
        Signal::Usr2 => "USR2"@,
    }
}

/// The command-line argument that delivers a signal.
pub open spec fn signal_arg_spec(s: Signal) -> Seq<char> {
    match s {
        Signal::Term => "-TERM"@,
        Signal::Kill => "-KILL"@,
        Signal::Int => "-INT"@,
        Signal::Hup => "-HUP"@,
        Signal::Usr1 => "-USR1"@,
        Signal::Usr2 => "-USR2"@,
    }
}

/// The catalog order the picker displays.
pub open spec fn signal_at_spec(i: int) -> Signal {
    if i == 0 {
        Signal::Term
    } else if i == 1 {
        Signal::Kill
    } else if i == 2 {
        Signal::Int
    } else if i == 3 {
        Signal::Hup
    } else if i == 4 {
        Signal::Usr1
    } else {
        Signal::Usr2
    }
}

impl Signal {
    pub fn name(self) -> (r: &'static str)
        ensures
            r@ == signal_name_spec(self),
    {
        match self {
            Signal::Term => "TERM",
            Signal::Kill => "KILL",
            Signal::Int => "INT",
            Signal::Hup => "HUP",
            Signal::Usr1 => "USR1",
            Signal::Usr2 => "USR2",
        }
    }

    pub fn arg(self) -> (r: &'static str)
        ensures
            r@ == signal_arg_spec(self),
    {
        match self {
            Signal::Term => "-TERM",
            Signal::Kill => "-KILL",
            Signal::Int => "-INT",
            Signal::Hup => "-HUP",
            Signal::Usr1 => "-USR1",
            Signal::Usr2 => "-USR2",
        }
    }

    /// The signal shown at a picker index.
    pub fn at_index(i: usize) -> (r: Signal)
        requires
            i < SIGNAL_COUNT,
        ensures
            r == signal_at_spec(i as int),
    {
        if i == 0 {
            Signal::Term
        } else if i == 1 {
            Signal::Kill
        } else if i == 2 {
            Signal::Int
        } else if i == 3 {
            Signal::Hup
        } else if i == 4 {
            Signal::Usr1
        } else {
            Signal::Usr2
        }
    }
}

/// Which handler a key press is routed to.
#[derive(Clone, Copy, PartialEq, Eq, Structural, Debug)]
pub enum InputMode {
    Normal,
    Filter,
}

/// An open modal: a pending confirmation, or the signal picker.  At
/// most one is active; while one is open, normal-mode keys are not
/// interpreted.
pub enum ModalState {
    Confirm { pid: u32, name: String, signal: Signal },
    SignalPicker { selected: usize },
}

/// A control character (never appended to the filter query).
pub open spec fn is_control_char(c: char) -> bool {
    (c as int) < 32 || (127 <= c as int <= 159)
}

pub fn control_char(c: char) -> (r: bool)
    ensures
        r == is_control_char(c),
{
    let v = c as u32;
    v < 32 || (127 <= v && v <= 159)
}

} // verus!
