use vstd::prelude::*;

verus! {

// Reader state flags, bit for bit as the platform card service reports them.
pub const UNAWARE: u64 = 0x0000;
pub const IGNORE: u64 = 0x0001;
pub const CHANGED: u64 = 0x0002;
pub const UNKNOWN: u64 = 0x0004;
pub const UNAVAILABLE: u64 = 0x0008;
pub const EMPTY: u64 = 0x0010;
pub const PRESENT: u64 = 0x0020;
pub const ATRMATCH: u64 = 0x0040;
pub const EXCLUSIVE: u64 = 0x0080;
pub const INUSE: u64 = 0x0100;
pub const MUTE: u64 = 0x0200;
pub const UNPOWERED: u64 = 0x0400;

/// The state reports a change and a card present: a card was just seated.
pub open spec fn is_arrival(s: u64) -> bool {
    s & (CHANGED | PRESENT) == (CHANGED | PRESENT)
}

/// The state reports the reader unknown or to be ignored: it is gone.
pub open spec fn is_gone(s: u64) -> bool {
    s & (UNKNOWN | IGNORE) != 0
}

/// Whether a reported state says a card was just seated.
pub fn card_arrived(s: u64) -> (r: bool)
    ensures
        r == is_arrival(s),
{
    s & (CHANGED | PRESENT) == (CHANGED | PRESENT)
}

/// Whether a reported state says the reader is gone.
pub fn reader_gone(s: u64) -> (r: bool)
    ensures
        r == is_gone(s),
{
    s & (UNKNOWN | IGNORE) != 0
}

} // verus!
