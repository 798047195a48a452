//! Durations, by their length in nanoseconds.

use std::time::Duration;
use vstd::prelude::*;

verus! {

pub const NANOS_PER_SEC: u64 = 1_000_000_000;

/// The longest time a `Duration` holds, in nanoseconds.
pub open spec fn max_nanos() -> nat {
    (u64::MAX * NANOS_PER_SEC + NANOS_PER_SEC - 1) as nat
}

/// How long a duration is, in nanoseconds.
pub uninterp spec fn duration_nanos(d: Duration) -> nat;

/// `Duration::as_nanos` gives the whole length in nanoseconds, which a
/// duration of at most `u64::MAX` seconds and 999,999,999 nanoseconds bounds.
pub assume_specification[ std::time::Duration::as_nanos ](d: &std::time::Duration) -> (ns: u128)
    ensures
        ns == duration_nanos(*d),
        ns <= max_nanos(),
;

/// `Duration::new` makes the duration of that many seconds and nanoseconds;
/// it carries a whole second's worth of nanoseconds over, which no caller
/// hands it.
pub assume_specification[ std::time::Duration::new ](secs: u64, nanos: u32) -> (d: std::time::Duration)
    requires
        nanos < NANOS_PER_SEC,
    ensures
        duration_nanos(d) == secs * NANOS_PER_SEC + nanos,
;

/// The duration of that many nanoseconds.
pub fn duration_of(ns: u128) -> (d: Duration)
    requires
        ns <= max_nanos(),
    ensures
        duration_nanos(d) == ns,
{
    let secs: u128 = ns / 1_000_000_000;
    let rest: u128 = ns % 1_000_000_000;
    Duration::new(secs as u64, rest as u32)
}

} // verus!
