//! How long to wait before another attempt to connect.
use vstd::prelude::*;

verus! {

/// Nanoseconds in a second.
pub const NANOS_PER_SEC: u32 = 1_000_000_000;

/// A span of time, in seconds and nanoseconds.
#[derive(Debug, Clone, Copy, PartialEq, Eq, Structural)]
pub struct Delay {
    pub secs: u64,
    pub nanos: u32,
}

impl Delay {
    /// Whether the nanoseconds do not make up a second.
    pub open spec fn is_valid(self) -> bool {
        self.nanos < NANOS_PER_SEC
    }

    /// The length of the span in nanoseconds.
    pub open spec fn length(self) -> int {
        self.secs * NANOS_PER_SEC + self.nanos
    }

    /// So many seconds.
    pub fn from_secs(secs: u64) -> (delay: Self)
        ensures
            delay == (Delay { secs, nanos: 0 }),
            delay.is_valid(),
            delay.length() == secs * NANOS_PER_SEC,
    {
        Delay { secs, nanos: 0 }
    }

    /// The whole seconds of the span.
    pub fn as_secs(&self) -> (secs: u64)
        ensures
            secs == self.secs,
    {
        self.secs
    }
}

/// The longest wait, in seconds.
pub const LONGEST_SECS: u64 = 30;

/// The wait after another, in nanoseconds: twice as long, but never more than
/// the longest.
pub open spec fn next_length(length: int) -> int {
    if 2 * length < LONGEST_SECS * NANOS_PER_SEC {
        2 * length
    } else {
        LONGEST_SECS * NANOS_PER_SEC
    }
}

/// The wait after another.
pub fn next_backoff(current: Delay) -> (next: Delay)
    requires
        current.is_valid(),
        2 * current.length() <= u64::MAX * NANOS_PER_SEC + (NANOS_PER_SEC - 1),
    ensures
        next.is_valid(),
        next.length() == next_length(current.length()),
{
    if current.secs >= LONGEST_SECS / 2 {
        return Delay::from_secs(LONGEST_SECS);
    }
    let nanos: u32 = current.nanos * 2;
    if nanos >= NANOS_PER_SEC {
        Delay { secs: current.secs * 2 + 1, nanos: nanos - NANOS_PER_SEC }
    } else {
        Delay { secs: current.secs * 2, nanos }
    }
}

/// The wait after so many failures in a row, in nanoseconds: one second at
/// first.
pub open spec fn length_after(failures: nat) -> int
    decreases failures,
{
    if failures == 0 {
        NANOS_PER_SEC as int
    } else {
        next_length(length_after((failures - 1) as nat))
    }
}

/// The wait doubles from one second with each failure, and stops at the longest.
pub proof fn backoff_doubles_up_to_the_longest(failures: nat)
    ensures
        length_after(failures) == if vstd::arithmetic::power2::pow2(failures) < LONGEST_SECS {
            vstd::arithmetic::power2::pow2(failures) * NANOS_PER_SEC
        } else {
            LONGEST_SECS * NANOS_PER_SEC
        },
    decreases failures,
{
    if failures == 0 {
        vstd::arithmetic::power2::lemma2_to64();
    } else {
        backoff_doubles_up_to_the_longest((failures - 1) as nat);
        vstd::arithmetic::power2::lemma_pow2_unfold(failures);
        vstd::arithmetic::power2::lemma_pow2_pos((failures - 1) as nat);
    }
}

/// The wait never grows shorter from one failure to the next.
pub proof fn backoff_never_shrinks(failures: nat)
    ensures
        length_after(failures) <= length_after(failures + 1) <= LONGEST_SECS * NANOS_PER_SEC,
{
    backoff_doubles_up_to_the_longest(failures);
    backoff_doubles_up_to_the_longest(failures + 1);
    vstd::arithmetic::power2::lemma_pow2_unfold(failures + 1);
    vstd::arithmetic::power2::lemma_pow2_pos(failures);
}

/// The wait after another is twice as long up to thirty seconds, and thirty seconds
/// from then on; the first is one second.
pub proof fn the_wait_doubles_up_to_thirty_seconds(length: int)
    requires
        length >= 0,
    ensures
        length <= 15_000_000_000 ==> next_length(length) == 2 * length,
        length >= 15_000_000_000 ==> next_length(length) == 30_000_000_000,
        length_after(0) == 1_000_000_000,
{
}

} // verus!
