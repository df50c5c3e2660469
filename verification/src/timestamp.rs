//! Instants in time, read by `chrono` and shown as a time of day.
use vstd::prelude::*;

use crate::text;
use crate::text::digit_text;

verus! {

/// An instant: whole seconds since the Unix epoch and the nanoseconds after
/// them. During a leap second the nanoseconds reach beyond one second.
#[derive(Debug, Clone, Copy, PartialEq, Eq, Structural)]
pub struct Timestamp {
    pub secs: i64,
    pub nanos: u32,
}

impl Timestamp {
    /// The instant at `secs` seconds and `nanos` nanoseconds after the epoch.
    pub fn new(secs: i64, nanos: u32) -> (t: Self)
        ensures
            t == (Timestamp { secs, nanos }),
    {
        Timestamp { secs, nanos }
    }

    /// Chronological order.
    pub open spec fn before(self, other: Self) -> bool {
        self.secs < other.secs || (self.secs == other.secs && self.nanos < other.nanos)
    }

    /// Whether this instant comes strictly before `other`.
    pub fn is_before(&self, other: &Self) -> (b: bool)
        ensures
            b == self.before(*other),
    {
        self.secs < other.secs || (self.secs == other.secs && self.nanos < other.nanos)
    }
}

/// The instant that `chrono` reads from a text in its relaxed form of RFC 3339,
/// if it reads one.
pub uninterp spec fn instant_of_text(text: Seq<char>) -> Option<Timestamp>;

/// Reads an instant.
///
/// Trusted: calls `<chrono::DateTime<chrono::FixedOffset> as FromStr>::from_str`
/// and takes the result's `timestamp` and `timestamp_subsec_nanos`. The outcome
/// depends on the text alone; which texts spell which instants is not stated.
#[verifier::external_body]
pub(crate) fn parse_instant(text: &str) -> (instant: Option<Timestamp>)
    ensures
        instant == instant_of_text(text@),
{
    match text.parse::<chrono::DateTime<chrono::FixedOffset>>() {
        Ok(t) => Some(Timestamp { secs: t.timestamp(), nanos: t.timestamp_subsec_nanos() }),
        Err(_) => None,
    }
}

/// A number below one hundred in two digits.
pub open spec fn two_digits(n: nat) -> Seq<char> {
    seq![text::digit(n / 10), text::digit(n % 10)]
}

/// A number below one thousand in three digits.
pub open spec fn three_digits(n: nat) -> Seq<char> {
    seq![text::digit(n / 100), text::digit(n / 10 % 10), text::digit(n % 10)]
}

/// The time of day of an instant in UTC, to the millisecond, such as
/// `10:00:01.250`. A leap second shows as second 60.
pub open spec fn clock(t: Timestamp) -> Seq<char> {
    let second_of_day = (t.secs as int % 86400) as nat;
    two_digits(second_of_day / 3600) + ":"@ + two_digits(second_of_day / 60 % 60) + ":"@
        + two_digits(second_of_day % 60 + t.nanos as nat / 1000000000) + "."@ + three_digits(
        t.nanos as nat / 1000000 % 1000,
    )
}

/// Appends a number below one hundred in two digits.
fn append_two_digits(out: &mut String, n: u64)
    requires
        n < 100,
    ensures
        final(out)@ == old(out)@ + two_digits(n as nat),
{
    let ghost before = out@;
    out.append(digit_text(n / 10));
    out.append(digit_text(n % 10));
    proof {
        assert(out@ =~= before + two_digits(n as nat));
    }
}

/// Writes the time of day of an instant.
pub fn clock_text(t: &Timestamp) -> (out: String)
    ensures
        out@ == clock(*t),
{
    let second_of_day: u64 = match t.secs.checked_rem_euclid(86400) {
        Some(r) => r as u64,
        None => 0,
    };
    let nanos: u64 = t.nanos as u64;
    let mut out = String::new();
    append_two_digits(&mut out, second_of_day / 3600);
    out.append(":");
    append_two_digits(&mut out, second_of_day / 60 % 60);
    out.append(":");
    append_two_digits(&mut out, second_of_day % 60 + nanos / 1000000000);
    out.append(".");
    let millis: u64 = nanos / 1000000 % 1000;
    out.append(digit_text(millis / 100));
    out.append(digit_text(millis / 10 % 10));
    out.append(digit_text(millis % 10));
    proof {
        assert(out@ =~= clock(*t));
    }
    out
}

} // verus!
