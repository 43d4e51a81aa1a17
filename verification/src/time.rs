//! Seconds watched, or seconds of running time, where they are known.

use vstd::prelude::*;

verus! {

/// Out of a hundred parts of a file's running time, how many may have been
/// watched for the file still to count as unfinished.
pub const PLAYTIME_THRESHOLD_PERCENT: u64 = 85;

/// A number of seconds, or the absence of one. `Unknown` is no zero: a file
/// at `Seconds(0)` was opened, a file at `Unknown` was never seen playing.
#[derive(Clone, Copy, Debug, PartialEq, Eq, Structural)]
pub enum Time {
    Unknown,
    Seconds(u64),
}

impl Time {
    /// The place of a time in the order that merging goes by: `Unknown` lies
    /// below every number of seconds.
    pub open spec fn rank(self) -> int {
        match self {
            Time::Unknown => -1,
            Time::Seconds(n) => n as int,
        }
    }

    /// Whether this time lies strictly above `other`.
    pub fn exceeds(self, other: Time) -> (r: bool)
        ensures
            r == (self.rank() > other.rank()),
    {
        match (self, other) {
            (Time::Unknown, _) => false,
            (Time::Seconds(_), Time::Unknown) => true,
            (Time::Seconds(a), Time::Seconds(b)) => a > b,
        }
    }

    /// The time that a signed count of seconds stands for.
    pub open spec fn of_signed(seconds: int) -> Time {
        if 0 <= seconds <= u64::MAX {
            Time::Seconds(seconds as u64)
        } else {
            Time::Unknown
        }
    }

    /// Reads a number as the progress file holds it: from zero on a count of
    /// seconds, anything negative (or beyond what a count can hold) unknown.
    pub fn from_number(number: i128) -> (r: Time)
        ensures
            r == Time::of_signed(number as int),
    {
        if 0 <= number && number <= u64::MAX as i128 {
            Time::Seconds(number as u64)
        } else {
            Time::Unknown
        }
    }

    /// The number that the progress file holds for this time: the count of
    /// seconds, or -1 for `Unknown`.
    pub fn to_number(self) -> (r: i128)
        ensures
            r == self.rank(),
    {
        match self {
            Time::Unknown => -1i128,
            Time::Seconds(n) => n as i128,
        }
    }

    /// Reads a playback position as a player recorded it: a number that is
    /// not negative is a count of seconds, anything else is unknown.
    pub fn from_position(position: Option<i64>) -> (r: Time)
        ensures
            r == match position {
                Some(n) => Time::of_signed(n as int),
                None => Time::Unknown,
            },
    {
        match position {
            Some(n) => {
                if n >= 0 {
                    Time::Seconds(n as u64)
                } else {
                    Time::Unknown
                }
            },
            None => Time::Unknown,
        }
    }
}

/// A file with this much progress and this running time is still to be
/// watched: it was never started, or what was watched is at most 85 hundredths
/// of a running time that is known and not zero.
pub open spec fn unfinished(progress: Time, duration: Time) -> bool {
    match progress {
        Time::Unknown => true,
        Time::Seconds(p) => match duration {
            Time::Unknown => false,
            Time::Seconds(d) => d > 0 && 100 * p <= PLAYTIME_THRESHOLD_PERCENT * d,
        },
    }
}

/// Decides whether a file is still to be watched.
pub fn needs_watching(progress: Time, duration: Time) -> (r: bool)
    ensures
        r == unfinished(progress, duration),
{
    match progress {
        Time::Unknown => true,
        Time::Seconds(p) => match duration {
            Time::Unknown => false,
            Time::Seconds(d) => {
                let watched: u128 = 100u128 * (p as u128);
                let percent: u128 = PLAYTIME_THRESHOLD_PERCENT as u128;
                assert(percent == 85);
                let allowed: u128 = percent * (d as u128);
                d > 0 && watched <= allowed
            },
        },
    }
}

/// A time written as a number and read again is the same time.
pub proof fn lemma_number_round_trip(time: Time)
    ensures
        Time::of_signed(time.rank()) == time,
{
}

} // verus!
