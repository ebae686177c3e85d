//! Readings of a monotonic clock, and the line that reports how long a
//! statement ran.

use crate::text::{digits, padded, write_digits, write_padded};
use vstd::prelude::*;

verus! {

/// How many nanoseconds make a second.
pub const NANOS_PER_SECOND: u32 = 1_000_000_000;

/// One reading of a monotonic clock: the time since an origin that the
/// driver chose once and keeps.
#[derive(Clone, Copy, Debug, PartialEq, Eq, Structural)]
pub struct Instant {
    /// Whole seconds since the origin.
    pub seconds: u64,
    /// The part of a second beyond `seconds`, below [`NANOS_PER_SECOND`].
    pub nanoseconds: u32,
}

/// The time between two readings.
#[derive(Clone, Copy, Debug, PartialEq, Eq, Structural)]
pub struct Elapsed {
    /// Whole seconds.
    pub seconds: u64,
    /// The part of a second beyond `seconds`, below [`NANOS_PER_SECOND`].
    pub nanoseconds: u32,
}

impl Instant {
    /// Whether the nanoseconds are less than a second.
    pub open spec fn valid(self) -> bool {
        self.nanoseconds < NANOS_PER_SECOND
    }

    /// The reading in nanoseconds.
    pub open spec fn total(self) -> nat {
        (self.seconds * NANOS_PER_SECOND + self.nanoseconds) as nat
    }

    /// The time from `self` to `now`, or nothing where `now` lies before
    /// `self`.
    pub open spec fn until(self, now: Instant) -> Elapsed {
        let span = if now.total() >= self.total() {
            now.total() - self.total()
        } else {
            0
        };
        Elapsed {
            seconds: (span / (NANOS_PER_SECOND as int)) as u64,
            nanoseconds: (span % (NANOS_PER_SECOND as int)) as u32,
        }
    }

    /// Whether the nanoseconds are less than a second.
    pub fn is_valid(&self) -> (ok: bool)
        ensures
            ok == self.valid(),
    {
        self.nanoseconds < NANOS_PER_SECOND
    }

    /// The time from `self` to `now`, or nothing where the clock ran
    /// backwards.
    pub fn elapsed(&self, now: &Instant) -> (span: Elapsed)
        requires
            self.valid(),
            now.valid(),
        ensures
            span == self.until(*now),
            span.nanoseconds < NANOS_PER_SECOND,
    {
        if now.seconds < self.seconds || (now.seconds == self.seconds && now.nanoseconds
            < self.nanoseconds) {
            Elapsed { seconds: 0, nanoseconds: 0 }
        } else if now.nanoseconds >= self.nanoseconds {
            Elapsed {
                seconds: now.seconds - self.seconds,
                nanoseconds: now.nanoseconds - self.nanoseconds,
            }
        } else {
            Elapsed {
                seconds: now.seconds - self.seconds - 1,
                nanoseconds: now.nanoseconds + (NANOS_PER_SECOND - self.nanoseconds),
            }
        }
    }
}

impl Elapsed {
    /// The line that reports this time: minutes apart once it has reached a
    /// minute, seconds before the point and nine digits of nanoseconds
    /// behind it.
    pub open spec fn line(self) -> Seq<char> {
        if self.seconds >= 60 {
            "real    "@ + digits((self.seconds / 60) as nat) + "m "@ + padded(
                (self.seconds % 60) as nat,
                2,
            ) + "."@ + padded(self.nanoseconds as nat, 9) + "s"@
        } else {
            "real    "@ + digits(self.seconds as nat) + "."@ + padded(self.nanoseconds as nat, 9)
                + "s"@
        }
    }

    /// Formats the line that reports this time.
    pub fn report(&self) -> (line: String)
        ensures
            line@ == self.line(),
    {
        let mut out = String::new();
        out.append("real    ");
        if self.seconds >= 60 {
            write_digits(&mut out, self.seconds / 60);
            out.append("m ");
            write_padded(&mut out, self.seconds % 60, 2);
        } else {
            write_digits(&mut out, self.seconds);
        }
        out.append(".");
        write_padded(&mut out, self.nanoseconds as u64, 9);
        out.append("s");
        assert(out@ =~= self.line());
        out
    }
}

} // verus!
