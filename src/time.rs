use vstd::prelude::*;

use crate::encoding::{enc_array_head, enc_i64, enc_u64, write_array_head, write_i64, write_u64};

verus! {

/// An instant in UTC: whole seconds since the Unix epoch and the nanoseconds past them.
#[derive(Clone, Copy, Debug, PartialEq, Eq, Structural)]
pub struct Timestamp {
    pub seconds: i64,
    pub nanos: u32,
}

pub const NANOS_PER_SECOND: i128 = 1_000_000_000;

/// Relies on `chrono::Utc::now`, read back with `timestamp` and `timestamp_subsec_nanos`.
#[verifier::external_body]
fn utc_now() -> (r: Timestamp) {
    let now = chrono::Utc::now();
    Timestamp { seconds: now.timestamp(), nanos: now.timestamp_subsec_nanos() }
}

impl Timestamp {
    /// Nanoseconds since the Unix epoch.
    pub open spec fn total_nanos(self) -> int {
        self.seconds * 1_000_000_000 + self.nanos
    }

    pub fn now() -> Timestamp {
        utc_now()
    }

    pub fn from_seconds(seconds: i64) -> (r: Timestamp)
        ensures
            r.seconds == seconds,
            r.nanos == 0,
            r.total_nanos() == seconds * 1_000_000_000,
    {
        Timestamp { seconds, nanos: 0 }
    }

    fn nanos_exec(&self) -> (r: i128)
        ensures
            r == self.total_nanos(),
    {
        self.seconds as i128 * NANOS_PER_SECOND + self.nanos as i128
    }

    /// Whether this instant comes strictly after the other.
    pub fn is_after(&self, other: &Timestamp) -> (r: bool)
        ensures
            r == (self.total_nanos() > other.total_nanos()),
    {
        self.nanos_exec() > other.nanos_exec()
    }

    /// Whole seconds from `earlier` to this instant, rounded down, and no more than `cap`.
    pub fn seconds_since_capped(&self, earlier: &Timestamp, cap: u64) -> (r: u64)
        requires
            self.total_nanos() >= earlier.total_nanos(),
        ensures
            r == if (self.total_nanos() - earlier.total_nanos()) / 1_000_000_000 <= cap {
                (self.total_nanos() - earlier.total_nanos()) / 1_000_000_000
            } else {
                cap as int
            },
    {
        let diff: i128 = self.nanos_exec() - earlier.nanos_exec();
        let secs: i128 = diff / NANOS_PER_SECOND;
        if secs <= cap as i128 {
            secs as u64
        } else {
            cap
        }
    }

    /// Whether more than `limit` whole seconds separate `earlier` from this instant.
    pub fn more_than_seconds_after(&self, earlier: &Timestamp, limit: u64) -> (r: bool)
        ensures
            r == (self.total_nanos() - earlier.total_nanos() > limit * 1_000_000_000),
    {
        let diff: i128 = self.nanos_exec() - earlier.nanos_exec();
        diff > limit as i128 * NANOS_PER_SECOND
    }
}

pub open spec fn enc_timestamp(t: Timestamp) -> Seq<u8> {
    enc_array_head(2) + enc_i64(t.seconds) + enc_u64(t.nanos as u64)
}

pub fn write_timestamp(out: &mut Vec<u8>, t: &Timestamp)
    ensures
        final(out)@ == old(out)@ + enc_timestamp(*t),
{
    write_array_head(out, 2);
    write_i64(out, t.seconds);
    write_u64(out, t.nanos as u64);
    assert(final(out)@ =~= old(out)@ + enc_timestamp(*t));
}

} // verus!
