//! Modification times as stamps: seconds and nanoseconds that can be compared and
//! written to disk.

use std::time::{Duration, SystemTime};
use vstd::prelude::*;
use vstd::std_specs::cmp::PartialEqSpecImpl;
use vstd::std_specs::convert::FromSpecImpl;

verus! {

/// Nanoseconds in one second.
pub const NANOS_PER_SEC: u32 = 1_000_000_000;

// ---------------------------------------------------------------------------
// Points in time
// ---------------------------------------------------------------------------

/// `std::time::SystemTime`, opaque here: [`unix_nanos`] is all that is said of it.
#[verifier::external_type_specification]
#[verifier::external_body]
pub struct ExSystemTime(SystemTime);

/// The distance of `t` from the UNIX epoch in nanoseconds, as
/// `SystemTime::duration_since` measures it; negative before the epoch.
pub uninterp spec fn unix_nanos(t: SystemTime) -> int;

/// Some `SystemTime` lies exactly `nanos` nanoseconds from the UNIX epoch.
pub open spec fn is_instant(nanos: int) -> bool {
    exists|t: SystemTime| #[trigger] unix_nanos(t) == nanos
}

/// How far a point in time lies from the UNIX epoch, and on which side.
pub struct EpochDistance {
    pub before: bool,
    pub secs: u64,
    pub nanos: u32,
}

impl EpochDistance {
    /// The signed distance in nanoseconds.
    pub open spec fn signed_nanos(self) -> int {
        let size = self.secs * NANOS_PER_SEC + self.nanos;
        if self.before { -size } else { size }
    }
}

/// Calls `SystemTime::duration_since` with the UNIX epoch and reads the
/// `Duration` it answers with, or that of its error if `t` is the earlier one.
/// Claimed: the distance is [`unix_nanos`], its nanoseconds are less than a
/// second, and the error comes only for a time before the epoch.
#[verifier::external_body]
fn epoch_distance(t: SystemTime) -> (r: EpochDistance)
    ensures
        r.nanos < NANOS_PER_SEC,
        r.signed_nanos() == unix_nanos(t),
        r.before ==> r.signed_nanos() < 0,
{
    match t.duration_since(SystemTime::UNIX_EPOCH) {
        Ok(d) => EpochDistance { before: false, secs: d.as_secs(), nanos: d.subsec_nanos() },
        Err(e) => EpochDistance {
            before: true,
            secs: e.duration().as_secs(),
            nanos: e.duration().subsec_nanos(),
        },
    }
}

/// Calls `SystemTime::checked_add` on the UNIX epoch. Claimed: it answers the
/// point in time `secs` seconds and `nanos` nanoseconds after the epoch if
/// there is such a `SystemTime`, and `None` only if there is none. What it
/// answers on a platform whose times are coarser than a nanosecond, for a point
/// in time between two of them, is left unsaid. The bound on `secs` keeps
/// `Duration::new` from overflowing.
#[verifier::external_body]
fn after_epoch(secs: u64, nanos: u32) -> (r: Option<SystemTime>)
    requires
        secs <= 0x8000_0000_0000_0000,
    ensures
        match r {
            Some(t) => is_instant(secs * NANOS_PER_SEC + nanos) ==> unix_nanos(t) == secs
                * NANOS_PER_SEC + nanos,
            None => !is_instant(secs * NANOS_PER_SEC + nanos),
        },
{
    SystemTime::UNIX_EPOCH.checked_add(Duration::new(secs, nanos))
}

/// Calls `SystemTime::checked_sub` on the UNIX epoch. Claimed: it answers the
/// point in time `secs` seconds and `nanos` nanoseconds before the epoch if
/// there is such a `SystemTime`, and `None` only if there is none. What it
/// answers on a platform whose times are coarser than a nanosecond, for a point
/// in time between two of them, is left unsaid. The bound on `secs` keeps
/// `Duration::new` from overflowing.
#[verifier::external_body]
fn before_epoch(secs: u64, nanos: u32) -> (r: Option<SystemTime>)
    requires
        secs <= 0x8000_0000_0000_0000,
    ensures
        match r {
            Some(t) => is_instant(-(secs * NANOS_PER_SEC + nanos)) ==> unix_nanos(t) == -(secs
                * NANOS_PER_SEC + nanos),
            None => !is_instant(-(secs * NANOS_PER_SEC + nanos)),
        },
{
    SystemTime::UNIX_EPOCH.checked_sub(Duration::new(secs, nanos))
}

// ---------------------------------------------------------------------------
// MtimeStamp
// ---------------------------------------------------------------------------

/// Seconds and nanoseconds since the UNIX epoch. Negative `secs` for times
/// before the epoch.
///
/// Floor semantics: `nanos` is never negative and `secs` is the largest integer
/// not above the true value. Half a second before the epoch is
/// `{ secs: -1, nanos: 500_000_000 }`, which stands for -1 + 0.5 = -0.5.
#[derive(Clone, Copy, Eq, Hash, Debug)]
pub struct MtimeStamp {
    pub secs: i64,
    pub nanos: u32,
}

impl PartialEq for MtimeStamp {
    fn eq(&self, other: &Self) -> (r: bool) {
        self.secs == other.secs && self.nanos == other.nanos
    }
}

impl PartialEqSpecImpl for MtimeStamp {
    open spec fn obeys_eq_spec() -> bool {
        true
    }

    open spec fn eq_spec(&self, other: &Self) -> bool {
        self.secs == other.secs && self.nanos == other.nanos
    }
}

/// `n` reduced to the range of `i64`, modulo 2^64.
pub open spec fn wrap_i64(n: int) -> int {
    (n + 0x8000_0000_0000_0000) % 0x1_0000_0000_0000_0000 - 0x8000_0000_0000_0000
}

/// The bits of `n` read as a signed number.
fn to_signed(n: u64) -> (r: i64)
    ensures
        r == wrap_i64(n as int),
{
    assert(n < 0x8000_0000_0000_0000 ==> (n as i64) == n) by (bit_vector);
    assert(n >= 0x8000_0000_0000_0000 ==> (n as i64) == n - 0x1_0000_0000_0000_0000) by (bit_vector);
    #[verifier::truncate]
    let r: i64 = n as i64;
    r
}

/// The stamp of the point in time `n` nanoseconds from the UNIX epoch: whole
/// seconds rounded down, and the nanoseconds that are left.
pub open spec fn floor_stamp(n: int) -> MtimeStamp {
    MtimeStamp {
        secs: wrap_i64(n / (NANOS_PER_SEC as int)) as i64,
        nanos: (n % (NANOS_PER_SEC as int)) as u32,
    }
}

impl MtimeStamp {
    /// The point in time that the stamp stands for, in nanoseconds from the
    /// UNIX epoch.
    pub open spec fn instant(self) -> int {
        self.secs * NANOS_PER_SEC + self.nanos
    }

    /// The stamp of a point in time given by its distance from the UNIX epoch.
    pub fn from_distance(d: EpochDistance) -> (r: Self)
        requires
            d.nanos < NANOS_PER_SEC,
        ensures
            r == floor_stamp(d.signed_nanos()),
    {
        if !d.before {
            MtimeStamp { secs: to_signed(d.secs), nanos: d.nanos }
        } else if d.nanos == 0 {
            MtimeStamp { secs: to_signed(0u64.wrapping_sub(d.secs)), nanos: 0 }
        } else {
            MtimeStamp { secs: to_signed(u64::MAX - d.secs), nanos: NANOS_PER_SEC - d.nanos }
        }
    }

    /// Converts back to `SystemTime`, or answers `None` if no `SystemTime`
    /// stands for that point in time. Before the epoch `nanos` must not exceed
    /// one second.
    pub fn checked_to_system_time(self) -> (r: Option<SystemTime>)
        ensures
            match r {
                Some(t) => is_instant(self.instant()) ==> unix_nanos(t) == self.instant(),
                None => !is_instant(self.instant()) || (self.secs < 0 && self.nanos > NANOS_PER_SEC),
            },
            self.secs < 0 && self.nanos > NANOS_PER_SEC ==> r is None,
    {
        if self.secs >= 0 {
            after_epoch(self.secs as u64, self.nanos)
        } else {
            let whole: u64 = (-(self.secs + 1)) as u64;
            if self.nanos == 0 {
                before_epoch(whole + 1, 0)
            } else if self.nanos <= NANOS_PER_SEC {
                before_epoch(whole, NANOS_PER_SEC - self.nanos)
            } else {
                None
            }
        }
    }

    /// Converts back to `SystemTime`. Lossless roundtrip with
    /// `From<SystemTime>`.
    pub fn to_system_time(self) -> (r: SystemTime)
        requires
            self.secs < 0 ==> self.nanos <= NANOS_PER_SEC,
            is_instant(self.instant()),
        ensures
            unix_nanos(r) == self.instant(),
    {
        self.checked_to_system_time().unwrap()
    }
}

impl From<SystemTime> for MtimeStamp {
    fn from(t: SystemTime) -> (r: Self) {
        MtimeStamp::from_distance(epoch_distance(t))
    }
}

impl FromSpecImpl<SystemTime> for MtimeStamp {
    open spec fn obeys_from_spec() -> bool {
        true
    }

    open spec fn from_spec(t: SystemTime) -> Self {
        floor_stamp(unix_nanos(t))
    }
}

} // verus!
