//! What the conversions, the comparisons and the messages give, stated of every
//! call by what goes in and what comes out.

use std::time::SystemTime;
use vstd::prelude::*;
use vstd::std_specs::cmp::PartialEqSpec;

use crate::errors::{decimal, Cause, LoadError, SaveError};
use crate::fingerprint::{
    blake3_digest, Blake3Stamp, ContentHashFingerprint, Fingerprint, MtimeFingerprint,
};
use crate::stamp::{unix_nanos, EpochDistance, MtimeStamp};

verus! {

// ---------------------------------------------------------------------------
// Modification times
// ---------------------------------------------------------------------------

/// The stamp of a time has its nanoseconds within the second, and its whole seconds
/// rounded down, as far as they fit in 64 bits: what is cut off is a multiple of
/// 2^64. If they fit, seconds and nanoseconds add up to the time.
pub proof fn stamp_of_a_time(t: SystemTime, r: MtimeStamp)
    requires
        call_ensures(<MtimeStamp as From<SystemTime>>::from, (t,), r),
    ensures
        r.nanos < 1_000_000_000,
        r.nanos == unix_nanos(t) % 1_000_000_000,
        (unix_nanos(t) / 1_000_000_000 - r.secs) % 0x1_0000_0000_0000_0000 == 0,
        -0x8000_0000_0000_0000 <= unix_nanos(t) / 1_000_000_000 < 0x8000_0000_0000_0000
            ==> r.secs * 1_000_000_000 + r.nanos == unix_nanos(t),
{
}

/// The stamp of a point in time given by its distance from the epoch adds up to that
/// distance: forwards after the epoch, backwards before it.
pub proof fn stamp_of_a_distance(d: EpochDistance, r: MtimeStamp)
    requires
        d.nanos < 1_000_000_000,
        call_ensures(MtimeStamp::from_distance, (d,), r),
    ensures
        r.nanos < 1_000_000_000,
        !d.before && d.secs < 0x8000_0000_0000_0000 ==> r.secs == d.secs && r.nanos == d.nanos,
        d.before && d.secs < 0x8000_0000_0000_0000 ==> r.secs * 1_000_000_000 + r.nanos + d.secs
            * 1_000_000_000 + d.nanos == 0,
        !d.before ==> (r.secs - d.secs) % 0x1_0000_0000_0000_0000 == 0 && r.nanos == d.nanos,
        d.before ==> (r.secs + d.secs + if d.nanos == 0 { 0int } else { 1int })
            % 0x1_0000_0000_0000_0000 == 0 && (r.nanos + d.nanos) % 1_000_000_000 == 0,
{
}

/// A stamp is converted back to the time that its seconds and nanoseconds add up
/// to, whenever there is one, be it before or after the epoch.
pub proof fn time_of_a_stamp(s: MtimeStamp, u: SystemTime)
    requires
        unix_nanos(u) == s.secs * 1_000_000_000 + s.nanos,
        s.secs >= 0 || s.nanos <= 1_000_000_000,
    ensures
        call_requires(MtimeStamp::to_system_time, (s,)),
        forall|t: SystemTime| #[trigger]
            call_ensures(MtimeStamp::to_system_time, (s,), t) ==> unix_nanos(t) == unix_nanos(u),
        forall|t: Option<SystemTime>| #[trigger]
            call_ensures(MtimeStamp::checked_to_system_time, (s,), t) ==> t is Some && unix_nanos(
                t->0,
            ) == unix_nanos(u),
{
    assert(s.instant() == unix_nanos(u));
}

/// Any distance with its nanoseconds within the second can be stamped, any stamp asked
/// for its time, and any error worded and asked for what lies beneath it.
pub proof fn conversions_can_be_asked<E>(
    d: EpochDistance,
    s: MtimeStamp,
    failed_save: SaveError<E>,
    failed_load: LoadError<E>,
    cause: &str,
)
    requires
        d.nanos < 1_000_000_000,
    ensures
        call_requires(MtimeStamp::from_distance, (d,)),
        call_requires(MtimeStamp::checked_to_system_time, (s,)),
        call_requires(SaveError::<E>::message, (&failed_save, cause)),
        call_requires(LoadError::<E>::message, (&failed_load, cause)),
        call_requires(SaveError::<E>::source, (&failed_save,)),
        call_requires(LoadError::<E>::source, (&failed_load,)),
{
}

/// A stamp that no time stands for is not taken for one: before the epoch, the
/// nanoseconds must not exceed a second.
pub proof fn no_time_of_a_stamp(s: MtimeStamp, t: Option<SystemTime>)
    requires
        call_ensures(MtimeStamp::checked_to_system_time, (s,), t),
    ensures
        s.secs < 0 && s.nanos > 1_000_000_000 ==> t is None,
{
}

/// Two times have equal stamps exactly if they are the same point in time, as long
/// as their seconds fit in 64 bits.
pub proof fn stamps_of_two_times(t: SystemTime, u: SystemTime, a: MtimeStamp, b: MtimeStamp, answer: bool)
    requires
        call_ensures(<MtimeStamp as From<SystemTime>>::from, (t,), a),
        call_ensures(<MtimeStamp as From<SystemTime>>::from, (u,), b),
        call_ensures(<MtimeStamp as PartialEq>::eq, (&a, &b), answer),
        -0x8000_0000_0000_0000 <= unix_nanos(t) / 1_000_000_000 < 0x8000_0000_0000_0000,
        -0x8000_0000_0000_0000 <= unix_nanos(u) / 1_000_000_000 < 0x8000_0000_0000_0000,
    ensures
        answer <==> unix_nanos(t) == unix_nanos(u),
{
    stamp_of_a_time(t, a);
    stamp_of_a_time(u, b);
    equal_mtime_stamps(a, b, answer);
}

/// Two stamps are equal exactly if their seconds and their nanoseconds are.
pub proof fn equal_mtime_stamps(a: MtimeStamp, b: MtimeStamp, answer: bool)
    requires
        call_ensures(<MtimeStamp as PartialEq>::eq, (&a, &b), answer),
    ensures
        answer <==> a.secs == b.secs && a.nanos == b.nanos,
        MtimeStamp::obeys_eq_spec(),
        a.eq_spec(&b) <==> a.secs == b.secs && a.nanos == b.nanos,
{
}

/// The modification time is what the mtime fingerprint stamps: files of the same
/// modification time have equal stamps, and files of different ones do not.
pub proof fn mtime_fingerprint_stamps_the_time(t: SystemTime, r: MtimeStamp)
    requires
        call_ensures(<MtimeFingerprint as Fingerprint>::stamp, (&MtimeFingerprint, &t), r),
    ensures
        r.nanos < 1_000_000_000,
        r.nanos == unix_nanos(t) % 1_000_000_000,
        (unix_nanos(t) / 1_000_000_000 - r.secs) % 0x1_0000_0000_0000_0000 == 0,
        -0x8000_0000_0000_0000 <= unix_nanos(t) / 1_000_000_000 < 0x8000_0000_0000_0000
            ==> r.secs * 1_000_000_000 + r.nanos == unix_nanos(t),
{
}

// ---------------------------------------------------------------------------
// Contents
// ---------------------------------------------------------------------------

/// Two content stamps are equal exactly if all their 32 bytes are.
pub proof fn equal_content_stamps(a: Blake3Stamp, b: Blake3Stamp, answer: bool)
    requires
        call_ensures(<Blake3Stamp as PartialEq>::eq, (&a, &b), answer),
    ensures
        answer <==> forall|i: int| 0 <= i < 32 ==> a.0@[i] == b.0@[i],
        Blake3Stamp::obeys_eq_spec(),
        a.eq_spec(&b) <==> forall|i: int| 0 <= i < 32 ==> a.0@[i] == b.0@[i],
{
    if forall|i: int| 0 <= i < 32 ==> a.0@[i] == b.0@[i] {
        assert(a.0@ =~= b.0@);
    }
}

/// Contents have equal stamps exactly if they have the same BLAKE3 digest.
pub proof fn contents_are_told_apart_by_their_digest(
    content: Vec<u8>,
    other: Vec<u8>,
    a: Blake3Stamp,
    b: Blake3Stamp,
    answer: bool,
)
    requires
        call_ensures(
            <ContentHashFingerprint as Fingerprint>::stamp,
            (&ContentHashFingerprint, &content),
            a,
        ),
        call_ensures(
            <ContentHashFingerprint as Fingerprint>::stamp,
            (&ContentHashFingerprint, &other),
            b,
        ),
        call_ensures(<Blake3Stamp as PartialEq>::eq, (&a, &b), answer),
    ensures
        a.0@ == blake3_digest(content@),
        answer <==> blake3_digest(content@) == blake3_digest(other@),
        content@ == other@ ==> answer,
{
    equal_content_stamps(a, b, answer);
    if answer {
        assert(a.0@ =~= b.0@);
    }
}

// ---------------------------------------------------------------------------
// Messages
// ---------------------------------------------------------------------------

/// The number that a row of digits stands for.
pub open spec fn number(digits: Seq<char>) -> nat
    decreases digits.len(),
{
    if digits.len() == 0 {
        0
    } else {
        number(digits.drop_last()) * 10 + ((digits.last() as int - '0' as int) as nat)
    }
}

/// `digits` is `n` in decimal: digits alone, no leading zero but for 0 itself.
pub open spec fn is_numeral(digits: Seq<char>, n: nat) -> bool {
    &&& digits.len() > 0
    &&& forall|i: int| 0 <= i < digits.len() ==> '0' <= #[trigger] digits[i] <= '9'
    &&& digits[0] == '0' ==> digits.len() == 1
    &&& number(digits) == n
}

proof fn lemma_decimal(n: nat)
    ensures
        is_numeral(decimal(n), n),
        n > 0 ==> decimal(n)[0] != '0',
    decreases n,
{
    let digits = decimal(n);
    if n < 10 {
        assert(digits.drop_last() =~= Seq::empty());
        assert(number(digits.drop_last()) == 0);
    } else {
        lemma_decimal(n / 10);
        assert(digits.drop_last() =~= decimal(n / 10));
        assert(digits[0] == decimal(n / 10)[0]);
    }
}

/// The message of a failed save names the kind of failure and ends in the text of
/// the error beneath it.
pub proof fn message_of_a_save_error<E>(error: SaveError<E>, cause: &str, r: String)
    requires
        call_ensures(SaveError::<E>::message, (&error, cause), r),
    ensures
        error is Io ==> r@ == "IO error: "@ + cause@,
        error is Serialize ==> r@ == "serialization error: "@ + cause@,
{
}

/// The message of a failed load names the kind of failure and ends in the text of
/// the error beneath it. That of a version mismatch names both versions, in decimal.
pub proof fn message_of_a_load_error<E>(error: LoadError<E>, cause: &str, r: String)
    requires
        call_ensures(LoadError::<E>::message, (&error, cause), r),
    ensures
        error is Io ==> r@ == "IO error: "@ + cause@,
        error is Deserialize ==> r@ == "deserialization error: "@ + cause@,
        error matches LoadError::VersionMismatch { disk, expected } ==> exists|
            found: Seq<char>,
            wanted: Seq<char>,
        | #[trigger]
            is_numeral(found, disk as nat) && #[trigger] is_numeral(wanted, expected as nat) && r@
                == "version mismatch: disk="@ + found + ", expected="@ + wanted,
{
    if let LoadError::VersionMismatch { disk, expected } = error {
        lemma_decimal(disk as nat);
        lemma_decimal(expected as nat);
    }
}

/// Beneath a failed save lies the error that it carries.
pub proof fn source_of_a_save_error<'a, E>(error: &'a SaveError<E>, r: Option<Cause<'a, E>>)
    requires
        call_ensures(SaveError::<E>::source, (error,), r),
    ensures
        *error matches SaveError::Io(e) ==> r == Some(Cause::<E>::Io(&e)),
        *error matches SaveError::Serialize(e) ==> r == Some(Cause::Format(&e)),
{
}

/// Beneath a failed load lies the error that it carries, and beneath a version
/// mismatch none.
pub proof fn source_of_a_load_error<'a, E>(error: &'a LoadError<E>, r: Option<Cause<'a, E>>)
    requires
        call_ensures(LoadError::<E>::source, (error,), r),
    ensures
        *error matches LoadError::Io(e) ==> r == Some(Cause::<E>::Io(&e)),
        *error matches LoadError::Deserialize(e) ==> r == Some(Cause::Format(&e)),
        error is VersionMismatch ==> r is None,
{
}

} // verus!
