//! Fingerprints: how a stamp comes out of what was read of a file.

use std::fmt::Debug;
use std::hash::Hash;
use std::time::SystemTime;
use vstd::prelude::*;
use vstd::std_specs::cmp::PartialEqSpecImpl;
use vstd::std_specs::convert::FromSpec;

use crate::stamp::MtimeStamp;

verus! {

/// Cheaply identifies whether a file's content has changed since the last
/// parse.
pub trait Fingerprint: Send + Sync + 'static {
    /// What has to be read of a file to stamp it.
    type Reading;

    /// Opaque stamp that can be compared for equality and hashed.
    type Stamp: Eq + Hash + Clone + Send + Sync + Debug + 'static;

    /// The stamp of a file of which `reading` was read.
    fn stamp(&self, reading: &Self::Reading) -> (r: Self::Stamp);
}

/// Compares modification times. Cheap (one system call per check), but can miss
/// edits that land within the same second on coarse-grained filesystems, and
/// reports false changes where modification times are reset.
#[derive(Debug, Clone, Copy)]
pub struct MtimeFingerprint;

impl Default for MtimeFingerprint {
    fn default() -> (r: Self)
        ensures
            r == MtimeFingerprint,
    {
        MtimeFingerprint
    }
}

impl Fingerprint for MtimeFingerprint {
    type Reading = SystemTime;

    type Stamp = MtimeStamp;

    fn stamp(&self, reading: &SystemTime) -> (r: MtimeStamp)
        ensures
            r == MtimeStamp::from_spec(*reading),
    {
        MtimeStamp::from(*reading)
    }
}

/// BLAKE3 hash of the full file content. Robust against resets of modification
/// times, but the entire file is read on every check.
#[derive(Debug, Clone, Copy)]
pub struct ContentHashFingerprint;

impl Default for ContentHashFingerprint {
    fn default() -> (r: Self)
        ensures
            r == ContentHashFingerprint,
    {
        ContentHashFingerprint
    }
}

/// 32-byte BLAKE3 digest.
#[derive(Clone, Copy, Eq, Hash, Debug)]
pub struct Blake3Stamp(pub [u8; 32]);

impl PartialEq for Blake3Stamp {
    fn eq(&self, other: &Self) -> (r: bool) {
        let mut i: usize = 0;
        while i < 32
            invariant
                i <= 32,
                forall|j: int| 0 <= j < i ==> self.0@[j] == other.0@[j],
            decreases 32 - i,
        {
            if self.0[i] != other.0[i] {
                return false;
            }
            i += 1;
        }
        assert(self.0@ =~= other.0@);
        true
    }
}

impl PartialEqSpecImpl for Blake3Stamp {
    open spec fn obeys_eq_spec() -> bool {
        true
    }

    open spec fn eq_spec(&self, other: &Self) -> bool {
        self.0@ == other.0@
    }
}

/// The BLAKE3 digest of `bytes`, in the default hash mode: what `blake3::hash`
/// computes.
pub uninterp spec fn blake3_digest(bytes: Seq<u8>) -> Seq<u8>;

/// Calls `blake3::hash`. Claimed: the 32 bytes of the digest are a function of
/// the bytes hashed, named [`blake3_digest`].
#[verifier::external_body]
fn blake3_hash(bytes: &[u8]) -> (r: [u8; 32])
    ensures
        r@ == blake3_digest(bytes@),
{
    *blake3::hash(bytes).as_bytes()
}

impl Fingerprint for ContentHashFingerprint {
    type Reading = Vec<u8>;

    type Stamp = Blake3Stamp;

    fn stamp(&self, reading: &Vec<u8>) -> (r: Blake3Stamp)
        ensures
            r.0@ == blake3_digest(reading@),
    {
        Blake3Stamp(blake3_hash(reading.as_slice()))
    }
}

} // verus!
