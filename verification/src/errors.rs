//! What can go wrong when a cache is saved or loaded, and how it is worded.

use std::io;
use vstd::prelude::*;

verus! {

/// `std::io::Error`, opaque here: it is carried through.
#[verifier::external_type_specification]
#[verifier::external_body]
pub struct ExIoError(io::Error);

/// Why a cache could not be saved. `E` is what the format answers if it fails.
#[derive(Debug)]
#[non_exhaustive]
pub enum SaveError<E> {
    Io(io::Error),
    Serialize(E),
}

/// Why a cache could not be loaded. `E` is what the format answers if it fails.
#[derive(Debug)]
#[non_exhaustive]
pub enum LoadError<E> {
    Io(io::Error),
    Deserialize(E),
    VersionMismatch { disk: u32, expected: u32 },
}

/// The error that lies beneath a [`SaveError`] or a [`LoadError`].
#[derive(Debug)]
pub enum Cause<'a, E> {
    Io(&'a io::Error),
    Format(&'a E),
}

/// The digit that stands for `d`.
pub open spec fn digit_char(d: nat) -> char {
    (('0' as nat) + d) as char
}

/// `n` in decimal, without leading zeros.
pub open spec fn decimal(n: nat) -> Seq<char>
    decreases n,
{
    if n < 10 {
        seq![digit_char(n)]
    } else {
        decimal(n / 10).push(digit_char(n % 10))
    }
}

/// The digit that stands for `d`.
fn digit(d: u32) -> (r: &'static str)
    requires
        d < 10,
    ensures
        r@ == seq![digit_char(d as nat)],
{
    proof {
        reveal_strlit("0");
        reveal_strlit("1");
        reveal_strlit("2");
        reveal_strlit("3");
        reveal_strlit("4");
        reveal_strlit("5");
        reveal_strlit("6");
        reveal_strlit("7");
        reveal_strlit("8");
        reveal_strlit("9");
    }
    match d {
        0 => "0",
        1 => "1",
        2 => "2",
        3 => "3",
        4 => "4",
        5 => "5",
        6 => "6",
        7 => "7",
        8 => "8",
        _ => "9",
    }
}

/// Writes `n` in decimal at the end of `out`.
fn push_decimal(out: &mut String, n: u32)
    ensures
        final(out)@ == old(out)@ + decimal(n as nat),
    decreases n,
{
    if n >= 10 {
        push_decimal(out, n / 10);
    }
    out.append(digit(n % 10));
    proof {
        let tail = seq![digit_char((n % 10) as nat)];
        if n >= 10 {
            assert(old(out)@ + decimal((n / 10) as nat) + tail =~= old(out)@ + decimal(n as nat));
        }
    }
}

impl<E> SaveError<E> {
    /// The text of the error, in which `cause` is the text of the error beneath
    /// it.
    pub open spec fn text(self, cause: Seq<char>) -> Seq<char> {
        match self {
            SaveError::Io(_) => "IO error: "@ + cause,
            SaveError::Serialize(_) => "serialization error: "@ + cause,
        }
    }

    /// The text of the error, given the text of the error beneath it.
    pub fn message(&self, cause: &str) -> (r: String)
        ensures
            r@ == self.text(cause@),
    {
        let mut out = match self {
            SaveError::Io(_) => String::from_str("IO error: "),
            SaveError::Serialize(_) => String::from_str("serialization error: "),
        };
        out.append(cause);
        out
    }

    /// The error beneath this one.
    pub fn source(&self) -> (r: Option<Cause<'_, E>>)
        ensures
            r == match *self {
                SaveError::Io(error) => Some(Cause::<E>::Io(&error)),
                SaveError::Serialize(error) => Some(Cause::Format(&error)),
            },
    {
        match self {
            SaveError::Io(error) => Some(Cause::Io(error)),
            SaveError::Serialize(error) => Some(Cause::Format(error)),
        }
    }
}

impl<E> LoadError<E> {
    /// The text of the error, in which `cause` is the text of the error beneath
    /// it, if there is one.
    pub open spec fn text(self, cause: Seq<char>) -> Seq<char> {
        match self {
            LoadError::Io(_) => "IO error: "@ + cause,
            LoadError::Deserialize(_) => "deserialization error: "@ + cause,
            LoadError::VersionMismatch { disk, expected } => "version mismatch: disk="@ + decimal(
                disk as nat,
            ) + ", expected="@ + decimal(expected as nat),
        }
    }

    /// The text of the error, given the text of the error beneath it. A version
    /// mismatch has none beneath it, and `cause` does not matter then.
    pub fn message(&self, cause: &str) -> (r: String)
        ensures
            r@ == self.text(cause@),
    {
        match self {
            LoadError::Io(_) => {
                let mut out = String::from_str("IO error: ");
                out.append(cause);
                out
            },
            LoadError::Deserialize(_) => {
                let mut out = String::from_str("deserialization error: ");
                out.append(cause);
                out
            },
            LoadError::VersionMismatch { disk, expected } => {
                let mut out = String::from_str("version mismatch: disk=");
                push_decimal(&mut out, *disk);
                out.append(", expected=");
                push_decimal(&mut out, *expected);
                out
            },
        }
    }

    /// The error beneath this one. A version mismatch has none.
    pub fn source(&self) -> (r: Option<Cause<'_, E>>)
        ensures
            r == match *self {
                LoadError::Io(error) => Some(Cause::<E>::Io(&error)),
                LoadError::Deserialize(error) => Some(Cause::Format(&error)),
                LoadError::VersionMismatch { .. } => None,
            },
    {
        match self {
            LoadError::Io(error) => Some(Cause::Io(error)),
            LoadError::Deserialize(error) => Some(Cause::Format(error)),
            LoadError::VersionMismatch { .. } => None,
        }
    }
}

} // verus!
