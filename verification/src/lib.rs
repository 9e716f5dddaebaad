//! A cache of parsed files that notices when a file has changed.
//!
//! A [`FileParseCache`] keeps what files were parsed to, each with a stamp of the
//! file it came from. As long as a file has the stamp that is cached, its parsed
//! value is served from the cache. A [`Fingerprint`] makes the stamps: of the
//! modification time ([`MtimeFingerprint`]) or of the whole content
//! ([`ContentHashFingerprint`]). A cache can be saved to disk in a [`Format`] and
//! loaded again.
//!
//! The library does no input or output of its own. What has to be read or written
//! is handed in, as a closure or as the result of having done it.

pub mod cache;
pub mod cache_laws;
pub mod disk_laws;
pub mod errors;
pub mod fingerprint;
pub mod laws;
pub mod paths;
pub mod persist;
pub mod promises;
pub mod stamp;
pub mod stamp_laws;
pub mod store;

pub use crate::cache::FileParseCache;
pub use crate::errors::{Cause, LoadError, SaveError};
pub use crate::fingerprint::{
    Blake3Stamp, ContentHashFingerprint, Fingerprint, MtimeFingerprint,
};
pub use crate::persist::{DiskCache, DiskEntry, Format, LoadStats};
pub use crate::stamp::{EpochDistance, MtimeStamp};
