//! Saving a cache to disk and loading it again.
//!
//! A [`Format`] turns a [`DiskCache`] into bytes and back. Saving clears the
//! dirty flag first and sets it again if anything fails, so that what is cached
//! meanwhile is saved next time. Loading stamps every file again and leaves out
//! the entries whose file has changed.

use std::io;
use std::path::PathBuf;
use std::sync::Arc;
use vstd::prelude::*;

use crate::cache::{judged, CacheView, FileParseCache};
use crate::errors::{LoadError, SaveError};
use crate::fingerprint::Fingerprint;
use crate::paths::{self, is_unicode, parent_of, path_text, text_path};
use crate::store::{Entry, Stored, StoreView};

verus! {

/// The version of the layout that is written, and the only one that is read.
pub const DISK_CACHE_VERSION: u32 = 1;

/// A cache as it is written to disk.
#[derive(Debug)]
pub struct DiskCache<T, S> {
    pub version: u32,
    pub entries: Vec<DiskEntry<T, S>>,
}

/// One entry of a [`DiskCache`].
#[derive(Debug)]
pub struct DiskEntry<T, S> {
    pub path: String,
    pub stamp: S,
    pub value: T,
}

/// Serialization codec for disk persistence.
pub trait Format<T, S>: Send + Sync {
    /// What the codec answers if it fails.
    type Error;

    /// What the codec asks of a cache that it is to serialize. A codec that can be
    /// called with any cache asks nothing.
    open spec fn takes(&self, value: DiskCache<T, S>) -> bool {
        true
    }

    fn serialize(&self, value: &DiskCache<T, S>) -> (r: Result<Vec<u8>, Self::Error>)
        requires
            self.takes(*value),
    ;

    fn deserialize(&self, bytes: &[u8]) -> (r: Result<DiskCache<T, S>, Self::Error>);
}

/// How many entries were loaded, and how many were left out as stale.
#[derive(Debug, Clone, Copy)]
pub struct LoadStats {
    pub loaded: u64,
    pub stale: u64,
}

// ---------------------------------------------------------------------------
// Saving
// ---------------------------------------------------------------------------

/// `entry` is what is written of `item`. A path that is valid Unicode can be read
/// back as it was.
pub open spec fn written<T: Clone, S: Clone>(item: Stored<T, S>, entry: DiskEntry<T, S>) -> bool {
    &&& entry.path@ == path_text(&item.path)
    &&& is_unicode(&item.path) ==> entry.file() == item.path
    &&& cloned(item.entry.stamp, entry.stamp)
    &&& cloned(item.entry.value, entry.value)
}

/// `disk` is what is written of `store`: every entry once, in some order.
pub open spec fn snapshot<T: Clone, S: Clone>(store: StoreView<T, S>, disk: DiskCache<T, S>) -> bool {
    &&& disk.version == DISK_CACHE_VERSION
    &&& exists|items: Seq<Stored<T, S>>| #[trigger]
        store.lists(items) && items.len() == disk.entries.len() && forall|i: int|
            0 <= i < items.len() ==> written(#[trigger] items[i], disk.entries@[i])
}

/// Writing `bytes` to `path` gives `result`.
pub open spec fn stored_at<E, W>(
    path: PathBuf,
    bytes: Vec<u8>,
    write_file: W,
    result: Result<(), SaveError<E>>,
) -> bool where W: FnOnce(&PathBuf, &Vec<u8>) -> Result<(), io::Error> {
    exists|wrote: Result<(), io::Error>| #[trigger]
        write_file.ensures((&path, &bytes), wrote) && match wrote {
            Ok(_) => result == Ok::<(), SaveError<E>>(()),
            Err(error) => result == Err::<(), SaveError<E>>(SaveError::Io(error)),
        }
}

/// Making the directory that `path` lies in, if it has a parent, and then writing
/// `bytes` to `path` gives `result`.
pub open spec fn placed_at<E, M, W>(
    path: PathBuf,
    bytes: Vec<u8>,
    make_dirs: M,
    write_file: W,
    result: Result<(), SaveError<E>>,
) -> bool where
    M: FnOnce(&PathBuf) -> Result<(), io::Error>,
    W: FnOnce(&PathBuf, &Vec<u8>) -> Result<(), io::Error>,
 {
    match parent_of(&path) {
        Some(parent) => exists|made: Result<(), io::Error>| #[trigger]
            make_dirs.ensures((&parent,), made) && match made {
                Ok(_) => stored_at(path, bytes, write_file, result),
                Err(error) => result == Err::<(), SaveError<E>>(SaveError::Io(error)),
            },
        None => stored_at(path, bytes, write_file, result),
    }
}

/// Making the directory of `path` and writing to `path` is asked for only in its
/// turn: the directory once there are bytes to write, the file once the directory
/// is there. `make_dirs` and `write_file` are called at no other time.
pub open spec fn writes_in_turn<M, W>(
    path: PathBuf,
    bytes: Vec<u8>,
    make_dirs: M,
    write_file: W,
) -> bool where
    M: FnOnce(&PathBuf) -> Result<(), io::Error>,
    W: FnOnce(&PathBuf, &Vec<u8>) -> Result<(), io::Error>,
 {
    match parent_of(&path) {
        Some(parent) => {
            &&& make_dirs.requires((&parent,))
            &&& (exists|made: Result<(), io::Error>| #[trigger]
                make_dirs.ensures((&parent,), made) && made is Ok) ==> write_file.requires(
                (&path, &bytes),
            )
        },
        None => write_file.requires((&path, &bytes)),
    }
}

/// Writing what a format made of the cache to `path` gives `result`.
pub open spec fn saved_as<E, M, W>(
    bytes: Result<Vec<u8>, E>,
    path: PathBuf,
    make_dirs: M,
    write_file: W,
    result: Result<(), SaveError<E>>,
) -> bool where
    M: FnOnce(&PathBuf) -> Result<(), io::Error>,
    W: FnOnce(&PathBuf, &Vec<u8>) -> Result<(), io::Error>,
 {
    match bytes {
        Ok(bytes) => placed_at(path, bytes, make_dirs, write_file, result),
        Err(error) => result == Err::<(), SaveError<E>>(SaveError::Serialize(error)),
    }
}

/// Writes what a format made of a cache, `bytes`, to `path`. `make_dirs` creates a
/// directory and its parents, `write_file` writes bytes to a file.
///
/// If the format failed, nothing is created or written. If the directory cannot be
/// created, nothing is written.
pub fn write_bytes<E>(
    bytes: Result<Vec<u8>, E>,
    path: &PathBuf,
    make_dirs: impl FnOnce(&PathBuf) -> Result<(), io::Error>,
    write_file: impl FnOnce(&PathBuf, &Vec<u8>) -> Result<(), io::Error>,
) -> (r: Result<(), SaveError<E>>)
    requires
        bytes matches Ok(bytes) ==> writes_in_turn(*path, bytes, make_dirs, write_file),
    ensures
        saved_as(bytes, *path, make_dirs, write_file, r),
{
    let bytes = match bytes {
        Ok(bytes) => bytes,
        Err(error) => return Err(SaveError::Serialize(error)),
    };
    if let Some(parent) = paths::parent(path) {
        if let Err(error) = make_dirs(&parent) {
            return Err(SaveError::Io(error));
        }
    }
    if let Err(error) = write_file(path, &bytes) {
        return Err(SaveError::Io(error));
    }
    Ok(())
}

/// Whether the path of a cached file is read back from disk as it was.
pub fn survives_saving(path: &PathBuf) -> (r: bool)
    ensures
        r == is_unicode(path),
{
    paths::has_text(path)
}

impl<T, F> FileParseCache<T, F> where T: Clone + Send + Sync + 'static, F: Fingerprint {
    /// The first half of [`save`](Self::save): what is to be written, or `None`
    /// if nothing has changed since the last save. The cache counts as saved
    /// from here on.
    pub fn begin_save(&mut self) -> (r: Option<DiskCache<T, F::Stamp>>)
        requires
            old(self).wf(),
        ensures
            final(self).wf(),
            final(self).judge() == old(self).judge(),
            final(self)@ == (CacheView { dirty: false, ..old(self)@ }),
            r is Some <==> old(self)@.dirty,
            r matches Some(disk) ==> snapshot(old(self)@.store, disk),
    {
        if !self.take_dirty() {
            return None;
        }
        let items = self.items();
        let mut entries: Vec<DiskEntry<T, F::Stamp>> = Vec::new();
        let mut i: usize = 0;
        while i < items.len()
            invariant
                i <= items.len(),
                entries.len() == i,
                forall|j: int| 0 <= j < i ==> written(#[trigger] items@[j], entries@[j]),
            decreases items.len() - i,
        {
            let item = &items[i];
            let entry = DiskEntry {
                path: paths::to_text(&item.path),
                stamp: item.entry.stamp.clone(),
                value: item.entry.value.clone(),
            };
            assert(written(items@[i as int], entry));
            entries.push(entry);
            i += 1;
        }
        Some(DiskCache { version: DISK_CACHE_VERSION, entries })
    }

    /// The second half of [`save`](Self::save): `outcome` tells whether what
    /// [`begin_save`](Self::begin_save) gave was written. If not, the cache has
    /// to be saved again.
    pub fn finish_save<E>(&mut self, outcome: Result<(), SaveError<E>>) -> (r: Result<
        (),
        SaveError<E>,
    >)
        requires
            old(self).wf(),
        ensures
            final(self).wf(),
            final(self).judge() == old(self).judge(),
            final(self)@ == (CacheView { dirty: old(self)@.dirty || outcome is Err, ..old(self)@ }),
            r == outcome,
    {
        if outcome.is_err() {
            self.mark_dirty();
        }
        outcome
    }

    /// Persists the current cache to `path` using `format`. `make_dirs` creates
    /// a directory and its parents, `write_file` writes bytes to a file.
    ///
    /// Returns `Ok(())` immediately if no entries have changed since the last
    /// save: nothing is serialized, created or written then. On failure the dirty
    /// flag is restored so the next `save` retries.
    pub fn save<Fmt: Format<T, F::Stamp>>(
        &mut self,
        path: &PathBuf,
        format: &Fmt,
        make_dirs: impl FnOnce(&PathBuf) -> Result<(), io::Error>,
        write_file: impl FnOnce(&PathBuf, &Vec<u8>) -> Result<(), io::Error>,
    ) -> (r: Result<(), SaveError<Fmt::Error>>)
        requires
            old(self).wf(),
            old(self)@.dirty ==> forall|disk: DiskCache<T, F::Stamp>| #[trigger]
                snapshot(old(self)@.store, disk) ==> format.takes(disk),
            old(self)@.dirty ==> forall|disk: DiskCache<T, F::Stamp>, bytes: Vec<u8>|
                #![trigger call_ensures(Fmt::serialize, (format, &disk), Ok::<Vec<u8>, Fmt::Error>(bytes))]
                snapshot(old(self)@.store, disk) && call_ensures(
                    Fmt::serialize,
                    (format, &disk),
                    Ok::<Vec<u8>, Fmt::Error>(bytes),
                ) ==> writes_in_turn(*path, bytes, make_dirs, write_file),
        ensures
            final(self).wf(),
            final(self).judge() == old(self).judge(),
            final(self)@.store == old(self)@.store,
            final(self)@.dirty == r is Err,
            !old(self)@.dirty ==> r is Ok,
            old(self)@.dirty ==> exists|
                disk: DiskCache<T, F::Stamp>,
                bytes: Result<Vec<u8>, Fmt::Error>,
            |
                #![trigger call_ensures(Fmt::serialize, (format, &disk), bytes)]
                snapshot(old(self)@.store, disk) && call_ensures(
                    Fmt::serialize,
                    (format, &disk),
                    bytes,
                ) && saved_as(bytes, *path, make_dirs, write_file, r),
    {
        let disk = match self.begin_save() {
            Some(disk) => disk,
            None => return Ok(()),
        };
        let bytes = format.serialize(&disk);
        let outcome = write_bytes(bytes, path, make_dirs, write_file);
        self.finish_save(outcome)
    }
}

// ---------------------------------------------------------------------------
// Loading
// ---------------------------------------------------------------------------

impl<T, S> DiskEntry<T, S> {
    /// The path of the file that the entry was parsed from.
    pub open spec fn file(self) -> PathBuf {
        text_path(self.path@)
    }

    /// The entry as it is cached.
    pub open spec fn item(self) -> Stored<T, S> {
        Stored {
            path: self.file(),
            entry: Arc::new(Entry { stamp: self.stamp, value: self.value }),
        }
    }
}

/// Whether `entry` is still up to date, told by what was read of its file now:
/// it is if the file could be read and its stamp equals the one saved.
pub open spec fn up_to_date<T, F: Fingerprint>(
    fingerprint: F,
    entry: DiskEntry<T, F::Stamp>,
    reading: Result<F::Reading, io::Error>,
    fresh: bool,
) -> bool {
    match reading {
        Ok(read) => exists|stamp: F::Stamp| #[trigger]
            call_ensures(F::stamp, (&fingerprint, &read), stamp) && judged(
                stamp,
                entry.stamp,
                fresh,
            ),
        Err(_) => !fresh,
    }
}

/// Reading the file of `entry` with `read` tells whether `entry` is up to date.
pub open spec fn rechecked<T, F, R>(
    fingerprint: F,
    read: R,
    entry: DiskEntry<T, F::Stamp>,
    fresh: bool,
) -> bool where F: Fingerprint, R: Fn(&PathBuf) -> Result<F::Reading, io::Error> {
    exists|reading: Result<F::Reading, io::Error>| #[trigger]
        read.ensures((&entry.file(),), reading) && up_to_date(fingerprint, entry, reading, fresh)
}

/// `store` with the entries of which `fresh` is set put in, one after another.
pub open spec fn with_fresh<T, S>(
    store: StoreView<T, S>,
    entries: Seq<DiskEntry<T, S>>,
    fresh: Seq<bool>,
) -> StoreView<T, S>
    decreases entries.len(),
{
    if entries.len() == 0 {
        store
    } else {
        let before = with_fresh(store, entries.drop_last(), fresh.drop_last());
        if fresh.last() {
            before.stored(entries.last().item())
        } else {
            before
        }
    }
}

/// How many of `fresh` are set.
pub open spec fn count_fresh(fresh: Seq<bool>) -> nat
    decreases fresh.len(),
{
    if fresh.len() == 0 {
        0
    } else {
        count_fresh(fresh.drop_last()) + if fresh.last() { 1nat } else { 0nat }
    }
}

/// `after` is `before` with those of `entries` put in that are up to date, which
/// `fresh` marks, and `stats` counts them and the others.
pub open spec fn loads_marked<T, F, R>(
    before: CacheView<T, F::Stamp>,
    after: CacheView<T, F::Stamp>,
    fingerprint: F,
    entries: Seq<DiskEntry<T, F::Stamp>>,
    read: R,
    fresh: Seq<bool>,
    stats: LoadStats,
) -> bool where F: Fingerprint, R: Fn(&PathBuf) -> Result<F::Reading, io::Error> {
    &&& fresh.len() == entries.len()
    &&& forall|i: int|
        0 <= i < entries.len() ==> rechecked(fingerprint, read, #[trigger] entries[i], fresh[i])
    &&& after.store == with_fresh(before.store, entries, fresh)
    &&& after.dirty == before.dirty
    &&& stats.loaded == count_fresh(fresh)
    &&& stats.stale == entries.len() - count_fresh(fresh)
}

/// `after` is `before` with those of `entries` put in that are up to date, and
/// `stats` counts them and the others.
pub open spec fn loads_entries<T, F, R>(
    before: CacheView<T, F::Stamp>,
    after: CacheView<T, F::Stamp>,
    fingerprint: F,
    entries: Seq<DiskEntry<T, F::Stamp>>,
    read: R,
    stats: LoadStats,
) -> bool where F: Fingerprint, R: Fn(&PathBuf) -> Result<F::Reading, io::Error> {
    exists|fresh: Seq<bool>| #[trigger]
        loads_marked(before, after, fingerprint, entries, read, fresh, stats)
}

/// What loading `disk` answers, and leaves of the cache.
pub open spec fn loads_disk<T, F, E, R>(
    before: CacheView<T, F::Stamp>,
    after: CacheView<T, F::Stamp>,
    fingerprint: F,
    disk: DiskCache<T, F::Stamp>,
    read: R,
    result: Result<LoadStats, LoadError<E>>,
) -> bool where F: Fingerprint, R: Fn(&PathBuf) -> Result<F::Reading, io::Error> {
    match result {
        Ok(stats) => {
            &&& disk.version == DISK_CACHE_VERSION
            &&& loads_entries(before, after, fingerprint, disk.entries@, read, stats)
        },
        Err(error) => {
            &&& disk.version != DISK_CACHE_VERSION
            &&& after == before
            &&& error == refusal::<E>(disk.version)
        },
    }
}

/// The error for a cache on disk of another version.
pub open spec fn refusal<E>(version: u32) -> LoadError<E> {
    LoadError::VersionMismatch { disk: version, expected: DISK_CACHE_VERSION }
}

/// The files of `entries` can be read.
pub open spec fn can_reread<T, S, G, R>(entries: Seq<DiskEntry<T, S>>, read: R) -> bool where
    R: Fn(&PathBuf) -> Result<G, io::Error>,
 {
    forall|i: int| 0 <= i < entries.len() ==> read.requires((&(#[trigger] entries[i]).file(),))
}

/// The files of the entries of `disk` can be read, if `disk` is of the version that
/// is loaded. Only then are they read.
pub open spec fn rereads_current<T, S, G, R>(disk: DiskCache<T, S>, read: R) -> bool where
    R: Fn(&PathBuf) -> Result<G, io::Error>,
 {
    disk.version == DISK_CACHE_VERSION ==> can_reread(disk.entries@, read)
}

/// What loading a file of which `bytes` were read answers, and leaves of the cache.
pub open spec fn loads_bytes<T, F, Fmt, R>(
    before: CacheView<T, F::Stamp>,
    after: CacheView<T, F::Stamp>,
    fingerprint: F,
    bytes: Result<Vec<u8>, io::Error>,
    format: Fmt,
    read: R,
    result: Result<LoadStats, LoadError<Fmt::Error>>,
) -> bool where
    F: Fingerprint,
    Fmt: Format<T, F::Stamp>,
    R: Fn(&PathBuf) -> Result<F::Reading, io::Error>,
 {
    match bytes {
        Err(error) => {
            &&& after == before
            &&& result == Err::<LoadStats, LoadError<Fmt::Error>>(LoadError::Io(error))
        },
        Ok(bytes) => exists|slice: &[u8], disk: Result<DiskCache<T, F::Stamp>, Fmt::Error>|
            #![trigger call_ensures(Fmt::deserialize, (&format, slice), disk)]
            slice@ == bytes@ && call_ensures(Fmt::deserialize, (&format, slice), disk)
                && match disk {
                Err(error) => {
                    &&& after == before
                    &&& result == Err::<LoadStats, LoadError<Fmt::Error>>(
                        LoadError::Deserialize(error),
                    )
                },
                Ok(disk) => loads_disk(before, after, fingerprint, disk, read, result),
            },
    }
}

/// Loading one more entry extends what was loaded so far.
proof fn lemma_loads_push<T, F, R>(
    before: CacheView<T, F::Stamp>,
    mid: CacheView<T, F::Stamp>,
    after: CacheView<T, F::Stamp>,
    fingerprint: F,
    entries: Seq<DiskEntry<T, F::Stamp>>,
    entry: DiskEntry<T, F::Stamp>,
    read: R,
    fresh: Seq<bool>,
    last: bool,
    stats: LoadStats,
    total: LoadStats,
) where F: Fingerprint, R: Fn(&PathBuf) -> Result<F::Reading, io::Error>
    requires
        loads_marked(before, mid, fingerprint, entries, read, fresh, stats),
        rechecked(fingerprint, read, entry, last),
        after == mid.loaded(entry, last),
        total.loaded == stats.loaded + if last { 1int } else { 0int },
        total.stale == stats.stale + if last { 0int } else { 1int },
    ensures
        loads_marked(before, after, fingerprint, entries.push(entry), read, fresh.push(last), total),
{
    let more = entries.push(entry);
    let marks = fresh.push(last);
    assert(more.drop_last() =~= entries);
    assert(marks.drop_last() =~= fresh);
    assert forall|i: int| 0 <= i < more.len() implies rechecked(
        fingerprint,
        read,
        #[trigger] more[i],
        marks[i],
    ) by {
        if i < entries.len() {
            assert(more[i] == entries[i]);
        }
    }
}

impl<T, S> CacheView<T, S> {
    /// This cache with `entry` put in if it is `fresh`. Loaded entries need no
    /// saving.
    pub open spec fn loaded(self, entry: DiskEntry<T, S>, fresh: bool) -> Self {
        if fresh {
            CacheView { store: self.store.stored(entry.item()), ..self }
        } else {
            self
        }
    }
}

/// The entries of `disk`, unless it is of another version.
pub fn accept<T, S, E>(disk: DiskCache<T, S>) -> (r: Result<Vec<DiskEntry<T, S>>, LoadError<E>>)
    ensures
        r == if disk.version == DISK_CACHE_VERSION {
            Ok(disk.entries)
        } else {
            Err(refusal::<E>(disk.version))
        },
{
    if disk.version != DISK_CACHE_VERSION {
        return Err(
            LoadError::VersionMismatch { disk: disk.version, expected: DISK_CACHE_VERSION },
        );
    }
    Ok(disk.entries)
}

impl<T, F> FileParseCache<T, F> where T: Clone + Send + Sync + 'static, F: Fingerprint {
    /// Caches one loaded entry if it is still up to date, told by what was read
    /// of its file now, and returns whether it was.
    pub fn load_entry(
        &mut self,
        entry: DiskEntry<T, F::Stamp>,
        reading: Result<F::Reading, io::Error>,
    ) -> (fresh: bool)
        requires
            old(self).wf(),
        ensures
            final(self).wf(),
            final(self).judge() == old(self).judge(),
            up_to_date(old(self).judge(), entry, reading, fresh),
            final(self)@ == old(self)@.loaded(entry, fresh),
    {
        let read = match reading {
            Ok(read) => read,
            Err(_) => return false,
        };
        let current = self.stamp(&read);
        if current == entry.stamp {
            let file = paths::from_text(entry.path.as_str());
            self.put_back(file, Entry { stamp: entry.stamp, value: entry.value });
            true
        } else {
            false
        }
    }

    /// Caches those of `list` that are still up to date, and counts them and the
    /// others. `read` reads of a file what the fingerprint needs.
    pub fn load_entries(
        &mut self,
        list: Vec<DiskEntry<T, F::Stamp>>,
        read: impl Fn(&PathBuf) -> Result<F::Reading, io::Error>,
    ) -> (r: LoadStats)
        requires
            old(self).wf(),
            can_reread(list@, read),
        ensures
            final(self).wf(),
            final(self).judge() == old(self).judge(),
            loads_entries(old(self)@, final(self)@, old(self).judge(), list@, read, r),
    {
        let mut loaded: u64 = 0;
        let mut stale: u64 = 0;
        let ghost entries = list@;
        let ghost mut fresh: Seq<bool> = Seq::empty();
        let n: usize = list.len();
        assert(entries.take(0) =~= Seq::empty());

        for entry in it: list
            invariant
                it.seq() == entries,
                n == entries.len(),
                old(self).wf(),
                self.wf(),
                self.judge() == old(self).judge(),
                can_reread(entries, read),
                loads_marked(
                    old(self)@,
                    self@,
                    old(self).judge(),
                    entries.take(it.index() as int),
                    read,
                    fresh,
                    LoadStats { loaded, stale },
                ),
        {
            let ghost i = it.index() as int;
            let ghost mid = self@;
            let ghost stats = LoadStats { loaded, stale };
            assert(entry == entries[i]);
            let file = paths::from_text(entry.path.as_str());
            let reading = read(&file);
            let is_fresh = self.load_entry(entry, reading);
            if is_fresh {
                loaded += 1;
            } else {
                stale += 1;
            }
            proof {
                assert(read.ensures((&entry.file(),), reading));
                assert(entries.take(i + 1) =~= entries.take(i).push(entry));
                lemma_loads_push(
                    old(self)@,
                    mid,
                    self@,
                    old(self).judge(),
                    entries.take(i),
                    entry,
                    read,
                    fresh,
                    is_fresh,
                    stats,
                    LoadStats { loaded, stale },
                );
                fresh = fresh.push(is_fresh);
            }
        }
        assert(entries.take(n as int) =~= entries);
        let stats = LoadStats { loaded, stale };
        assert(loads_entries(old(self)@, self@, old(self).judge(), entries, read, stats));
        stats
    }

    /// Caches the entries of `disk` that are still up to date. `read` reads of a
    /// file what the fingerprint needs. No file is read if `disk` is of another
    /// version.
    pub fn load_disk<E>(
        &mut self,
        disk: DiskCache<T, F::Stamp>,
        read: impl Fn(&PathBuf) -> Result<F::Reading, io::Error>,
    ) -> (r: Result<LoadStats, LoadError<E>>)
        requires
            old(self).wf(),
            rereads_current(disk, read),
        ensures
            final(self).wf(),
            final(self).judge() == old(self).judge(),
            loads_disk(old(self)@, final(self)@, old(self).judge(), disk, read, r),
    {
        match accept(disk) {
            Ok(list) => Ok(self.load_entries(list, read)),
            Err(error) => Err(error),
        }
    }

    /// Loads cached entries from `path`, dropping entries whose fingerprint no
    /// longer matches the file on disk. `read_file` reads the bytes at `path`,
    /// `read` reads of a cached file what the fingerprint needs.
    ///
    /// Stale validation is eager: the file of every loaded entry is stamped
    /// again. Entries for files that were deleted or modified since the cache was
    /// saved are skipped. Returns counts of loaded and of stale entries.
    ///
    /// If the load is refused, no file is stamped. Does not set the dirty flag:
    /// loaded data already matches disk.
    pub fn load<Fmt: Format<T, F::Stamp>>(
        &mut self,
        path: &PathBuf,
        format: &Fmt,
        read_file: impl FnOnce(&PathBuf) -> Result<Vec<u8>, io::Error>,
        read: impl Fn(&PathBuf) -> Result<F::Reading, io::Error>,
    ) -> (r: Result<LoadStats, LoadError<Fmt::Error>>)
        requires
            old(self).wf(),
            read_file.requires((path,)),
            forall|bytes: Vec<u8>, slice: &[u8], disk: DiskCache<T, F::Stamp>|
                #![trigger read_file.ensures((path,), Ok::<Vec<u8>, io::Error>(bytes)), call_ensures(Fmt::deserialize, (format, slice), Ok::<DiskCache<T, F::Stamp>, Fmt::Error>(disk))]
                read_file.ensures((path,), Ok::<Vec<u8>, io::Error>(bytes)) && slice@ == bytes@
                    && call_ensures(
                    Fmt::deserialize,
                    (format, slice),
                    Ok::<DiskCache<T, F::Stamp>, Fmt::Error>(disk),
                ) ==> rereads_current(disk, read),
        ensures
            final(self).wf(),
            final(self).judge() == old(self).judge(),
            exists|bytes: Result<Vec<u8>, io::Error>| #[trigger]
                read_file.ensures((path,), bytes) && loads_bytes(
                    old(self)@,
                    final(self)@,
                    old(self).judge(),
                    bytes,
                    *format,
                    read,
                    r,
                ),
    {
        let bytes = match read_file(path) {
            Ok(bytes) => bytes,
            Err(error) => return Err(LoadError::Io(error)),
        };
        let disk = match format.deserialize(bytes.as_slice()) {
            Ok(disk) => disk,
            Err(error) => return Err(LoadError::Deserialize(error)),
        };
        self.load_disk(disk, read)
    }
}

} // verus!
