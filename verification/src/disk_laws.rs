//! What saving and loading do, stated of every call by what goes in and what comes
//! out: what is handed to the format and to the file system, what they answer, and
//! what the cache holds afterwards.

use std::io;
use std::path::PathBuf;
use std::sync::Arc;
use vstd::prelude::*;
use vstd::std_specs::cmp::PartialEqSpec;

use crate::cache::{CacheView, FileParseCache};
use crate::cache_laws::{lemma_puts, puts};
use crate::errors::{LoadError, SaveError};
use crate::fingerprint::Fingerprint;
use crate::laws::{entry_key, lemma_with_fresh_wf, load_gives_back_what_was_saved};
use crate::paths::{is_unicode, parent_of, path_text, text_path, PathKey};
use crate::persist::{
    accept, count_fresh, loads_bytes, loads_disk, loads_entries, loads_marked, placed_at, rechecked,
    saved_as, snapshot, stored_at, survives_saving, with_fresh, write_bytes, written, DiskCache,
    DiskEntry, Format, LoadStats,
};
use crate::store::{Entry, Stored, StoreView};

verus! {

// ---------------------------------------------------------------------------
// Saving
// ---------------------------------------------------------------------------

/// `entry` tells what is stored: the text of its path, and clones of its stamp and
/// value. A path that is valid Unicode is read back from its text.
pub open spec fn tells<T: Clone, S: Clone>(entry: DiskEntry<T, S>, item: Stored<T, S>) -> bool {
    &&& entry.path@ == path_text(&item.path)
    &&& is_unicode(&item.path) ==> text_path(entry.path@) == item.path
    &&& cloned(item.entry.stamp, entry.stamp)
    &&& cloned(item.entry.value, entry.value)
}

/// `disk` tells of every entry in `contents`, once: `keys` names the entry that each
/// of its entries tells of.
pub open spec fn tells_of<T: Clone, S: Clone>(
    disk: DiskCache<T, S>,
    contents: Map<PathKey, Stored<T, S>>,
    keys: Seq<PathKey>,
) -> bool {
    &&& disk.version == 1
    &&& keys.len() == disk.entries.len()
    &&& keys.no_duplicates()
    &&& forall|k: PathKey| #[trigger] contents.contains_key(k) <==> keys.contains(k)
    &&& forall|i: int|
        0 <= i < keys.len() ==> tells(#[trigger] disk.entries@[i], contents[keys[i]])
}

/// `disk` tells of every entry in `contents`, once, in some order.
pub open spec fn tells_all<T: Clone, S: Clone>(
    disk: DiskCache<T, S>,
    contents: Map<PathKey, Stored<T, S>>,
) -> bool {
    exists|keys: Seq<PathKey>| #[trigger] tells_of(disk, contents, keys)
}

/// A save begins with nothing if nothing has changed, and with all that is cached
/// otherwise. The cache keeps what it holds, and counts as saved from then on.
pub proof fn save_begins_with_all_that_is_cached<T, F>(
    cache: &mut FileParseCache<T, F>,
    r: Option<DiskCache<T, F::Stamp>>,
) where T: Clone + Send + Sync + 'static, F: Fingerprint
    requires
        old(cache).wf(),
        call_ensures(FileParseCache::<T, F>::begin_save, (cache,), r),
    ensures
        final(cache).wf(),
        final(cache).judge() == old(cache).judge(),
        final(cache)@.store == old(cache)@.store,
        !final(cache)@.dirty,
        r is Some <==> old(cache)@.dirty,
        r is Some ==> tells_all(r->0, old(cache)@.store.contents),
        r is Some ==> r->0.entries.len() == old(cache)@.store.contents.dom().len(),
        call_requires(FileParseCache::<T, F>::begin_save, (cache,)),
{
    if r is Some {
        lemma_snapshot(old(cache)@.store, r->0);
    }
}

/// A save that failed leaves the cache to be saved again. One that succeeded leaves it
/// as it is: what was cached meanwhile is still to be saved.
pub proof fn save_ends_with_its_outcome<T, F, E>(
    cache: &mut FileParseCache<T, F>,
    outcome: Result<(), SaveError<E>>,
    r: Result<(), SaveError<E>>,
) where T: Clone + Send + Sync + 'static, F: Fingerprint
    requires
        old(cache).wf(),
        call_ensures(FileParseCache::<T, F>::finish_save::<E>, (cache, outcome), r),
    ensures
        final(cache).wf(),
        final(cache).judge() == old(cache).judge(),
        r == outcome,
        final(cache)@.store == old(cache)@.store,
        final(cache)@.dirty <==> old(cache)@.dirty || outcome is Err,
        call_requires(FileParseCache::<T, F>::finish_save::<E>, (cache, outcome)),
{
}

/// Bytes are written if and only if the answer is `Ok`: the directory of the path was
/// made, if it has one, and then just these bytes were written to just this path,
/// however many they are. Each failure is answered as it came.
pub proof fn bytes_are_written<E, M, W>(
    bytes: Result<Vec<u8>, E>,
    path: &PathBuf,
    make_dirs: M,
    write_file: W,
    r: Result<(), SaveError<E>>,
) where
    M: FnOnce(&PathBuf) -> Result<(), io::Error>,
    W: FnOnce(&PathBuf, &Vec<u8>) -> Result<(), io::Error>,

    requires
        call_ensures(write_bytes::<E>, (bytes, path, make_dirs, write_file), r),
    ensures
        bytes is Err ==> r == Err::<(), SaveError<E>>(SaveError::Serialize(bytes->Err_0)),
        r is Ok ==> {
            &&& bytes is Ok
            &&& write_file.ensures((path, &bytes->Ok_0), Ok::<(), io::Error>(()))
            &&& parent_of(path) is Some ==> make_dirs.ensures(
                (&parent_of(path)->0,),
                Ok::<(), io::Error>(()),
            )
        },
        bytes is Ok && r is Err ==> r->Err_0 is Io && {
            let error = r->Err_0->Io_0;
            ||| parent_of(path) is Some && make_dirs.ensures(
                (&parent_of(path)->0,),
                Err::<(), io::Error>(error),
            )
            ||| {
                &&& write_file.ensures((path, &bytes->Ok_0), Err::<(), io::Error>(error))
                &&& parent_of(path) is Some ==> make_dirs.ensures(
                    (&parent_of(path)->0,),
                    Ok::<(), io::Error>(()),
                )
            }
        },
{
    lemma_saved_as(bytes, *path, make_dirs, write_file, r);
}

/// Nothing is made or written before its turn: with no bytes neither closure has to be
/// callable, and if the directory cannot be made the file need not be writable.
pub proof fn nothing_is_written_out_of_turn<E, M, W>(
    bytes: Result<Vec<u8>, E>,
    path: &PathBuf,
    make_dirs: M,
    write_file: W,
) where
    M: FnOnce(&PathBuf) -> Result<(), io::Error>,
    W: FnOnce(&PathBuf, &Vec<u8>) -> Result<(), io::Error>,

    ensures
        bytes is Err ==> call_requires(
            write_bytes::<E>,
            (bytes, path, make_dirs, write_file),
        ),
        bytes is Ok && (parent_of(path) is Some ==> make_dirs.requires((&parent_of(path)->0,)))
            && write_file.requires((path, &bytes->Ok_0)) ==> call_requires(
            write_bytes::<E>,
            (bytes, path, make_dirs, write_file),
        ),
        parent_of(path) is Some && make_dirs.requires((&parent_of(path)->0,)) && (forall|
            made: Result<(), io::Error>,
        | #[trigger]
            make_dirs.ensures((&parent_of(path)->0,), made) ==> made is Err) ==> call_requires(
            write_bytes::<E>,
            (bytes, path, make_dirs, write_file),
        ),
{
}

/// A save of a cache without changes answers `Ok` and leaves the cache as it is, and
/// asks nothing of the format and the closures: it calls none of them.
pub proof fn save_without_changes_does_nothing<T, F, Fmt, M, W>(
    cache: &mut FileParseCache<T, F>,
    path: &PathBuf,
    format: &Fmt,
    make_dirs: M,
    write_file: W,
    r: Result<(), SaveError<Fmt::Error>>,
) where
    T: Clone + Send + Sync + 'static,
    F: Fingerprint,
    Fmt: Format<T, F::Stamp>,
    M: FnOnce(&PathBuf) -> Result<(), io::Error>,
    W: FnOnce(&PathBuf, &Vec<u8>) -> Result<(), io::Error>,

    requires
        old(cache).wf(),
        !old(cache)@.dirty,
    ensures
        call_requires(
            FileParseCache::<T, F>::save::<Fmt>,
            (cache, path, format, make_dirs, write_file),
        ),
        call_ensures(
            FileParseCache::<T, F>::save::<Fmt>,
            (cache, path, format, make_dirs, write_file),
            r,
        ) ==> r is Ok && final(cache)@.store == old(cache)@.store && !final(cache)@.dirty && final(
            cache).wf() && final(cache).judge() == old(cache).judge(),
{
}

/// A save of a cache with changes answers `Ok` only if the bytes that the format made
/// of all that is cached were written to the path. It answers each failure as it came.
/// The cache keeps what it holds, and has to be saved again if and only if the save
/// failed.
pub proof fn save_writes_all_that_is_cached<T, F, Fmt, M, W>(
    cache: &mut FileParseCache<T, F>,
    path: &PathBuf,
    format: &Fmt,
    make_dirs: M,
    write_file: W,
    r: Result<(), SaveError<Fmt::Error>>,
) where
    T: Clone + Send + Sync + 'static,
    F: Fingerprint,
    Fmt: Format<T, F::Stamp>,
    M: FnOnce(&PathBuf) -> Result<(), io::Error>,
    W: FnOnce(&PathBuf, &Vec<u8>) -> Result<(), io::Error>,

    requires
        old(cache).wf(),
        old(cache)@.dirty,
        call_ensures(
            FileParseCache::<T, F>::save::<Fmt>,
            (cache, path, format, make_dirs, write_file),
            r,
        ),
    ensures
        final(cache).wf(),
        final(cache).judge() == old(cache).judge(),
        final(cache)@.store == old(cache)@.store,
        final(cache)@.dirty <==> r is Err,
        r is Ok ==> exists|disk: DiskCache<T, F::Stamp>, bytes: Vec<u8>|
            tells_all(disk, old(cache)@.store.contents) && #[trigger] call_ensures(
                Fmt::serialize,
                (format, &disk),
                Ok::<Vec<u8>, Fmt::Error>(bytes),
            ) && write_file.ensures((path, &bytes), Ok::<(), io::Error>(())) && (parent_of(
                path,
            ) is Some ==> make_dirs.ensures(
                (&parent_of(path)->0,),
                Ok::<(), io::Error>(()),
            )),
        r is Err ==> r->Err_0 is Io || exists|disk: DiskCache<T, F::Stamp>|
            tells_all(disk, old(cache)@.store.contents) && r->Err_0 is Serialize
                && #[trigger] call_ensures(
                Fmt::serialize,
                (format, &disk),
                Err::<Vec<u8>, Fmt::Error>(r->Err_0->Serialize_0),
            ),
        r is Err && r->Err_0 is Io ==> {
            let error = r->Err_0->Io_0;
            ||| parent_of(path) is Some && make_dirs.ensures(
                (&parent_of(path)->0,),
                Err::<(), io::Error>(error),
            )
            ||| exists|disk: DiskCache<T, F::Stamp>, bytes: Vec<u8>|
                tells_all(disk, old(cache)@.store.contents) && #[trigger] call_ensures(
                    Fmt::serialize,
                    (format, &disk),
                    Ok::<Vec<u8>, Fmt::Error>(bytes),
                ) && write_file.ensures((path, &bytes), Err::<(), io::Error>(error))
        },
        (forall|bytes: &Vec<u8>| !#[trigger] write_file.ensures(
            (path, bytes),
            Ok::<(), io::Error>(()),
        )) ==> r is Err,
{
    let (disk, bytes) = choose|
        disk: DiskCache<T, F::Stamp>,
        bytes: Result<Vec<u8>, Fmt::Error>,
    |
        #![trigger call_ensures(Fmt::serialize, (format, &disk), bytes)]
        snapshot(old(cache)@.store, disk) && call_ensures(Fmt::serialize, (format, &disk), bytes)
            && saved_as(bytes, *path, make_dirs, write_file, r);
    lemma_snapshot(old(cache)@.store, disk);
    lemma_saved_as(bytes, *path, make_dirs, write_file, r);
    match bytes {
        Ok(made) => {
            assert(call_ensures(Fmt::serialize, (format, &disk), Ok::<Vec<u8>, Fmt::Error>(made)));
        },
        Err(error) => {
            assert(r->Err_0->Serialize_0 == error);
            assert(call_ensures(
                Fmt::serialize,
                (format, &disk),
                Err::<Vec<u8>, Fmt::Error>(r->Err_0->Serialize_0),
            ));
        },
    }
}

/// Every cache can be saved with closures and a format that can always be called.
pub proof fn every_cache_can_be_saved<T, F, Fmt, M, W>(
    cache: &mut FileParseCache<T, F>,
    path: &PathBuf,
    format: &Fmt,
    make_dirs: M,
    write_file: W,
) where
    T: Clone + Send + Sync + 'static,
    F: Fingerprint,
    Fmt: Format<T, F::Stamp>,
    M: FnOnce(&PathBuf) -> Result<(), io::Error>,
    W: FnOnce(&PathBuf, &Vec<u8>) -> Result<(), io::Error>,

    requires
        old(cache).wf(),
        forall|disk: DiskCache<T, F::Stamp>| #[trigger] format.takes(disk),
        forall|dir: &PathBuf| #[trigger] make_dirs.requires((dir,)),
        forall|bytes: &Vec<u8>| #[trigger] write_file.requires((path, bytes)),
    ensures
        call_requires(
            FileParseCache::<T, F>::save::<Fmt>,
            (cache, path, format, make_dirs, write_file),
        ),
{
}

/// The test for a path that is read back as it was.
pub proof fn unicode_paths_survive(path: &PathBuf, r: bool)
    requires
        call_ensures(survives_saving, (path,), r),
    ensures
        r <==> is_unicode(path),
{
}

// ---------------------------------------------------------------------------
// Loading
// ---------------------------------------------------------------------------

/// What is cached for an entry that was loaded.
pub open spec fn put_for<T, S>(entry: DiskEntry<T, S>) -> Stored<T, S> {
    Stored {
        path: text_path(entry.path@),
        entry: Arc::new(Entry { stamp: entry.stamp, value: entry.value }),
    }
}

/// `fresh` tells of what was read of the file of `entry`: it is set if and only if the
/// file could be read and `==` finds its stamp equal to the one of the entry.
pub open spec fn finds<T, F: Fingerprint>(
    fingerprint: F,
    entry: DiskEntry<T, F::Stamp>,
    reading: Result<F::Reading, io::Error>,
    fresh: bool,
) -> bool {
    &&& reading is Err ==> !fresh
    &&& reading is Ok ==> exists|stamp: F::Stamp| #[trigger]
        call_ensures(F::stamp, (&fingerprint, &reading->Ok_0), stamp) && call_ensures(
            <F::Stamp as PartialEq>::eq,
            (&stamp, &entry.stamp),
            fresh,
        )
}

/// `fresh` tells whether the file of `entry` is unchanged, by what `read` gives for its
/// path.
pub open spec fn finds_out<T, F, R>(
    fingerprint: F,
    entry: DiskEntry<T, F::Stamp>,
    read: R,
    fresh: bool,
) -> bool where F: Fingerprint, R: Fn(&PathBuf) -> Result<F::Reading, io::Error> {
    exists|reading: Result<F::Reading, io::Error>| #[trigger]
        read.ensures((&text_path(entry.path@),), reading) && finds(
            fingerprint,
            entry,
            reading,
            fresh,
        )
}

/// `fresh` marks, for each of `entries`, whether its file is unchanged, by what `read`
/// gives for the path of that file.
pub open spec fn marks<T, F, R>(
    fingerprint: F,
    entries: Seq<DiskEntry<T, F::Stamp>>,
    read: R,
    fresh: Seq<bool>,
) -> bool where F: Fingerprint, R: Fn(&PathBuf) -> Result<F::Reading, io::Error> {
    &&& fresh.len() == entries.len()
    &&& forall|i: int|
        0 <= i < entries.len() ==> finds_out(fingerprint, #[trigger] entries[i], read, fresh[i])
}

/// `after` is `before` with `entry` put in if it is marked, and `before` itself if not.
pub open spec fn steps<T, S>(
    before: StoreView<T, S>,
    after: StoreView<T, S>,
    entry: DiskEntry<T, S>,
    fresh: bool,
) -> bool {
    if fresh {
        puts(before, after, put_for(entry))
    } else {
        after == before
    }
}

/// `states` leads from `before` to `after` by putting in the entries that are marked,
/// one after another, and passing over the others.
pub open spec fn leads<T, S>(
    states: Seq<StoreView<T, S>>,
    before: StoreView<T, S>,
    after: StoreView<T, S>,
    entries: Seq<DiskEntry<T, S>>,
    fresh: Seq<bool>,
) -> bool {
    &&& states.len() == entries.len() + 1
    &&& states[0] == before
    &&& states[entries.len() as int] == after
    &&& forall|i: int| 0 <= i < states.len() ==> (#[trigger] states[i]).wf()
    &&& forall|i: int|
        0 <= i < entries.len() ==> steps(
            states[i],
            states[i + 1],
            #[trigger] entries[i],
            fresh[i],
        )
}

/// How many marks are set.
pub open spec fn number_set(fresh: Seq<bool>) -> nat {
    fresh.filter(|set: bool| set).len()
}

/// A load of `entries`, any number of them: all that are unchanged were put in, and
/// `stats` counts those and the others. The state of saving is as before.
pub open spec fn takes_in<T, F, R>(
    before: CacheView<T, F::Stamp>,
    after: CacheView<T, F::Stamp>,
    fingerprint: F,
    entries: Seq<DiskEntry<T, F::Stamp>>,
    read: R,
    fresh: Seq<bool>,
    stats: LoadStats,
) -> bool where F: Fingerprint, R: Fn(&PathBuf) -> Result<F::Reading, io::Error> {
    &&& marks(fingerprint, entries, read, fresh)
    &&& exists|states: Seq<StoreView<T, F::Stamp>>| #[trigger]
        leads(states, before.store, after.store, entries, fresh)
    &&& after.dirty == before.dirty
    &&& stats.loaded == number_set(fresh)
    &&& stats.loaded + stats.stale == entries.len()
}

/// One entry is cached if and only if its file is unchanged, and the answer says which.
pub proof fn one_entry_is_loaded<T, F>(
    cache: &mut FileParseCache<T, F>,
    entry: DiskEntry<T, F::Stamp>,
    reading: Result<F::Reading, io::Error>,
    fresh: bool,
) where T: Clone + Send + Sync + 'static, F: Fingerprint
    requires
        old(cache).wf(),
        call_ensures(FileParseCache::<T, F>::load_entry, (cache, entry, reading), fresh),
    ensures
        final(cache).wf(),
        final(cache).judge() == old(cache).judge(),
        finds(old(cache).judge(), entry, reading, fresh),
        fresh ==> puts(old(cache)@.store, final(cache)@.store, put_for(entry)),
        !fresh ==> final(cache)@ == old(cache)@,
        final(cache)@.dirty == old(cache)@.dirty,
        call_requires(FileParseCache::<T, F>::load_entry, (cache, entry, reading)),
{
    lemma_puts(old(cache)@.store, entry.item());
    assert(entry.item() == put_for(entry));
}

/// Every one of the entries is put in or counted as stale.
pub proof fn all_entries_are_loaded<T, F, R>(
    cache: &mut FileParseCache<T, F>,
    list: Vec<DiskEntry<T, F::Stamp>>,
    read: R,
    stats: LoadStats,
) where
    T: Clone + Send + Sync + 'static,
    F: Fingerprint,
    R: Fn(&PathBuf) -> Result<F::Reading, io::Error>,

    requires
        old(cache).wf(),
        call_ensures(FileParseCache::<T, F>::load_entries, (cache, list, read), stats),
    ensures
        final(cache).wf(),
        final(cache).judge() == old(cache).judge(),
        exists|fresh: Seq<bool>| #[trigger]
            takes_in(old(cache)@, final(cache)@, old(cache).judge(), list@, read, fresh, stats),
        (forall|i: int|
            0 <= i < list.len() ==> read.requires((&text_path((#[trigger] list@[i]).path@),)))
            ==> call_requires(FileParseCache::<T, F>::load_entries, (cache, list, read)),
{
    lemma_takes_in(old(cache)@, final(cache)@, old(cache).judge(), list@, read, stats);
    if forall|i: int|
        0 <= i < list.len() ==> read.requires((&text_path((#[trigger] list@[i]).path@),)) {
        assert(crate::persist::can_reread(list@, read));
    }
}

/// The entries of a cache on disk are accepted, all of them, if it is of version 1, and
/// refused otherwise.
pub proof fn only_version_one_is_accepted<T, S, E>(
    disk: DiskCache<T, S>,
    r: Result<Vec<DiskEntry<T, S>>, LoadError<E>>,
)
    requires
        call_ensures(accept::<T, S, E>, (disk,), r),
    ensures
        disk.version == 1 ==> r == Ok::<Vec<DiskEntry<T, S>>, LoadError<E>>(disk.entries),
        disk.version != 1 ==> r == Err::<Vec<DiskEntry<T, S>>, LoadError<E>>(
            LoadError::VersionMismatch { disk: disk.version, expected: 1 },
        ),
{
}

/// A cache on disk of version 1 is loaded in full, and one of another version is
/// refused: nothing changes then, and no file is read.
pub proof fn disk_is_loaded<T, F, E, R>(
    cache: &mut FileParseCache<T, F>,
    disk: DiskCache<T, F::Stamp>,
    read: R,
    r: Result<LoadStats, LoadError<E>>,
) where
    T: Clone + Send + Sync + 'static,
    F: Fingerprint,
    R: Fn(&PathBuf) -> Result<F::Reading, io::Error>,

    requires
        old(cache).wf(),
        call_ensures(FileParseCache::<T, F>::load_disk::<E>, (cache, disk, read), r),
    ensures
        final(cache).wf(),
        final(cache).judge() == old(cache).judge(),
        disk.version == 1 ==> r is Ok && exists|fresh: Seq<bool>| #[trigger]
            takes_in(
                old(cache)@,
                final(cache)@,
                old(cache).judge(),
                disk.entries@,
                read,
                fresh,
                r->Ok_0,
            ),
        disk.version != 1 ==> final(cache)@ == old(cache)@ && r == Err::<
            LoadStats,
            LoadError<E>,
        >(LoadError::VersionMismatch { disk: disk.version, expected: 1 }),
        disk.version != 1 ==> call_requires(
            FileParseCache::<T, F>::load_disk::<E>,
            (cache, disk, read),
        ),
        (forall|file: &PathBuf| #[trigger] read.requires((file,))) ==> call_requires(
            FileParseCache::<T, F>::load_disk::<E>,
            (cache, disk, read),
        ),
{
    lemma_loads_disk(old(cache)@, final(cache)@, old(cache).judge(), disk, read, r);
}

/// A load reads the file at the path and decodes all of its bytes. What cannot be read,
/// cannot be decoded or is of another version gives its error and changes nothing.
/// Otherwise every entry that was decoded is put in or counted as stale.
pub proof fn file_is_loaded<T, F, Fmt, B, R>(
    cache: &mut FileParseCache<T, F>,
    path: &PathBuf,
    format: &Fmt,
    read_file: B,
    read: R,
    r: Result<LoadStats, LoadError<Fmt::Error>>,
) where
    T: Clone + Send + Sync + 'static,
    F: Fingerprint,
    Fmt: Format<T, F::Stamp>,
    B: FnOnce(&PathBuf) -> Result<Vec<u8>, io::Error>,
    R: Fn(&PathBuf) -> Result<F::Reading, io::Error>,

    requires
        old(cache).wf(),
        call_ensures(
            FileParseCache::<T, F>::load::<Fmt>,
            (cache, path, format, read_file, read),
            r,
        ),
    ensures
        final(cache).wf(),
        final(cache).judge() == old(cache).judge(),
        r is Err ==> final(cache)@ == old(cache)@,
        r is Err && r->Err_0 is Io ==> read_file.ensures(
            (path,),
            Err::<Vec<u8>, io::Error>(r->Err_0->Io_0),
        ),
        !(r is Err && r->Err_0 is Io) ==> exists|
            bytes: Vec<u8>,
            slice: &[u8],
            decoded: Result<DiskCache<T, F::Stamp>, Fmt::Error>,
        |
            #[trigger] read_file.ensures((path,), Ok::<Vec<u8>, io::Error>(bytes)) && slice@
                == bytes@ && #[trigger] call_ensures(Fmt::deserialize, (format, slice), decoded)
                && match decoded {
                Err(error) => r == Err::<LoadStats, LoadError<Fmt::Error>>(
                    LoadError::Deserialize(error),
                ),
                Ok(disk) => if disk.version == 1 {
                    r is Ok && exists|fresh: Seq<bool>| #[trigger]
                        takes_in(
                            old(cache)@,
                            final(cache)@,
                            old(cache).judge(),
                            disk.entries@,
                            read,
                            fresh,
                            r->Ok_0,
                        )
                } else {
                    r == Err::<LoadStats, LoadError<Fmt::Error>>(
                        LoadError::VersionMismatch { disk: disk.version, expected: 1 },
                    )
                },
            },
{
    let bytes = choose|bytes: Result<Vec<u8>, io::Error>| #[trigger]
        read_file.ensures((path,), bytes) && loads_bytes(
            old(cache)@,
            final(cache)@,
            old(cache).judge(),
            bytes,
            *format,
            read,
            r,
        );
    match bytes {
        Err(error) => {
            assert(read_file.ensures((path,), Err::<Vec<u8>, io::Error>(error)));
        },
        Ok(content) => {
            let (slice, decoded) = choose|
                slice: &[u8],
                decoded: Result<DiskCache<T, F::Stamp>, Fmt::Error>,
            |
                #![trigger call_ensures(Fmt::deserialize, (format, slice), decoded)]
                slice@ == content@ && call_ensures(Fmt::deserialize, (format, slice), decoded)
                    && match decoded {
                    Err(error) => {
                        &&& final(cache)@ == old(cache)@
                        &&& r == Err::<LoadStats, LoadError<Fmt::Error>>(
                            LoadError::Deserialize(error),
                        )
                    },
                    Ok(disk) => loads_disk(
                        old(cache)@,
                        final(cache)@,
                        old(cache).judge(),
                        disk,
                        read,
                        r,
                    ),
                };
            assert(read_file.ensures((path,), Ok::<Vec<u8>, io::Error>(content)));
            assert(call_ensures(Fmt::deserialize, (format, slice), decoded));
            if let Ok(disk) = decoded {
                lemma_loads_disk(old(cache)@, final(cache)@, old(cache).judge(), disk, read, r);
            }
        },
    }
}

/// No cached file is read unless a cache of version 1 was decoded: `read` need not be
/// callable if the file at the path cannot be read, or if what is decoded of it is of
/// another version.
pub proof fn refused_load_reads_no_file<T, F, Fmt, B, R>(
    cache: &mut FileParseCache<T, F>,
    path: &PathBuf,
    format: &Fmt,
    read_file: B,
    read: R,
) where
    T: Clone + Send + Sync + 'static,
    F: Fingerprint,
    Fmt: Format<T, F::Stamp>,
    B: FnOnce(&PathBuf) -> Result<Vec<u8>, io::Error>,
    R: Fn(&PathBuf) -> Result<F::Reading, io::Error>,

    requires
        old(cache).wf(),
        read_file.requires((path,)),
    ensures
        (forall|bytes: Result<Vec<u8>, io::Error>| #[trigger]
            read_file.ensures((path,), bytes) ==> bytes is Err) ==> call_requires(
            FileParseCache::<T, F>::load::<Fmt>,
            (cache, path, format, read_file, read),
        ),
        (forall|slice: &[u8], disk: DiskCache<T, F::Stamp>| #[trigger]
            call_ensures(
                Fmt::deserialize,
                (format, slice),
                Ok::<DiskCache<T, F::Stamp>, Fmt::Error>(disk),
            ) ==> disk.version != 1) ==> call_requires(
            FileParseCache::<T, F>::load::<Fmt>,
            (cache, path, format, read_file, read),
        ),
        (forall|file: &PathBuf| #[trigger] read.requires((file,))) ==> call_requires(
            FileParseCache::<T, F>::load::<Fmt>,
            (cache, path, format, read_file, read),
        ),
{
}

/// What was saved comes back. A cache is saved, and what the save began with is loaded
/// into an empty cache with room for it; all paths are valid Unicode. Then every entry
/// is counted, nothing turns up that was not saved, and what turns up has the path and
/// clones of the stamp and value it was saved with. A file that still has an equal
/// stamp is cached again, and one that cannot be read or has another is not. If all
/// still have theirs, all are loaded and none is stale.
pub proof fn saved_entries_come_back<T, F, E, R>(
    saved: &mut FileParseCache<T, F>,
    disk: DiskCache<T, F::Stamp>,
    fresh_cache: &mut FileParseCache<T, F>,
    read: R,
    r: Result<LoadStats, LoadError<E>>,
    unchanged: spec_fn(PathKey) -> bool,
) where
    T: Clone + Send + Sync + 'static,
    F: Fingerprint,
    R: Fn(&PathBuf) -> Result<F::Reading, io::Error>,

    requires
        old(saved).wf(),
        call_ensures(FileParseCache::<T, F>::begin_save, (saved,), Some(disk)),
        old(fresh_cache).wf(),
        forall|k: PathKey| !#[trigger] old(fresh_cache)@.store.contents.contains_key(k),
        old(saved)@.store.contents.dom().len() <= old(fresh_cache)@.store.capacity,
        forall|k: PathKey| #[trigger]
            old(saved)@.store.contents.contains_key(k) ==> is_unicode(
                &old(saved)@.store.contents[k].path,
            ),
        call_ensures(FileParseCache::<T, F>::load_disk::<E>, (fresh_cache, disk, read), r),
        <F::Stamp as PartialEqSpec>::obeys_eq_spec(),
        forall|k: PathKey, reading: Result<F::Reading, io::Error>|
            #![trigger unchanged(k), read.ensures((&old(saved)@.store.contents[k].path,), reading)]
            unchanged(k) && old(saved)@.store.contents.contains_key(k) && read.ensures(
                (&old(saved)@.store.contents[k].path,),
                reading,
            ) ==> reading is Ok,
        forall|k: PathKey, reading: Result<F::Reading, io::Error>, stamp: F::Stamp, copy: F::Stamp|
            #![trigger read.ensures((&old(saved)@.store.contents[k].path,), reading), call_ensures(F::stamp, (&old(fresh_cache).judge(), &reading->Ok_0), stamp), cloned(old(saved)@.store.contents[k].entry.stamp, copy)]
            old(saved)@.store.contents.contains_key(k) && read.ensures(
                (&old(saved)@.store.contents[k].path,),
                reading,
            ) && reading is Ok && call_ensures(
                F::stamp,
                (&old(fresh_cache).judge(), &reading->Ok_0),
                stamp,
            ) && cloned(old(saved)@.store.contents[k].entry.stamp, copy) ==> (stamp.eq_spec(&copy)
                <==> unchanged(k)),
    ensures
        r is Ok,
        r->Ok_0.loaded + r->Ok_0.stale == old(saved)@.store.contents.dom().len(),
        final(fresh_cache)@.dirty == old(fresh_cache)@.dirty,
        forall|k: PathKey| #[trigger]
            final(fresh_cache)@.store.contents.contains_key(k) <==> old(
                saved)@.store.contents.contains_key(k) && unchanged(k),
        forall|k: PathKey| #[trigger]
            final(fresh_cache)@.store.contents.contains_key(k) ==> {
                let was = old(saved)@.store.contents[k];
                let now = final(fresh_cache)@.store.contents[k];
                &&& now.path == was.path
                &&& cloned(was.entry.stamp, now.entry.stamp)
                &&& cloned(was.entry.value, now.entry.value)
            },
        (forall|k: PathKey| #[trigger] old(saved)@.store.contents.contains_key(k) ==> unchanged(k))
            ==> r->Ok_0.stale == 0,
{
    let before = old(fresh_cache)@;
    let after = final(fresh_cache)@;
    let store = old(saved)@.store;
    let judge = old(fresh_cache).judge();
    let entries = disk.entries@;
    before.store.lemma_len();
    if before.store.order.len() > 0 {
        assert(before.store.order.contains(before.store.order[0]));
    }
    assert(before.store =~= StoreView::empty(before.store.capacity));
    let stats = r->Ok_0;
    let fresh = choose|fresh: Seq<bool>| #[trigger]
        loads_marked(before, after, judge, entries, read, fresh, stats);
    load_gives_back_what_was_saved(store, disk, before, after, judge, read, fresh, stats);
    let items = choose|items: Seq<Stored<T, F::Stamp>>| #[trigger]
        store.lists(items) && items.len() == disk.entries.len() && forall|i: int|
            0 <= i < items.len() ==> written(#[trigger] items[i], disk.entries@[i]);
    assert forall|i: int| 0 <= i < entries.len() implies {
        let key = entry_key(#[trigger] entries[i]);
        &&& key == items[i].key()
        &&& store.contents.contains_key(key)
        &&& fresh[i] == unchanged(key)
    } by {
        let key = items[i].key();
        assert(written(items[i], entries[i]));
        assert(store.contents.contains_key(key) && store.contents[key] == items[i]);
        assert(is_unicode(&store.contents[key].path));
        assert(entries[i].file() == items[i].path);
        assert(rechecked(judge, read, entries[i], fresh[i]));
        let reading = choose|reading: Result<F::Reading, io::Error>| #[trigger]
            read.ensures((&entries[i].file(),), reading) && crate::persist::up_to_date(
                judge,
                entries[i],
                reading,
                fresh[i],
            );
        assert(read.ensures((&store.contents[key].path,), reading));
        assert(cloned(store.contents[key].entry.stamp, entries[i].stamp));
        if unchanged(key) {
            assert(reading is Ok);
        }
        if let Ok(found) = reading {
            let stamp = choose|stamp: F::Stamp| #[trigger]
                call_ensures(F::stamp, (&judge, &found), stamp) && crate::cache::judged(
                    stamp,
                    entries[i].stamp,
                    fresh[i],
                );
            assert(call_ensures(F::stamp, (&judge, &reading->Ok_0), stamp));
            assert(stamp.eq_spec(&entries[i].stamp) <==> unchanged(key));
        }
    }
    assert forall|k: PathKey| #[trigger]
        after.store.contents.contains_key(k) <==> store.contents.contains_key(k) && unchanged(k) by {
        if store.contents.contains_key(k) {
            let i = choose|i: int| 0 <= i < items.len() && (#[trigger] items[i]).key() == k;
            assert(entry_key(entries[i]) == k);
            assert(fresh[i] <==> after.store.contents.contains_key(entry_key(entries[i])));
        }
    }
    if forall|k: PathKey| #[trigger] store.contents.contains_key(k) ==> unchanged(k) {
        assert forall|i: int| 0 <= i < fresh.len() implies fresh[i] by {
            assert(store.contents.contains_key(entry_key(entries[i])));
        }
    }
}

// ---------------------------------------------------------------------------
// Proofs
// ---------------------------------------------------------------------------

/// A snapshot tells of every entry once.
proof fn lemma_snapshot<T: Clone, S: Clone>(store: StoreView<T, S>, disk: DiskCache<T, S>)
    requires
        snapshot(store, disk),
    ensures
        tells_all(disk, store.contents),
        disk.entries.len() == store.contents.dom().len(),
{
    let items = choose|items: Seq<Stored<T, S>>| #[trigger]
        store.lists(items) && items.len() == disk.entries.len() && forall|i: int|
            0 <= i < items.len() ==> written(#[trigger] items[i], disk.entries@[i]);
    let keys = Seq::new(items.len(), |i: int| items[i].key());
    assert forall|i: int, j: int| 0 <= i < keys.len() && 0 <= j < keys.len() && i != j implies keys[i]
        != keys[j] by {
        if i < j {
            assert(items[i].key() != items[j].key());
        } else {
            assert(items[j].key() != items[i].key());
        }
    }
    assert forall|k: PathKey| #[trigger] store.contents.contains_key(k) <==> keys.contains(k) by {
        if store.contents.contains_key(k) {
            let i = choose|i: int| 0 <= i < items.len() && (#[trigger] items[i]).key() == k;
            assert(keys[i] == k);
        }
        if keys.contains(k) {
            let i = choose|i: int| 0 <= i < keys.len() && keys[i] == k;
            assert(store.contents.contains_key(items[i].key()));
        }
    }
    assert forall|i: int| 0 <= i < keys.len() implies tells(
        #[trigger] disk.entries@[i],
        store.contents[keys[i]],
    ) by {
        assert(written(items[i], disk.entries@[i]));
        assert(store.contents[items[i].key()] == items[i]);
    }
    assert(tells_of(disk, store.contents, keys));
}

/// What a save answers, by what was made and written.
proof fn lemma_saved_as<E, M, W>(
    bytes: Result<Vec<u8>, E>,
    path: PathBuf,
    make_dirs: M,
    write_file: W,
    r: Result<(), SaveError<E>>,
) where
    M: FnOnce(&PathBuf) -> Result<(), io::Error>,
    W: FnOnce(&PathBuf, &Vec<u8>) -> Result<(), io::Error>,

    requires
        saved_as(bytes, path, make_dirs, write_file, r),
    ensures
        bytes is Err ==> r == Err::<(), SaveError<E>>(SaveError::Serialize(bytes->Err_0)),
        r is Ok ==> {
            &&& bytes is Ok
            &&& write_file.ensures((&path, &bytes->Ok_0), Ok::<(), io::Error>(()))
            &&& parent_of(&path) is Some ==> make_dirs.ensures(
                (&parent_of(&path)->0,),
                Ok::<(), io::Error>(()),
            )
        },
        bytes is Ok && r is Err ==> r->Err_0 is Io && {
            let error = r->Err_0->Io_0;
            ||| parent_of(&path) is Some && make_dirs.ensures(
                (&parent_of(&path)->0,),
                Err::<(), io::Error>(error),
            )
            ||| {
                &&& write_file.ensures((&path, &bytes->Ok_0), Err::<(), io::Error>(error))
                &&& parent_of(&path) is Some ==> make_dirs.ensures(
                    (&parent_of(&path)->0,),
                    Ok::<(), io::Error>(()),
                )
            }
        },
{
    if let Ok(content) = bytes {
        assert(placed_at(path, content, make_dirs, write_file, r));
        if stored_at(path, content, write_file, r) {
            let wrote = choose|wrote: Result<(), io::Error>| #[trigger]
                write_file.ensures((&path, &content), wrote) && match wrote {
                    Ok(_) => r == Ok::<(), SaveError<E>>(()),
                    Err(error) => r == Err::<(), SaveError<E>>(SaveError::Io(error)),
                };
            assert(write_file.ensures((&path, &content), wrote));
            if let Ok(done) = wrote {
                assert(done == ());
            }
        }
        if let Some(parent) = parent_of(&path) {
            let made = choose|made: Result<(), io::Error>| #[trigger]
                make_dirs.ensures((&parent,), made) && match made {
                    Ok(_) => stored_at(path, content, write_file, r),
                    Err(error) => r == Err::<(), SaveError<E>>(SaveError::Io(error)),
                };
            assert(make_dirs.ensures((&parent,), made));
            if let Ok(done) = made {
                assert(done == ());
            }
        }
    }
}

/// Counting the marks that are set.
proof fn lemma_count(fresh: Seq<bool>)
    ensures
        count_fresh(fresh) == number_set(fresh),
        count_fresh(fresh) <= fresh.len(),
    decreases fresh.len(),
{
    reveal(Seq::filter);
    if fresh.len() > 0 {
        lemma_count(fresh.drop_last());
    }
}

/// The states that a store goes through when entries are put in.
proof fn lemma_leads<T, S>(
    before: StoreView<T, S>,
    entries: Seq<DiskEntry<T, S>>,
    fresh: Seq<bool>,
) -> (states: Seq<StoreView<T, S>>)
    requires
        before.wf(),
        fresh.len() == entries.len(),
    ensures
        leads(states, before, with_fresh(before, entries, fresh), entries, fresh),
    decreases entries.len(),
{
    let after = with_fresh(before, entries, fresh);
    if entries.len() == 0 {
        seq![before]
    } else {
        let fewer = entries.drop_last();
        let marked = fresh.drop_last();
        let last = entries.len() - 1;
        let some = lemma_leads(before, fewer, marked);
        let mid = with_fresh(before, fewer, marked);
        lemma_with_fresh_wf(before, fewer, marked);
        lemma_with_fresh_wf(before, entries, fresh);
        lemma_puts(mid, entries[last].item());
        assert(entries[last].item() == put_for(entries[last]));
        let states = some.push(after);
        assert forall|i: int| 0 <= i < states.len() implies (#[trigger] states[i]).wf() by {
            if i < some.len() {
                assert(states[i] == some[i]);
            }
        }
        assert forall|i: int| 0 <= i < entries.len() implies steps(
            states[i],
            states[i + 1],
            #[trigger] entries[i],
            fresh[i],
        ) by {
            if i < last {
                assert(fewer[i] == entries[i] && marked[i] == fresh[i]);
                assert(states[i] == some[i] && states[i + 1] == some[i + 1]);
            } else {
                assert(states[i] == some[last] && some[last] == mid);
            }
        }
        assert(states[0] == some[0]);
        states
    }
}

/// Loading entries is what [`takes_in`] says.
proof fn lemma_takes_in<T, F, R>(
    before: CacheView<T, F::Stamp>,
    after: CacheView<T, F::Stamp>,
    fingerprint: F,
    entries: Seq<DiskEntry<T, F::Stamp>>,
    read: R,
    stats: LoadStats,
) where F: Fingerprint, R: Fn(&PathBuf) -> Result<F::Reading, io::Error>
    requires
        before.store.wf(),
        loads_entries(before, after, fingerprint, entries, read, stats),
    ensures
        exists|fresh: Seq<bool>| #[trigger]
            takes_in(before, after, fingerprint, entries, read, fresh, stats),
{
    let fresh = choose|fresh: Seq<bool>| #[trigger]
        loads_marked(before, after, fingerprint, entries, read, fresh, stats);
    lemma_count(fresh);
    let states = lemma_leads(before.store, entries, fresh);
    assert(leads(states, before.store, after.store, entries, fresh));
    assert forall|i: int| 0 <= i < entries.len() implies finds_out(
        fingerprint,
        #[trigger] entries[i],
        read,
        fresh[i],
    ) by {
        assert(rechecked(fingerprint, read, entries[i], fresh[i]));
        let reading = choose|reading: Result<F::Reading, io::Error>| #[trigger]
            read.ensures((&entries[i].file(),), reading) && crate::persist::up_to_date(
                fingerprint,
                entries[i],
                reading,
                fresh[i],
            );
        assert(read.ensures((&text_path(entries[i].path@),), reading));
        assert(finds(fingerprint, entries[i], reading, fresh[i]));
    }
    assert(takes_in(before, after, fingerprint, entries, read, fresh, stats));
}

/// Loading a cache on disk, by its version.
proof fn lemma_loads_disk<T, F, E, R>(
    before: CacheView<T, F::Stamp>,
    after: CacheView<T, F::Stamp>,
    fingerprint: F,
    disk: DiskCache<T, F::Stamp>,
    read: R,
    r: Result<LoadStats, LoadError<E>>,
) where F: Fingerprint, R: Fn(&PathBuf) -> Result<F::Reading, io::Error>
    requires
        before.store.wf(),
        loads_disk(before, after, fingerprint, disk, read, r),
    ensures
        disk.version == 1 ==> r is Ok && exists|fresh: Seq<bool>| #[trigger]
            takes_in(before, after, fingerprint, disk.entries@, read, fresh, r->Ok_0),
        disk.version != 1 ==> after == before && r == Err::<LoadStats, LoadError<E>>(
            LoadError::VersionMismatch { disk: disk.version, expected: 1 },
        ),
{
    if let Ok(stats) = r {
        lemma_takes_in(before, after, fingerprint, disk.entries@, read, stats);
    }
}

} // verus!
