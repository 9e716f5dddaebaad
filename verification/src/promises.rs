//! What the library promises, each promise written out in full: what a call answers
//! and what the cache holds afterwards, in terms of the entries by path, their order
//! of use, the capacity, the state of saving, and the closures handed in.

use std::io;
use std::path::PathBuf;
use vstd::prelude::*;
use vstd::std_specs::cmp::PartialEqSpec;

use crate::cache::FileParseCache;
use crate::cache_laws::{
    get_read_answers, lookup_goes_by_the_stamp, purge_drops_the_listed,
    purge_if_drops_the_selected, puts, remembering_puts_it_in,
};
use crate::disk_laws::{
    all_entries_are_loaded, disk_is_loaded, file_is_loaded, finds, finds_out, leads, marks,
    number_set, one_entry_is_loaded, put_for, save_begins_with_all_that_is_cached,
    save_writes_all_that_is_cached, steps, takes_in, tells, tells_all, tells_of,
};
use crate::errors::{LoadError, SaveError};
use crate::fingerprint::Fingerprint;
use crate::paths::{parent_of, path_key, path_text, text_path, PathKey};
use crate::persist::{DiskCache, DiskEntry, Format, LoadStats};
use crate::store::{Stored, StoreView};

verus! {

// ---------------------------------------------------------------------------
// The cache
// ---------------------------------------------------------------------------

/// Of a file that was read, in every cache: if something is cached for its path and
/// `==` finds the stamp equal, the answer is a clone of that, and the entries, the
/// capacity and the state of saving are as before. Otherwise the answer is an outcome
/// of the parser. If that is a value, a clone of it is cached for the path with the
/// new stamp, and the cache has to be saved, unless it is made for no entries. If it
/// is an error, the entries and the state of saving are as before.
pub proof fn a_file_is_served_or_parsed<T, F, E, P>(
    cache: &mut FileParseCache<T, F>,
    path: &PathBuf,
    read: F::Reading,
    parser: P,
    r: Result<T, E>,
) where
    T: Clone + Send + Sync + 'static,
    F: Fingerprint,
    E: From<io::Error> + Send + Sync + 'static,
    P: FnOnce(&PathBuf) -> Result<T, E>,

    requires
        old(cache).wf(),
        call_ensures(
            FileParseCache::<T, F>::get_read::<E>,
            (cache, path, Ok::<F::Reading, io::Error>(read), parser),
            r,
        ),
    ensures
        final(cache)@.store.capacity == old(cache)@.store.capacity,
        exists|stamp: F::Stamp|
            #![trigger call_ensures(F::stamp, (&old(cache).judge(), &read), stamp)]
            call_ensures(F::stamp, (&old(cache).judge(), &read), stamp) && ({
                let cached = old(cache)@.store.contents[path_key(path)].entry;
                let now = final(cache)@.store.contents[path_key(path)];
                ||| {
                    &&& old(cache)@.store.contents.contains_key(path_key(path))
                    &&& call_ensures(<F::Stamp as PartialEq>::eq, (&cached.stamp, &stamp), true)
                    &&& r is Ok
                    &&& cloned(cached.value, r->Ok_0)
                    &&& final(cache)@.store.contents == old(cache)@.store.contents
                    &&& final(cache)@.dirty == old(cache)@.dirty
                }
                ||| {
                    &&& old(cache)@.store.contents.contains_key(path_key(path)) ==> call_ensures(
                        <F::Stamp as PartialEq>::eq,
                        (&cached.stamp, &stamp),
                        false,
                    )
                    &&& parser.ensures((path,), r)
                    &&& r is Ok && old(cache)@.store.capacity > 0 ==> {
                        &&& final(cache)@.store.contents.contains_key(path_key(path))
                        &&& now.path == *path
                        &&& now.entry.stamp == stamp
                        &&& cloned(r->Ok_0, now.entry.value)
                        &&& final(cache)@.dirty
                    }
                    &&& r is Err || old(cache)@.store.capacity == 0 ==> {
                        &&& final(cache)@.store.contents == old(cache)@.store.contents
                        &&& final(cache)@.dirty == old(cache)@.dirty
                    }
                }
            }),
{
    get_read_answers(cache, path, Ok::<F::Reading, io::Error>(read), parser, r);
}

/// Of a file that could not be read: the answer is the error of reading it, converted,
/// and nothing changes.
pub proof fn an_unreadable_file_is_an_error<T, F, E, P>(
    cache: &mut FileParseCache<T, F>,
    path: &PathBuf,
    error: io::Error,
    parser: P,
    r: Result<T, E>,
) where
    T: Clone + Send + Sync + 'static,
    F: Fingerprint,
    E: From<io::Error> + Send + Sync + 'static,
    P: FnOnce(&PathBuf) -> Result<T, E>,

    requires
        old(cache).wf(),
        call_ensures(
            FileParseCache::<T, F>::get_read::<E>,
            (cache, path, Err::<F::Reading, io::Error>(error), parser),
            r,
        ),
    ensures
        r is Err,
        call_ensures(<E as From<io::Error>>::from, (error,), r->Err_0),
        final(cache)@ == old(cache)@,
        final(cache).judge() == old(cache).judge(),
{
    get_read_answers(cache, path, Err::<F::Reading, io::Error>(error), parser, r);
}

/// What `get` does to the other files: one that was cached stays as it is, unless a
/// new file had to be cached where there was no room and it was the least recently
/// used; and none turns up.
pub proof fn get_leaves_the_other_files<T, F, E, P>(
    cache: &mut FileParseCache<T, F>,
    path: &PathBuf,
    reading: Result<F::Reading, io::Error>,
    parser: P,
    r: Result<T, E>,
    other: PathKey,
) where
    T: Clone + Send + Sync + 'static,
    F: Fingerprint,
    E: From<io::Error> + Send + Sync + 'static,
    P: FnOnce(&PathBuf) -> Result<T, E>,

    requires
        old(cache).wf(),
        other != path_key(path),
        call_ensures(
            FileParseCache::<T, F>::get_read::<E>,
            (cache, path, reading, parser),
            r,
        ),
    ensures
        final(cache)@.store.contents.contains_key(other) ==> old(
            cache)@.store.contents.contains_key(other) && final(cache)@.store.contents[other]
            == old(cache)@.store.contents[other],
        old(cache)@.store.contents.contains_key(other) && (r is Err || old(
            cache)@.store.contents.contains_key(path_key(path)) || old(
            cache)@.store.contents.dom().len() < old(cache)@.store.capacity || other != old(
            cache)@.store.order[0]) ==> final(cache)@.store.contents.contains_key(other),
        old(cache)@.store.contents.contains_key(other) && !final(
            cache)@.store.contents.contains_key(other) ==> final(cache)@.store.contents.dom().len()
            == old(cache)@.store.capacity,
{
    get_read_answers(cache, path, reading, parser, r);
    let before = old(cache)@.store;
    let after = final(cache)@.store;
    before.lemma_len();
    after.lemma_len();
    if before.contents.contains_key(other) && !after.contents.contains_key(other) {
        let key = path_key(path);
        assert(before.contents.dom().len() >= before.capacity);
        assert(after.contents.dom() =~= before.contents.dom().remove(other).insert(key)) by {
            assert(other == before.order[0]);
            assert forall|k: PathKey| #[trigger]
                after.contents.dom().contains(k) <==> before.contents.dom().remove(other).insert(
                    key,
                ).contains(k) by {
                assert(after.contents.contains_key(k) == after.contents.dom().contains(k));
            }
        }
    }
}

/// The file that `get` was asked for is the last to leave, if it is cached afterwards.
pub proof fn get_makes_its_file_the_last_to_leave<T, F, E, P>(
    cache: &mut FileParseCache<T, F>,
    path: &PathBuf,
    read: F::Reading,
    parser: P,
    r: Result<T, E>,
) where
    T: Clone + Send + Sync + 'static,
    F: Fingerprint,
    E: From<io::Error> + Send + Sync + 'static,
    P: FnOnce(&PathBuf) -> Result<T, E>,

    requires
        old(cache).wf(),
        call_ensures(
            FileParseCache::<T, F>::get_read::<E>,
            (cache, path, Ok::<F::Reading, io::Error>(read), parser),
            r,
        ),
        final(cache)@.store.contents.contains_key(path_key(path)),
    ensures
        final(cache)@.store.order.len() > 0,
        final(cache)@.store.order.last() == path_key(path),
{
    get_read_answers(cache, path, Ok::<F::Reading, io::Error>(read), parser, r);
    if old(cache)@.store.capacity == 0 {
        old(cache)@.store.lemma_len();
        final(cache)@.store.lemma_len();
        assert(final(cache)@.store.order.contains(path_key(path)));
    }
}

/// A lookup answers a clone of what is cached for the path if `==` finds the stamp
/// equal, and `None` otherwise. The entries, the capacity and the state of saving are
/// as before.
pub proof fn a_lookup_goes_by_path_and_stamp<T, F>(
    cache: &mut FileParseCache<T, F>,
    path: &PathBuf,
    stamp: &F::Stamp,
    r: Option<T>,
) where T: Clone + Send + Sync + 'static, F: Fingerprint
    requires
        old(cache).wf(),
        call_ensures(FileParseCache::<T, F>::lookup, (cache, path, stamp), r),
    ensures
        final(cache)@.store.contents == old(cache)@.store.contents,
        final(cache)@.store.capacity == old(cache)@.store.capacity,
        final(cache)@.dirty == old(cache)@.dirty,
        final(cache).judge() == old(cache).judge(),
        r is Some ==> old(cache)@.store.contents.contains_key(path_key(path)),
        old(cache)@.store.contents.contains_key(path_key(path)) ==> call_ensures(
            <F::Stamp as PartialEq>::eq,
            (&old(cache)@.store.contents[path_key(path)].entry.stamp, stamp),
            r is Some,
        ),
        r is Some ==> cloned(old(cache)@.store.contents[path_key(path)].entry.value, r->0),
        old(cache)@.store.contents.contains_key(path_key(path)) ==> final(
            cache)@.store.order.last() == path_key(path),
{
    lookup_goes_by_the_stamp(cache, path, stamp, r);
}

/// What is remembered is cached: path, stamp, and a clone of the value. Everything else
/// stays as it is, but for the least recently used entry where a new one is cached and
/// there is no room.
pub proof fn what_is_remembered_is_cached<T, F>(
    cache: &mut FileParseCache<T, F>,
    path: &PathBuf,
    stamp: F::Stamp,
    value: &T,
    r: (),
) where T: Clone + Send + Sync + 'static, F: Fingerprint
    requires
        old(cache).wf(),
        call_ensures(FileParseCache::<T, F>::remember, (cache, path, stamp, value), r),
    ensures
        final(cache)@.store.capacity == old(cache)@.store.capacity,
        final(cache).judge() == old(cache).judge(),
        old(cache)@.store.capacity == 0 ==> final(cache)@ == old(cache)@,
        old(cache)@.store.capacity > 0 ==> {
            let now = final(cache)@.store.contents[path_key(path)];
            &&& final(cache)@.store.contents.contains_key(path_key(path))
            &&& now.path == *path
            &&& now.entry.stamp == stamp
            &&& cloned(*value, now.entry.value)
            &&& final(cache)@.dirty
            &&& final(cache)@.store.order.last() == path_key(path)
        },
        old(cache)@.store.capacity > 0 ==> forall|k: PathKey|
            k != path_key(path) ==> (#[trigger] final(cache)@.store.contents.contains_key(k)
                <==> old(cache)@.store.contents.contains_key(k) && (old(
                cache)@.store.contents.contains_key(path_key(path)) || old(
                cache)@.store.contents.dom().len() < old(cache)@.store.capacity || k != old(
                cache)@.store.order[0])),
        forall|k: PathKey|
            k != path_key(path) && #[trigger] final(cache)@.store.contents.contains_key(k)
                ==> final(cache)@.store.contents[k] == old(cache)@.store.contents[k],
{
    remembering_puts_it_in(cache, path, stamp, value, r);
    if old(cache)@.store.capacity == 0 {
        assert(final(cache)@ =~= old(cache)@);
    }
}

/// A purge drops the entries whose paths are listed. The others stay as they are, with
/// all the room there was. The cache has to be saved if it had to be before or an entry
/// was dropped.
pub proof fn what_is_purged_is_gone<T, F>(
    cache: &mut FileParseCache<T, F>,
    list: &Vec<PathBuf>,
    r: (),
) where T: Clone + Send + Sync + 'static, F: Fingerprint
    requires
        old(cache).wf(),
        call_ensures(FileParseCache::<T, F>::purge, (cache, list), r),
    ensures
        final(cache)@.store.capacity == old(cache)@.store.capacity,
        forall|k: PathKey| #[trigger]
            final(cache)@.store.contents.contains_key(k) <==> old(
                cache)@.store.contents.contains_key(k) && forall|i: int|
                0 <= i < list.len() ==> path_key(&#[trigger] list@[i]) != k,
        forall|k: PathKey| #[trigger]
            final(cache)@.store.contents.contains_key(k) ==> final(cache)@.store.contents[k]
                == old(cache)@.store.contents[k],
        final(cache)@.dirty <==> old(cache)@.dirty || final(cache)@.store.contents != old(
            cache)@.store.contents,
{
    purge_drops_the_listed(cache, list, r);
    let before = old(cache)@.store.contents;
    let after = final(cache)@.store.contents;
    assert forall|k: PathKey| #[trigger] before.contains_key(k) implies path_key(&before[k].path)
        == k by {}
    if final(cache)@.dirty && !old(cache)@.dirty {
        let k = choose|k: PathKey| #[trigger]
            before.contains_key(k) && exists|i: int|
                0 <= i < list.len() && path_key(&#[trigger] list@[i]) == path_key(&before[k].path);
        assert(!after.contains_key(k));
        assert(before.dom().contains(k) && !after.dom().contains(k));
    }
    if !final(cache)@.dirty {
        assert forall|k: PathKey| #[trigger] before.dom().contains(k) <==> after.dom().contains(k) by {
            assert(before.contains_key(k) == before.dom().contains(k));
            assert(after.contains_key(k) == after.dom().contains(k));
        }
        assert(after =~= before);
    }
}

/// A purge by a predicate that is a function of the path drops the entries whose paths
/// satisfy it, however many there are. The others stay as they are, with all the room
/// there was. The cache has to be saved if it had to be before or an entry was dropped.
pub proof fn what_the_predicate_selects_is_gone<T, F, P>(
    cache: &mut FileParseCache<T, F>,
    predicate: P,
    chosen: spec_fn(PathBuf) -> bool,
    r: (),
) where T: Clone + Send + Sync + 'static, F: Fingerprint, P: Fn(&PathBuf) -> bool
    requires
        old(cache).wf(),
        call_ensures(FileParseCache::<T, F>::purge_if, (cache, predicate), r),
        forall|path: &PathBuf, answer: bool| #[trigger]
            predicate.ensures((path,), answer) ==> answer == chosen(*path),
    ensures
        final(cache)@.store.capacity == old(cache)@.store.capacity,
        forall|k: PathKey| #[trigger]
            final(cache)@.store.contents.contains_key(k) <==> old(
                cache)@.store.contents.contains_key(k) && !chosen(
                old(cache)@.store.contents[k].path,
            ),
        forall|k: PathKey| #[trigger]
            final(cache)@.store.contents.contains_key(k) ==> final(cache)@.store.contents[k]
                == old(cache)@.store.contents[k],
        final(cache)@.dirty <==> old(cache)@.dirty || exists|k: PathKey| #[trigger]
            old(cache)@.store.contents.contains_key(k) && chosen(
                old(cache)@.store.contents[k].path,
            ),
{
    purge_if_drops_the_selected(cache, predicate, chosen, r);
}

// ---------------------------------------------------------------------------
// Saving
// ---------------------------------------------------------------------------

/// What a save begins with has version 1 and tells of every entry, and of nothing else:
/// the text of its path, and clones of its stamp and value. It begins with nothing if
/// nothing has changed. The cache keeps what it holds.
pub proof fn a_save_begins_with_every_entry<T, F>(
    cache: &mut FileParseCache<T, F>,
    r: Option<DiskCache<T, F::Stamp>>,
) where T: Clone + Send + Sync + 'static, F: Fingerprint
    requires
        old(cache).wf(),
        call_ensures(FileParseCache::<T, F>::begin_save, (cache,), r),
    ensures
        r is Some <==> old(cache)@.dirty,
        final(cache)@.store == old(cache)@.store,
        !final(cache)@.dirty,
        r is Some ==> {
            &&& r->0.version == 1
            &&& r->0.entries.len() == old(cache)@.store.contents.dom().len()
        },
        r is Some ==> forall|k: PathKey| #[trigger]
            old(cache)@.store.contents.contains_key(k) ==> exists|i: int|
                0 <= i < r->0.entries.len() && (#[trigger] r->0.entries@[i]).path@ == path_text(
                    &old(cache)@.store.contents[k].path,
                ) && cloned(old(cache)@.store.contents[k].entry.stamp, r->0.entries@[i].stamp)
                    && cloned(old(cache)@.store.contents[k].entry.value, r->0.entries@[i].value),
        r is Some ==> exists|keys: Seq<PathKey>| #[trigger]
            keys.no_duplicates() && keys.len() == r->0.entries.len() && forall|i: int|
                0 <= i < keys.len() ==> old(cache)@.store.contents.contains_key(#[trigger] keys[i])
                    && r->0.entries@[i].path@ == path_text(
                    &old(cache)@.store.contents[keys[i]].path,
                ) && cloned(
                    old(cache)@.store.contents[keys[i]].entry.stamp,
                    r->0.entries@[i].stamp,
                ) && cloned(
                    old(cache)@.store.contents[keys[i]].entry.value,
                    r->0.entries@[i].value,
                ),
{
    save_begins_with_all_that_is_cached(cache, r);
    if let Some(disk) = r {
        lemma_tells(disk, old(cache)@.store.contents);
    }
}

/// A save that answers `Ok`, of a cache that had changed, has written to its path the
/// bytes that the format made of every entry. The cache is clean then. If writing
/// fails, whatever the bytes, the save does, and the cache has to be saved again.
pub proof fn a_save_writes_every_entry<T, F, Fmt, M, W>(
    cache: &mut FileParseCache<T, F>,
    path: &PathBuf,
    format: &Fmt,
    make_dirs: M,
    write_file: W,
    r: Result<(), SaveError<Fmt::Error>>,
) where
    T: Clone + Send + Sync + 'static,
    F: Fingerprint,
    Fmt: Format<T, F::Stamp>,
    M: FnOnce(&PathBuf) -> Result<(), io::Error>,
    W: FnOnce(&PathBuf, &Vec<u8>) -> Result<(), io::Error>,

    requires
        old(cache).wf(),
        old(cache)@.dirty,
        call_ensures(
            FileParseCache::<T, F>::save::<Fmt>,
            (cache, path, format, make_dirs, write_file),
            r,
        ),
    ensures
        final(cache)@.store == old(cache)@.store,
        final(cache)@.dirty <==> r is Err,
        r is Ok ==> exists|disk: DiskCache<T, F::Stamp>, bytes: Vec<u8>|
            #![trigger call_ensures(Fmt::serialize, (format, &disk), Ok::<Vec<u8>, Fmt::Error>(bytes))]
            {
                &&& call_ensures(
                    Fmt::serialize,
                    (format, &disk),
                    Ok::<Vec<u8>, Fmt::Error>(bytes),
                )
                &&& write_file.ensures((path, &bytes), Ok::<(), io::Error>(()))
                &&& disk.version == 1
                &&& disk.entries.len() == old(cache)@.store.contents.dom().len()
                &&& forall|k: PathKey| #[trigger]
                    old(cache)@.store.contents.contains_key(k) ==> exists|i: int|
                        0 <= i < disk.entries.len() && (#[trigger] disk.entries@[i]).path@
                            == path_text(&old(cache)@.store.contents[k].path) && cloned(
                            old(cache)@.store.contents[k].entry.stamp,
                            disk.entries@[i].stamp,
                        ) && cloned(
                            old(cache)@.store.contents[k].entry.value,
                            disk.entries@[i].value,
                        )
            },
        r is Ok && parent_of(path) is Some ==> make_dirs.ensures(
            (&parent_of(path)->0,),
            Ok::<(), io::Error>(()),
        ),
        (forall|bytes: &Vec<u8>| !#[trigger] write_file.ensures(
            (path, bytes),
            Ok::<(), io::Error>(()),
        )) ==> r is Err,
        parent_of(path) is Some && !make_dirs.ensures(
            (&parent_of(path)->0,),
            Ok::<(), io::Error>(()),
        ) ==> r is Err,
{
    save_writes_all_that_is_cached(cache, path, format, make_dirs, write_file, r);
    if r is Ok {
        let (disk, bytes) = choose|disk: DiskCache<T, F::Stamp>, bytes: Vec<u8>|
            tells_all(disk, old(cache)@.store.contents) && #[trigger] call_ensures(
                Fmt::serialize,
                (format, &disk),
                Ok::<Vec<u8>, Fmt::Error>(bytes),
            ) && write_file.ensures((path, &bytes), Ok::<(), io::Error>(())) && (parent_of(
                path,
            ) is Some ==> make_dirs.ensures(
                (&parent_of(path)->0,),
                Ok::<(), io::Error>(()),
            ));
        lemma_tells(disk, old(cache)@.store.contents);
        assert(call_ensures(Fmt::serialize, (format, &disk), Ok::<Vec<u8>, Fmt::Error>(bytes)));
    }
}

/// Every entry is told of once.
proof fn lemma_tells<T: Clone, S: Clone>(
    disk: DiskCache<T, S>,
    contents: Map<PathKey, Stored<T, S>>,
)
    requires
        tells_all(disk, contents),
    ensures
        disk.version == 1,
        contents.dom().finite(),
        disk.entries.len() == contents.dom().len(),
        forall|k: PathKey| #[trigger]
            contents.contains_key(k) ==> exists|i: int|
                0 <= i < disk.entries.len() && (#[trigger] disk.entries@[i]).path@ == path_text(
                    &contents[k].path,
                ) && cloned(contents[k].entry.stamp, disk.entries@[i].stamp) && cloned(
                    contents[k].entry.value,
                    disk.entries@[i].value,
                ),
        exists|keys: Seq<PathKey>| #[trigger]
            keys.no_duplicates() && keys.len() == disk.entries.len() && forall|i: int|
                0 <= i < keys.len() ==> contents.contains_key(#[trigger] keys[i])
                    && disk.entries@[i].path@ == path_text(&contents[keys[i]].path) && cloned(
                    contents[keys[i]].entry.stamp,
                    disk.entries@[i].stamp,
                ) && cloned(contents[keys[i]].entry.value, disk.entries@[i].value),
{
    let keys = choose|keys: Seq<PathKey>| #[trigger] tells_of(disk, contents, keys);
    keys.unique_seq_to_set();
    assert(contents.dom() =~= keys.to_set()) by {
        assert forall|k: PathKey| #[trigger] contents.dom().contains(k) <==> keys.to_set().contains(
            k,
        ) by {
            assert(contents.contains_key(k) <==> keys.contains(k));
        }
    }
    assert forall|k: PathKey| #[trigger] contents.contains_key(k) implies exists|i: int|
        0 <= i < disk.entries.len() && (#[trigger] disk.entries@[i]).path@ == path_text(
            &contents[k].path,
        ) && cloned(contents[k].entry.stamp, disk.entries@[i].stamp) && cloned(
            contents[k].entry.value,
            disk.entries@[i].value,
        ) by {
        assert(keys.contains(k));
        let i = choose|i: int| 0 <= i < keys.len() && keys[i] == k;
        assert(tells(disk.entries@[i], contents[keys[i]]));
    }
    assert forall|i: int| 0 <= i < keys.len() implies contents.contains_key(#[trigger] keys[i])
        && disk.entries@[i].path@ == path_text(&contents[keys[i]].path) && cloned(
        contents[keys[i]].entry.stamp,
        disk.entries@[i].stamp,
    ) && cloned(contents[keys[i]].entry.value, disk.entries@[i].value) by {
        assert(tells(disk.entries@[i], contents[keys[i]]));
        assert(keys.contains(keys[i]));
    }
    assert(keys.no_duplicates());
}

// ---------------------------------------------------------------------------
// Loading
// ---------------------------------------------------------------------------

/// One entry is cached if its file could be read and `==` finds the stamp of what was
/// read equal, and not otherwise. The answer says which. Nothing has to be saved for
/// it.
pub proof fn an_entry_is_cached_if_unchanged<T, F>(
    cache: &mut FileParseCache<T, F>,
    entry: DiskEntry<T, F::Stamp>,
    reading: Result<F::Reading, io::Error>,
    fresh: bool,
) where T: Clone + Send + Sync + 'static, F: Fingerprint
    requires
        old(cache).wf(),
        call_ensures(FileParseCache::<T, F>::load_entry, (cache, entry, reading), fresh),
    ensures
        reading is Err ==> !fresh,
        reading is Ok ==> exists|stamp: F::Stamp| #[trigger]
            call_ensures(F::stamp, (&old(cache).judge(), &reading->Ok_0), stamp) && call_ensures(
                <F::Stamp as PartialEq>::eq,
                (&stamp, &entry.stamp),
                fresh,
            ),
        final(cache)@.dirty == old(cache)@.dirty,
        final(cache)@.store.capacity == old(cache)@.store.capacity,
        !fresh ==> final(cache)@ == old(cache)@,
        fresh && old(cache)@.store.capacity > 0 ==> {
            let key = path_key(&text_path(entry.path@));
            let now = final(cache)@.store.contents[key];
            &&& final(cache)@.store.contents.contains_key(key)
            &&& now.path == text_path(entry.path@)
            &&& now.entry.stamp == entry.stamp
            &&& now.entry.value == entry.value
            &&& forall|k: PathKey|
                k != key ==> (#[trigger] final(cache)@.store.contents.contains_key(k) <==> old(
                    cache)@.store.contents.contains_key(k) && (old(
                    cache)@.store.contents.contains_key(key) || old(
                    cache)@.store.contents.dom().len() < old(cache)@.store.capacity || k != old(
                    cache)@.store.order[0]))
        },
{
    one_entry_is_loaded(cache, entry, reading, fresh);
}

/// A load of any number of entries into a cache with room for all of them. `unchanged`
/// tells of which entries the file can be read and still has an equal stamp. Then all
/// of these are cached, the last one for a path where there are several, and no other
/// is; what was cached before stays, unless one of them took its place; and the counts
/// are those of the entries that are unchanged and that are not.
pub proof fn every_unchanged_entry_is_loaded<T, F, R>(
    cache: &mut FileParseCache<T, F>,
    list: Vec<DiskEntry<T, F::Stamp>>,
    read: R,
    stats: LoadStats,
    unchanged: spec_fn(int) -> bool,
) where
    T: Clone + Send + Sync + 'static,
    F: Fingerprint,
    R: Fn(&PathBuf) -> Result<F::Reading, io::Error>,

    requires
        old(cache).wf(),
        call_ensures(FileParseCache::<T, F>::load_entries, (cache, list, read), stats),
        old(cache)@.store.contents.dom().len() + list.len() <= old(cache)@.store.capacity,
        <F::Stamp as PartialEqSpec>::obeys_eq_spec(),
        forall|i: int, reading: Result<F::Reading, io::Error>|
            #![trigger unchanged(i), read.ensures((&text_path(list@[i].path@),), reading)]
            0 <= i < list.len() && unchanged(i) && read.ensures(
                (&text_path(list@[i].path@),),
                reading,
            ) ==> reading is Ok,
        forall|i: int, reading: Result<F::Reading, io::Error>, stamp: F::Stamp|
            #![trigger read.ensures((&text_path(list@[i].path@),), reading), call_ensures(F::stamp, (&old(cache).judge(), &reading->Ok_0), stamp)]
            0 <= i < list.len() && read.ensures((&text_path(list@[i].path@),), reading)
                && reading is Ok && call_ensures(
                F::stamp,
                (&old(cache).judge(), &reading->Ok_0),
                stamp,
            ) ==> (stamp.eq_spec(&list@[i].stamp) <==> unchanged(i)),
    ensures
        stats.loaded + stats.stale == list.len(),
        stats.loaded == Seq::new(list@.len(), |i: int| unchanged(i)).filter(|set: bool| set).len(),
        final(cache)@.dirty == old(cache)@.dirty,
        final(cache)@.store.capacity == old(cache)@.store.capacity,
        forall|k: PathKey| #[trigger]
            final(cache)@.store.contents.contains_key(k) <==> old(
                cache)@.store.contents.contains_key(k) || exists|i: int|
                0 <= i < list.len() && unchanged(i) && path_key(
                    &text_path((#[trigger] list@[i]).path@),
                ) == k,
        forall|i: int|
            0 <= i < list.len() && unchanged(i) && (forall|j: int|
                i < j < list.len() && unchanged(j) ==> path_key(
                    &text_path((#[trigger] list@[j]).path@),
                ) != path_key(&text_path(list@[i].path@))) ==> {
                let now = final(cache)@.store.contents[path_key(
                    &text_path((#[trigger] list@[i]).path@),
                )];
                &&& now.path == text_path(list@[i].path@)
                &&& now.entry.stamp == list@[i].stamp
                &&& now.entry.value == list@[i].value
            },
        forall|k: PathKey| #[trigger]
            old(cache)@.store.contents.contains_key(k) && (forall|i: int|
                0 <= i < list.len() && unchanged(i) ==> path_key(
                    &text_path((#[trigger] list@[i]).path@),
                ) != k) ==> final(cache)@.store.contents[k] == old(cache)@.store.contents[k],
{
    all_entries_are_loaded(cache, list, read, stats);
    let judge = old(cache).judge();
    let entries = list@;
    let fresh = choose|fresh: Seq<bool>| #[trigger]
        takes_in(old(cache)@, final(cache)@, judge, entries, read, fresh, stats);
    assert forall|i: int| 0 <= i < entries.len() implies fresh[i] == unchanged(i) by {
        assert(finds_out(judge, entries[i], read, fresh[i]));
        let reading = choose|reading: Result<F::Reading, io::Error>| #[trigger]
            read.ensures((&text_path(entries[i].path@),), reading) && finds(
                judge,
                entries[i],
                reading,
                fresh[i],
            );
        assert(read.ensures((&text_path(list@[i].path@),), reading));
        if unchanged(i) {
            assert(reading is Ok);
        }
        if reading is Ok {
            let stamp = choose|stamp: F::Stamp| #[trigger]
                call_ensures(F::stamp, (&judge, &reading->Ok_0), stamp) && call_ensures(
                    <F::Stamp as PartialEq>::eq,
                    (&stamp, &entries[i].stamp),
                    fresh[i],
                );
            assert(stamp.eq_spec(&list@[i].stamp) <==> unchanged(i));
        }
    }
    assert(fresh =~= Seq::new(list@.len(), |i: int| unchanged(i)));
    lemma_number_set(fresh);
    let states = choose|states: Seq<StoreView<T, F::Stamp>>| #[trigger]
        leads(states, old(cache)@.store, final(cache)@.store, entries, fresh);
    old(cache)@.store.lemma_len();
    lemma_in_room(states, old(cache)@.store, final(cache)@.store, entries, fresh);
}

/// Counting set marks one way or another.
proof fn lemma_number_set(fresh: Seq<bool>)
    ensures
        number_set(fresh) == fresh.filter(|set: bool| set).len(),
{
    assert((|set: bool| set) =~= (|set: bool| set));
}

/// Where there is room for all of the entries, all that are marked stay.
proof fn lemma_in_room<T, S>(
    states: Seq<StoreView<T, S>>,
    before: StoreView<T, S>,
    after: StoreView<T, S>,
    entries: Seq<DiskEntry<T, S>>,
    fresh: Seq<bool>,
)
    requires
        leads(states, before, after, entries, fresh),
        fresh.len() == entries.len(),
        before.len() + entries.len() <= before.capacity,
    ensures
        after.wf(),
        after.capacity == before.capacity,
        after.len() <= before.len() + entries.len(),
        forall|k: PathKey| #[trigger]
            after.contents.contains_key(k) <==> before.contents.contains_key(k) || exists|i: int|
                0 <= i < entries.len() && fresh[i] && path_key(
                    &text_path((#[trigger] entries[i]).path@),
                ) == k,
        forall|i: int|
            0 <= i < entries.len() && fresh[i] && (forall|j: int|
                i < j < entries.len() && fresh[j] ==> path_key(
                    &text_path((#[trigger] entries[j]).path@),
                ) != path_key(&text_path(entries[i].path@))) ==> after.contents[path_key(
                &text_path((#[trigger] entries[i]).path@),
            )] == put_for(entries[i]),
        forall|k: PathKey| #[trigger]
            before.contents.contains_key(k) && (forall|i: int|
                0 <= i < entries.len() && fresh[i] ==> path_key(
                    &text_path((#[trigger] entries[i]).path@),
                ) != k) ==> after.contents[k] == before.contents[k],
    decreases entries.len(),
{
    assert(states[0].wf());
    assert(states[entries.len() as int].wf());
    before.lemma_len();
    after.lemma_len();
    if entries.len() > 0 {
        let fewer = entries.drop_last();
        let marked = fresh.drop_last();
        let some = states.drop_last();
        let last = entries.len() - 1;
        let mid = states[last];
        assert(forall|i: int| 0 <= i < last ==> fewer[i] == entries[i] && marked[i] == fresh[i]);
        assert(leads(some, before, mid, fewer, marked)) by {
            assert forall|i: int| 0 <= i < some.len() implies (#[trigger] some[i]).wf() by {
                assert(some[i] == states[i]);
            }
            assert forall|i: int| 0 <= i < fewer.len() implies steps(
                some[i],
                some[i + 1],
                #[trigger] fewer[i],
                marked[i],
            ) by {
                assert(steps(states[i], states[i + 1], entries[i], fresh[i]));
            }
        }
        lemma_in_room(some, before, mid, fewer, marked);
        mid.lemma_len();
        assert(steps(states[last], states[last + 1], entries[last], fresh[last]));
        let item = put_for(entries[last]);
        let key = path_key(&text_path(entries[last].path@));
        if fresh[last] {
            assert(puts(mid, after, item));
            assert(mid.contents.contains_key(key) || mid.contents.dom().len() < mid.capacity);
            assert forall|k: PathKey| #[trigger]
                after.contents.contains_key(k) <==> mid.contents.contains_key(k) || k == key by {}
            assert(after.contents.dom() =~= mid.contents.dom().insert(key)) by {
                assert forall|k: PathKey| #[trigger]
                    after.contents.dom().contains(k) <==> mid.contents.dom().insert(key).contains(
                        k,
                    ) by {
                    assert(after.contents.contains_key(k) == after.contents.dom().contains(k));
                }
            }
        }
        assert forall|k: PathKey| #[trigger]
            after.contents.contains_key(k) <==> before.contents.contains_key(k) || exists|i: int|
                0 <= i < entries.len() && fresh[i] && path_key(
                    &text_path((#[trigger] entries[i]).path@),
                ) == k by {
            if after.contents.contains_key(k) && !before.contents.contains_key(k) {
                if fresh[last] && k == key {
                    assert(path_key(&text_path(entries[last].path@)) == k);
                } else {
                    assert(mid.contents.contains_key(k));
                    let i = choose|i: int|
                        0 <= i < fewer.len() && marked[i] && path_key(
                            &text_path((#[trigger] fewer[i]).path@),
                        ) == k;
                    assert(entries[i] == fewer[i]);
                }
            }
            if before.contents.contains_key(k) {
                assert(mid.contents.contains_key(k));
            }
            if exists|i: int|
                0 <= i < entries.len() && fresh[i] && path_key(
                    &text_path((#[trigger] entries[i]).path@),
                ) == k {
                let i = choose|i: int|
                    0 <= i < entries.len() && fresh[i] && path_key(
                        &text_path((#[trigger] entries[i]).path@),
                    ) == k;
                if i < last {
                    assert(fewer[i] == entries[i]);
                    assert(mid.contents.contains_key(k));
                }
            }
        }
        assert forall|i: int|
            0 <= i < entries.len() && fresh[i] && (forall|j: int|
                i < j < entries.len() && fresh[j] ==> path_key(
                    &text_path((#[trigger] entries[j]).path@),
                ) != path_key(&text_path(entries[i].path@))) implies after.contents[path_key(
            &text_path((#[trigger] entries[i]).path@),
        )] == put_for(entries[i]) by {
            let k = path_key(&text_path(entries[i].path@));
            if i < last {
                assert(fewer[i] == entries[i]);
                assert forall|j: int| i < j < fewer.len() && marked[j] implies path_key(
                    &text_path((#[trigger] fewer[j]).path@),
                ) != k by {
                    assert(entries[j] == fewer[j]);
                }
                assert(mid.contents[k] == put_for(entries[i]));
                assert(mid.contents.contains_key(k));
                if fresh[last] {
                    assert(entries[last] == entries[last]);
                    assert(path_key(&text_path(entries[last].path@)) != k);
                    assert(after.contents.contains_key(k));
                }
            }
        }
        assert forall|k: PathKey| #[trigger]
            before.contents.contains_key(k) && (forall|i: int|
                0 <= i < entries.len() && fresh[i] ==> path_key(
                    &text_path((#[trigger] entries[i]).path@),
                ) != k) implies after.contents[k] == before.contents[k] by {
            assert forall|i: int| 0 <= i < fewer.len() && marked[i] implies path_key(
                &text_path((#[trigger] fewer[i]).path@),
            ) != k by {
                assert(entries[i] == fewer[i]);
            }
            assert(mid.contents.contains_key(k));
            if fresh[last] {
                assert(path_key(&text_path(entries[last].path@)) != k);
                assert(after.contents.contains_key(k));
            }
        }
    }
}

/// Whatever the room, a load of any number of entries counts every one of them, keeps
/// to the capacity and the state of saving, caches nothing but entries that were
/// loaded or cached before, and caches the last one, if its file is unchanged.
pub proof fn every_entry_is_counted<T, F, R>(
    cache: &mut FileParseCache<T, F>,
    list: Vec<DiskEntry<T, F::Stamp>>,
    read: R,
    stats: LoadStats,
) where
    T: Clone + Send + Sync + 'static,
    F: Fingerprint,
    R: Fn(&PathBuf) -> Result<F::Reading, io::Error>,

    requires
        old(cache).wf(),
        call_ensures(FileParseCache::<T, F>::load_entries, (cache, list, read), stats),
    ensures
        stats.loaded + stats.stale == list.len(),
        final(cache)@.dirty == old(cache)@.dirty,
        final(cache)@.store.capacity == old(cache)@.store.capacity,
        final(cache)@.store.contents.dom().len() <= old(cache)@.store.capacity,
        list.len() == 0 ==> final(cache)@ == old(cache)@,
        exists|fresh: Seq<bool>|
            #![trigger marks(old(cache).judge(), list@, read, fresh)]
            {
                &&& marks(old(cache).judge(), list@, read, fresh)
                &&& list.len() > 0 && fresh[list.len() - 1] && old(cache)@.store.capacity > 0 ==> {
                    let key = path_key(&text_path(list@[list.len() - 1].path@));
                    let now = final(cache)@.store.contents[key];
                    &&& final(cache)@.store.contents.contains_key(key)
                    &&& now.path == text_path(list@[list.len() - 1].path@)
                    &&& now.entry.stamp == list@[list.len() - 1].stamp
                    &&& now.entry.value == list@[list.len() - 1].value
                }
            },
{
    all_entries_are_loaded(cache, list, read, stats);
    let fresh = choose|fresh: Seq<bool>| #[trigger]
        takes_in(old(cache)@, final(cache)@, old(cache).judge(), list@, read, fresh, stats);
    let states = choose|states: Seq<StoreView<T, F::Stamp>>| #[trigger]
        leads(states, old(cache)@.store, final(cache)@.store, list@, fresh);
    final(cache)@.store.lemma_len();
    lemma_capacity(states, list@, fresh, list@.len() as int);
    if list.len() > 0 {
        let last = list.len() - 1;
        assert(steps(states[last], states[last + 1], list@[last], fresh[last]));
        lemma_capacity(states, list@, fresh, last);
    } else {
        assert(final(cache)@ =~= old(cache)@);
    }
}

/// The capacity stays the same from state to state.
proof fn lemma_capacity<T, S>(
    states: Seq<StoreView<T, S>>,
    entries: Seq<DiskEntry<T, S>>,
    fresh: Seq<bool>,
    n: int,
)
    requires
        0 <= n <= entries.len(),
        leads(states, states[0], states[entries.len() as int], entries, fresh),
    ensures
        states[n].capacity == states[0].capacity,
    decreases n,
{
    if n > 0 {
        lemma_capacity(states, entries, fresh, n - 1);
        assert(steps(states[n - 1], states[n], entries[n - 1], fresh[n - 1]));
    }
}

/// A cache on disk is loaded just as its entries are: the answer is `Ok` if and only if
/// it is of version 1, and then every one of its entries is counted.
pub proof fn a_disk_of_version_one_is_loaded<T, F, E, R>(
    cache: &mut FileParseCache<T, F>,
    disk: DiskCache<T, F::Stamp>,
    read: R,
    r: Result<LoadStats, LoadError<E>>,
) where
    T: Clone + Send + Sync + 'static,
    F: Fingerprint,
    R: Fn(&PathBuf) -> Result<F::Reading, io::Error>,

    requires
        old(cache).wf(),
        call_ensures(FileParseCache::<T, F>::load_disk::<E>, (cache, disk, read), r),
    ensures
        r is Ok <==> disk.version == 1,
        r is Ok ==> r->Ok_0.loaded + r->Ok_0.stale == disk.entries.len(),
        r is Err ==> final(cache)@ == old(cache)@,
        r is Err ==> r == Err::<LoadStats, LoadError<E>>(
            LoadError::VersionMismatch { disk: disk.version, expected: 1 },
        ),
        final(cache)@.dirty == old(cache)@.dirty,
{
    disk_is_loaded(cache, disk, read, r);
}

/// A file is loaded just as the cache decoded of it is: if the answer is `Ok`, the bytes
/// of the file at the path were read and decoded as version 1, and every entry that was
/// decoded is counted. If it is an error nothing changes.
pub proof fn a_file_of_version_one_is_loaded<T, F, Fmt, B, R>(
    cache: &mut FileParseCache<T, F>,
    path: &PathBuf,
    format: &Fmt,
    read_file: B,
    read: R,
    r: Result<LoadStats, LoadError<Fmt::Error>>,
) where
    T: Clone + Send + Sync + 'static,
    F: Fingerprint,
    Fmt: Format<T, F::Stamp>,
    B: FnOnce(&PathBuf) -> Result<Vec<u8>, io::Error>,
    R: Fn(&PathBuf) -> Result<F::Reading, io::Error>,

    requires
        old(cache).wf(),
        call_ensures(
            FileParseCache::<T, F>::load::<Fmt>,
            (cache, path, format, read_file, read),
            r,
        ),
    ensures
        final(cache)@.dirty == old(cache)@.dirty,
        r is Err ==> final(cache)@ == old(cache)@,
        r is Ok ==> exists|bytes: Vec<u8>, slice: &[u8], disk: DiskCache<T, F::Stamp>|
            #![trigger read_file.ensures((path,), Ok::<Vec<u8>, io::Error>(bytes)), call_ensures(Fmt::deserialize, (format, slice), Ok::<DiskCache<T, F::Stamp>, Fmt::Error>(disk))]
            {
                &&& read_file.ensures((path,), Ok::<Vec<u8>, io::Error>(bytes))
                &&& slice@ == bytes@
                &&& call_ensures(
                    Fmt::deserialize,
                    (format, slice),
                    Ok::<DiskCache<T, F::Stamp>, Fmt::Error>(disk),
                )
                &&& disk.version == 1
                &&& r->Ok_0.loaded + r->Ok_0.stale == disk.entries.len()
            },
{
    file_is_loaded(cache, path, format, read_file, read, r);
    if r is Ok {
        let (bytes, slice, decoded) = choose|
            bytes: Vec<u8>,
            slice: &[u8],
            decoded: Result<DiskCache<T, F::Stamp>, Fmt::Error>,
        |
            #[trigger] read_file.ensures((path,), Ok::<Vec<u8>, io::Error>(bytes)) && slice@
                == bytes@ && #[trigger] call_ensures(Fmt::deserialize, (format, slice), decoded)
                && match decoded {
                Err(error) => r == Err::<LoadStats, LoadError<Fmt::Error>>(
                    LoadError::Deserialize(error),
                ),
                Ok(disk) => if disk.version == 1 {
                    r is Ok && exists|fresh: Seq<bool>| #[trigger]
                        takes_in(
                            old(cache)@,
                            final(cache)@,
                            old(cache).judge(),
                            disk.entries@,
                            read,
                            fresh,
                            r->Ok_0,
                        )
                } else {
                    r == Err::<LoadStats, LoadError<Fmt::Error>>(
                        LoadError::VersionMismatch { disk: disk.version, expected: 1 },
                    )
                },
            };
        let disk = decoded->Ok_0;
        assert(call_ensures(
            Fmt::deserialize,
            (format, slice),
            Ok::<DiskCache<T, F::Stamp>, Fmt::Error>(disk),
        ));
    }
}

} // verus!
