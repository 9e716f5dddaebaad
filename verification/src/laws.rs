//! What holds of the library as a whole, stated over the relations that the
//! contracts of its functions use.

use std::io;
use std::path::PathBuf;
use std::sync::Arc;
use std::time::SystemTime;
use vstd::prelude::*;
use vstd::map_lib::lemma_submap_of_trans;
use vstd::std_specs::cmp::PartialEqSpec;
use vstd::std_specs::convert::FromSpec;

use crate::cache::{gets, gets_read, parses_only_on_miss, selects, CacheView};
use crate::errors::LoadError;
use crate::fingerprint::{Blake3Stamp, ContentHashFingerprint, Fingerprint};
use crate::paths::{is_unicode, path_key, PathKey};
use crate::persist::{
    count_fresh, loads_bytes, loads_marked, rechecked, snapshot, with_fresh, written, DiskCache,
    DiskEntry, Format, LoadStats,
};
use crate::stamp::{unix_nanos, MtimeStamp, NANOS_PER_SEC};
use crate::store::{lemma_kept, lemma_kept_all, Entry, Stored, StoreView};

verus! {

// ---------------------------------------------------------------------------
// Stamps
// ---------------------------------------------------------------------------

/// The whole seconds of `t` fit in an `i64`.
pub open spec fn in_range(t: SystemTime) -> bool {
    i64::MIN <= unix_nanos(t) / (NANOS_PER_SEC as int) <= i64::MAX
}

/// The stamp of a time can be converted back, and the time that comes out is the
/// same.
pub proof fn mtime_roundtrip(t: SystemTime)
    requires
        in_range(t),
    ensures
        call_requires(MtimeStamp::to_system_time, (MtimeStamp::from_spec(t),)),
        forall|u: SystemTime| #[trigger]
            call_ensures(MtimeStamp::to_system_time, (MtimeStamp::from_spec(t),), u)
                ==> unix_nanos(u) == unix_nanos(t),
{
    let s = MtimeStamp::from_spec(t);
    assert(s.instant() == unix_nanos(t));
}

/// The seconds of a stamp are the largest whole number not above the true value,
/// and its nanoseconds are less than a second.
pub proof fn mtime_is_rounded_down(t: SystemTime)
    requires
        in_range(t),
    ensures
        MtimeStamp::from_spec(t).nanos < NANOS_PER_SEC,
        MtimeStamp::from_spec(t).secs * NANOS_PER_SEC <= unix_nanos(t),
        unix_nanos(t) < (MtimeStamp::from_spec(t).secs + 1) * NANOS_PER_SEC,
{
}

/// Two times have equal stamps exactly if they are the same point in time.
pub proof fn mtime_tells_times_apart(t: SystemTime, u: SystemTime)
    requires
        in_range(t),
        in_range(u),
    ensures
        MtimeStamp::from_spec(t).eq_spec(&MtimeStamp::from_spec(u)) <==> unix_nanos(t)
            == unix_nanos(u),
{
}

/// Files of equal content have equal content stamps.
pub proof fn equal_content_has_equal_stamps(
    a: Vec<u8>,
    b: Vec<u8>,
    stamp_a: Blake3Stamp,
    stamp_b: Blake3Stamp,
)
    requires
        a@ == b@,
        call_ensures(
            <ContentHashFingerprint as Fingerprint>::stamp,
            (&ContentHashFingerprint, &a),
            stamp_a,
        ),
        call_ensures(
            <ContentHashFingerprint as Fingerprint>::stamp,
            (&ContentHashFingerprint, &b),
            stamp_b,
        ),
    ensures
        stamp_a.eq_spec(&stamp_b),
{
}

// ---------------------------------------------------------------------------
// Getting
// ---------------------------------------------------------------------------

/// What is cached for a file is served as long as the stamp of the file equals the
/// one cached.
pub proof fn unchanged_file_is_served<T, S, E, P>(
    before: CacheView<T, S>,
    after: CacheView<T, S>,
    path: PathBuf,
    stamp: S,
    parser: P,
    result: Result<T, E>,
) where T: Clone, S: PartialEq, P: FnOnce(&PathBuf) -> Result<T, E>
    requires
        S::obeys_eq_spec(),
        before.store.contents.contains_key(path_key(&path)),
        before.store.contents[path_key(&path)].entry.stamp.eq_spec(&stamp),
        gets(before, after, path, stamp, parser, result),
    ensures
        after == before.used(path_key(&path)),
        result is Ok,
        cloned(before.store.contents[path_key(&path)].entry.value, result->Ok_0),
{
}

/// A file that is cached with the stamp it has now is not parsed: whatever the
/// parser is, and if it may never be called, `get` can be.
pub proof fn unchanged_file_is_not_parsed<T, F, E, P>(
    before: CacheView<T, F::Stamp>,
    fingerprint: F,
    path: PathBuf,
    read: F::Reading,
    parser: P,
) where T: Clone, F: Fingerprint, P: FnOnce(&PathBuf) -> Result<T, E>
    requires
        <F::Stamp as PartialEqSpec>::obeys_eq_spec(),
        before.store.contents.contains_key(path_key(&path)),
        forall|stamp: F::Stamp| #[trigger]
            call_ensures(F::stamp, (&fingerprint, &read), stamp)
                ==> before.store.contents[path_key(&path)].entry.stamp.eq_spec(&stamp),
    ensures
        parses_only_on_miss(before, fingerprint, path, Ok(read), parser),
{
}

/// A file that cannot be read is not parsed: whatever the parser is, and if it may
/// never be called, `get` can be.
pub proof fn unreadable_file_is_not_parsed<T, F, E, P>(
    before: CacheView<T, F::Stamp>,
    fingerprint: F,
    path: PathBuf,
    reading: Result<F::Reading, io::Error>,
    parser: P,
) where T: Clone, F: Fingerprint, P: FnOnce(&PathBuf) -> Result<T, E>
    requires
        reading is Err,
    ensures
        parses_only_on_miss(before, fingerprint, path, reading, parser),
{
}

/// A file whose stamp differs from the one cached is parsed again.
pub proof fn changed_file_is_parsed_again<T, S, E, P>(
    before: CacheView<T, S>,
    after: CacheView<T, S>,
    path: PathBuf,
    stamp: S,
    parser: P,
    result: Result<T, E>,
) where T: Clone, S: PartialEq, P: FnOnce(&PathBuf) -> Result<T, E>
    requires
        S::obeys_eq_spec(),
        before.store.contents.contains_key(path_key(&path)) ==> !before.store.contents[path_key(
            &path,
        )].entry.stamp.eq_spec(&stamp),
        gets(before, after, path, stamp, parser, result),
    ensures
        parser.ensures((&path,), result),
{
}

/// What was parsed once is served the next time, in a cache with room for at least
/// one entry: a `get` that finds the file unchanged answers a clone of what the one
/// before had parsed.
pub proof fn parsed_value_is_served_next<T, S, E, P>(
    before: CacheView<T, S>,
    mid: CacheView<T, S>,
    after: CacheView<T, S>,
    path: PathBuf,
    stamp: S,
    value: T,
    again: S,
    parser: P,
    result: Result<T, E>,
) where T: Clone, S: PartialEq, P: FnOnce(&PathBuf) -> Result<T, E>
    requires
        before.store.capacity > 0,
        before.remembers(mid, path, stamp, value),
        S::obeys_eq_spec(),
        stamp.eq_spec(&again),
        gets(mid, after, path, again, parser, result),
    ensures
        after == mid.used(path_key(&path)),
        result is Ok,
        exists|copy: T| #[trigger] cloned(value, copy) && cloned(copy, result->Ok_0),
{
    let key = path_key(&path);
    let copy = choose|copy: T|
        #![trigger cloned(value, copy)]
        cloned(value, copy) && mid == before.stored(
            Stored { path, entry: Arc::new(Entry { stamp, value: copy }) },
        );
    assert(mid.store.contents[key] == (Stored {
        path,
        entry: Arc::new(Entry { stamp, value: copy }),
    }));
    unchanged_file_is_served(mid, after, path, again, parser, result);
}

/// A file that cannot be parsed is not cached. What was cached stays, for that file
/// too, and does not have to be saved again.
pub proof fn parse_error_caches_nothing<T, S, E, P>(
    before: CacheView<T, S>,
    after: CacheView<T, S>,
    path: PathBuf,
    stamp: S,
    parser: P,
    result: Result<T, E>,
) where T: Clone, S: PartialEq, P: FnOnce(&PathBuf) -> Result<T, E>
    requires
        gets(before, after, path, stamp, parser, result),
        result is Err,
    ensures
        after.store.contents == before.store.contents,
        after.dirty == before.dirty,
        parser.ensures((&path,), result),
{
}

/// A file that cannot be read gives the error of reading it, and nothing changes.
pub proof fn unreadable_file_changes_nothing<T, F, E, P>(
    before: CacheView<T, F::Stamp>,
    after: CacheView<T, F::Stamp>,
    fingerprint: F,
    path: PathBuf,
    reading: Result<F::Reading, io::Error>,
    parser: P,
    result: Result<T, E>,
) where T: Clone, F: Fingerprint, E: From<io::Error>, P: FnOnce(&PathBuf) -> Result<T, E>
    requires
        reading is Err,
        gets_read(before, after, fingerprint, path, reading, parser, result),
    ensures
        after == before,
        result is Err,
        call_ensures(<E as From<io::Error>>::from, (reading->Err_0,), result->Err_0),
{
}

// ---------------------------------------------------------------------------
// What stays and what leaves
// ---------------------------------------------------------------------------

/// A file that is cached stays until others push it out. If a new file is cached
/// where there is no room, the one that was used least recently leaves, and no
/// other; in all other cases none does. The new file itself stays, as long as there
/// is room for any.
pub proof fn only_the_least_recently_used_leaves<T, S>(
    before: CacheView<T, S>,
    after: CacheView<T, S>,
    path: PathBuf,
    stamp: S,
    value: T,
    other: PathKey,
) where T: Clone, S: PartialEq
    requires
        before.store.wf(),
        before.store.capacity > 0,
        before.remembers(after, path, stamp, value),
        other != path_key(&path),
    ensures
        after.store.contents.contains_key(path_key(&path)),
        after.store.contents.contains_key(other) <==> {
            &&& before.store.contents.contains_key(other)
            &&& before.store.contents.contains_key(path_key(&path)) || before.store.len()
                < before.store.capacity || other != before.store.order[0]
        },
        after.store.contents.contains_key(other) ==> after.store.contents[other]
            == before.store.contents[other],
{
    let copy = choose|copy: T|
        #![trigger cloned(value, copy)]
        cloned(value, copy) && after == before.stored(
            Stored { path, entry: Arc::new(Entry { stamp, value: copy }) },
        );
    let item = Stored { path, entry: Arc::new(Entry { stamp, value: copy }) };
    before.store.lemma_len();
    lemma_stored_contents(before.store, item);
}

/// The number of entries grows by one with every file that is cached for the first
/// time until the capacity is reached, and does not change with one that is cached
/// again.
pub proof fn each_file_counts_once<T, S>(
    before: CacheView<T, S>,
    after: CacheView<T, S>,
    path: PathBuf,
    stamp: S,
    value: T,
) where T: Clone, S: PartialEq
    requires
        before.store.wf(),
        before.remembers(after, path, stamp, value),
    ensures
        after.store.len() == if before.store.contents.contains_key(path_key(&path))
            || before.store.len() == before.store.capacity {
            before.store.len()
        } else {
            before.store.len() + 1
        },
{
    let copy = choose|copy: T|
        #![trigger cloned(value, copy)]
        cloned(value, copy) && after == before.stored(
            Stored { path, entry: Arc::new(Entry { stamp, value: copy }) },
        );
    let item = Stored { path, entry: Arc::new(Entry { stamp, value: copy }) };
    before.store.lemma_len();
    before.store.lemma_stored(item);
    before.store.stored(item).lemma_len();
    lemma_stored_contents(before.store, item);
}

/// A file that is cached when `get` is done is the most recently used one.
pub proof fn served_file_is_the_most_recently_used<T, S, E, P>(
    before: CacheView<T, S>,
    after: CacheView<T, S>,
    path: PathBuf,
    stamp: S,
    parser: P,
    result: Result<T, E>,
) where T: Clone, S: PartialEq, P: FnOnce(&PathBuf) -> Result<T, E>
    requires
        before.store.wf(),
        gets(before, after, path, stamp, parser, result),
        after.store.contents.contains_key(path_key(&path)),
    ensures
        after.store.wf(),
        after.store.order.len() > 0,
        after.store.order.last() == path_key(&path),
{
    let key = path_key(&path);
    before.store.lemma_used_wf(key);
    if after != before.used(key) {
        let value = result->Ok_0;
        let copy = choose|copy: T|
            #![trigger cloned(value, copy)]
            cloned(value, copy) && after == before.stored(
                Stored { path, entry: Arc::new(Entry { stamp, value: copy }) },
            );
        let item = Stored { path, entry: Arc::new(Entry { stamp, value: copy }) };
        before.store.lemma_stored(item);
        if before.store.capacity == 0 {
            assert(before.store.order.contains(key));
        }
    }
}

/// A file that was just served is not pushed out by the next one, in a cache with
/// room for two.
pub proof fn recently_used_file_stays<T, S, E, P>(
    before: CacheView<T, S>,
    mid: CacheView<T, S>,
    after: CacheView<T, S>,
    path: PathBuf,
    stamp: S,
    parser: P,
    result: Result<T, E>,
    next: PathBuf,
    next_stamp: S,
    next_value: T,
) where T: Clone, S: PartialEq, P: FnOnce(&PathBuf) -> Result<T, E>
    requires
        before.store.wf(),
        before.store.capacity >= 2,
        gets(before, mid, path, stamp, parser, result),
        mid.store.contents.contains_key(path_key(&path)),
        path_key(&next) != path_key(&path),
        mid.remembers(after, next, next_stamp, next_value),
    ensures
        after.store.contents.contains_key(path_key(&path)),
        after.store.contents[path_key(&path)] == mid.store.contents[path_key(&path)],
{
    served_file_is_the_most_recently_used(before, mid, path, stamp, parser, result);
    only_the_least_recently_used_leaves(mid, after, next, next_stamp, next_value, path_key(&path));
    mid.store.lemma_len();
}

/// What a store holds once `item` was put in.
pub(crate) proof fn lemma_stored_contents<T, S>(store: StoreView<T, S>, item: Stored<T, S>)
    requires
        store.wf(),
    ensures
        store.stored(item).contents.submap_of(store.contents.insert(item.key(), item)),
        store.capacity > 0 ==> {
            let room = store.contents.contains_key(item.key()) || store.order.len() < store.capacity;
            store.stored(item).contents == if room {
                store.contents.insert(item.key(), item)
            } else {
                store.contents.remove(store.order[0]).insert(item.key(), item)
            }
        },
        store.capacity > 0 ==> store.stored(item).order.len() == if store.contents.contains_key(
            item.key(),
        ) || store.order.len() == store.capacity {
            store.order.len()
        } else {
            store.order.len() + 1
        },
        store.capacity == 0 ==> store.order.len() == 0,
{
    let key = item.key();
    let others = store.without(set![key]);
    store.lemma_without_wf(set![key]);
    lemma_kept(store.order, set![key]);
    if store.capacity > 0 {
        if store.contents.contains_key(key) {
            store.lemma_without_one(key);
            assert(others.contents.insert(key, item) =~= store.contents.insert(key, item));
        } else {
            lemma_kept_all(store.order, set![key]);
            assert(others.contents =~= store.contents);
            if store.order.len() == store.capacity {
                let first = store.order[0];
                assert(store.order.contains(first));
                others.lemma_without_one(first);
                assert(others.contents.remove_keys(set![first]) =~= store.contents.remove(first));
            }
        }
    } else {
        assert(forall|k: PathKey| !store.contents.contains_key(k));
    }
}

// ---------------------------------------------------------------------------
// Purging and clearing
// ---------------------------------------------------------------------------

/// A purged entry is invisible at once: the next `get` parses the file.
pub proof fn purged_file_is_parsed_again<T, S, E, P>(
    before: CacheView<T, S>,
    after: CacheView<T, S>,
    dropped: Set<PathKey>,
    path: PathBuf,
    stamp: S,
    parser: P,
    result: Result<T, E>,
) where T: Clone, S: PartialEq, P: FnOnce(&PathBuf) -> Result<T, E>
    requires
        dropped.contains(path_key(&path)),
        gets(before.purged(dropped), after, path, stamp, parser, result),
    ensures
        parser.ensures((&path,), result),
{
}

/// With a predicate that is a function of the path, a purge drops just the
/// entries whose path satisfies it, and the others stay as they are. The cache has
/// to be saved again if and only if there was one to drop.
pub proof fn purge_drops_just_what_is_selected<T, S, P>(
    before: CacheView<T, S>,
    dropped: Set<PathKey>,
    predicate: P,
    chosen: spec_fn(PathBuf) -> bool,
) where T: Clone, S: PartialEq, P: Fn(&PathBuf) -> bool
    requires
        selects(before.store, predicate, dropped),
        forall|path: &PathBuf, answer: bool| #[trigger]
            predicate.ensures((path,), answer) ==> answer == chosen(*path),
    ensures
        forall|k: PathKey| #[trigger]
            before.purged(dropped).store.contents.contains_key(k)
                <==> before.store.contents.contains_key(k) && !chosen(before.store.contents[k].path),
        forall|k: PathKey| #[trigger]
            before.purged(dropped).store.contents.contains_key(k) ==> before.purged(
                dropped,
            ).store.contents[k] == before.store.contents[k],
        before.purged(dropped).dirty <==> before.dirty || exists|k: PathKey| #[trigger]
            before.store.contents.contains_key(k) && chosen(before.store.contents[k].path),
{
    assert forall|k: PathKey| #[trigger] before.store.contents.contains_key(k) implies (
    dropped.contains(k) <==> chosen(before.store.contents[k].path)) by {
        assert(predicate.ensures((&before.store.contents[k].path,), dropped.contains(k)));
    }
    if !dropped.disjoint(before.store.contents.dom()) {
        let k = choose|k: PathKey| dropped.contains(k) && before.store.contents.dom().contains(k);
        assert(before.store.contents.contains_key(k));
    }
    if exists|k: PathKey| #[trigger]
        before.store.contents.contains_key(k) && chosen(before.store.contents[k].path) {
        let k = choose|k: PathKey| #[trigger]
            before.store.contents.contains_key(k) && chosen(before.store.contents[k].path);
        assert(dropped.contains(k) && before.store.contents.dom().contains(k));
    }
}

/// After a `clear` nothing is left to be counted, and every file is parsed again.
pub proof fn cleared_cache_is_empty<T, S, E, P>(
    before: CacheView<T, S>,
    after: CacheView<T, S>,
    path: PathBuf,
    stamp: S,
    parser: P,
    result: Result<T, E>,
) where T: Clone, S: PartialEq, P: FnOnce(&PathBuf) -> Result<T, E>
    requires
        gets(before.cleared(), after, path, stamp, parser, result),
    ensures
        before.cleared().store.len() == 0,
        parser.ensures((&path,), result),
{
}

/// Clearing an empty cache changes nothing.
pub proof fn clearing_an_empty_cache_changes_nothing<T, S>(before: CacheView<T, S>)
    requires
        before.store.wf(),
        before.store.len() == 0,
    ensures
        before.cleared() == before,
{
    before.store.lemma_len();
    assert(before.store.contents.dom() =~= Set::empty());
    assert(before.store.contents =~= Map::empty());
    assert(before.store.order =~= Seq::empty());
}

// ---------------------------------------------------------------------------
// Saving
// ---------------------------------------------------------------------------

/// Nothing that is cached is missing from `saved` unless the cache is dirty.
pub open spec fn accounted<T, S>(cache: CacheView<T, S>, saved: Map<PathKey, Stored<T, S>>) -> bool {
    cache.dirty || cache.store.contents.submap_of(saved)
}

/// Nothing that is cached is ever missing from the last snapshot without the
/// cache being dirty: the snapshot itself starts out that way, and `get`,
/// `purge_if` and `clear` keep it so.
pub proof fn begun_save_is_accounted<T, S>(before: CacheView<T, S>, after: CacheView<T, S>)
    requires
        after == (CacheView { dirty: false, ..before }),
    ensures
        accounted(after, before.store.contents),
{
}

/// A `get`, between the two halves of a save or at any other time, keeps what is
/// cached accounted for.
pub proof fn get_stays_accounted<T, S, E, P>(
    before: CacheView<T, S>,
    after: CacheView<T, S>,
    saved: Map<PathKey, Stored<T, S>>,
    path: PathBuf,
    stamp: S,
    parser: P,
    result: Result<T, E>,
) where T: Clone, S: PartialEq, P: FnOnce(&PathBuf) -> Result<T, E>
    requires
        accounted(before, saved),
        gets(before, after, path, stamp, parser, result),
    ensures
        accounted(after, saved),
{
}

/// So does a purge.
pub proof fn purge_stays_accounted<T, S>(
    before: CacheView<T, S>,
    saved: Map<PathKey, Stored<T, S>>,
    dropped: Set<PathKey>,
)
    requires
        accounted(before, saved),
    ensures
        accounted(before.purged(dropped), saved),
{
    if !before.purged(dropped).dirty {
        let left = before.store.contents.remove_keys(dropped);
        assert(left.submap_of(before.store.contents));
        lemma_submap_of_trans(left, before.store.contents, saved);
    }
}

/// So does a `clear`.
pub proof fn clear_stays_accounted<T, S>(
    before: CacheView<T, S>,
    saved: Map<PathKey, Stored<T, S>>,
)
    requires
        accounted(before, saved),
    ensures
        accounted(before.cleared(), saved),
{
}

/// No insert is lost: what is cached between the two halves of a save leaves the
/// cache dirty when the save is done, whatever its outcome, so the next save
/// writes it. A cache without room for any entry takes none.
pub proof fn insert_during_save_is_saved_next<T, S>(
    begun: CacheView<T, S>,
    mid: CacheView<T, S>,
    done: CacheView<T, S>,
    path: PathBuf,
    stamp: S,
    value: T,
    failed: bool,
) where T: Clone, S: PartialEq
    requires
        begun.store.capacity > 0,
        begun.remembers(mid, path, stamp, value),
        done == (CacheView { dirty: mid.dirty || failed, ..mid }),
    ensures
        done.dirty,
        done.store == mid.store,
        done.store.contents.contains_key(path_key(&path)),
{
}

// ---------------------------------------------------------------------------
// Loading
// ---------------------------------------------------------------------------

/// The key that `entry` is cached under.
pub open spec fn entry_key<T, S>(entry: DiskEntry<T, S>) -> PathKey {
    path_key(&entry.file())
}

/// No two of `entries` have the same key.
pub open spec fn distinct_keys<T, S>(entries: Seq<DiskEntry<T, S>>) -> bool {
    forall|i: int, j: int|
        0 <= i < j < entries.len() ==> entry_key(#[trigger] entries[i]) != entry_key(
            #[trigger] entries[j],
        )
}

/// Every entry in the file is counted, as loaded or as stale.
pub proof fn every_loaded_entry_is_counted<T, F, R>(
    before: CacheView<T, F::Stamp>,
    after: CacheView<T, F::Stamp>,
    fingerprint: F,
    entries: Seq<DiskEntry<T, F::Stamp>>,
    read: R,
    fresh: Seq<bool>,
    stats: LoadStats,
) where F: Fingerprint, R: Fn(&PathBuf) -> Result<F::Reading, io::Error>
    requires
        loads_marked(before, after, fingerprint, entries, read, fresh, stats),
    ensures
        stats.loaded + stats.stale == entries.len(),
{
}

/// Loading does not make a cache dirty, nor clean.
pub proof fn load_keeps_the_dirty_flag<T, F, Fmt, R>(
    before: CacheView<T, F::Stamp>,
    after: CacheView<T, F::Stamp>,
    fingerprint: F,
    bytes: Result<Vec<u8>, io::Error>,
    format: Fmt,
    read: R,
    result: Result<LoadStats, LoadError<Fmt::Error>>,
) where
    F: Fingerprint,
    Fmt: Format<T, F::Stamp>,
    R: Fn(&PathBuf) -> Result<F::Reading, io::Error>,

    requires
        loads_bytes(before, after, fingerprint, bytes, format, read, result),
    ensures
        after.dirty == before.dirty,
{
}

/// A load that fails changes nothing.
pub proof fn failed_load_changes_nothing<T, F, Fmt, R>(
    before: CacheView<T, F::Stamp>,
    after: CacheView<T, F::Stamp>,
    fingerprint: F,
    bytes: Result<Vec<u8>, io::Error>,
    format: Fmt,
    read: R,
    result: Result<LoadStats, LoadError<Fmt::Error>>,
) where
    F: Fingerprint,
    Fmt: Format<T, F::Stamp>,
    R: Fn(&PathBuf) -> Result<F::Reading, io::Error>,

    requires
        loads_bytes(before, after, fingerprint, bytes, format, read, result),
        result is Err,
    ensures
        after == before,
{
}

/// An entry is loaded exactly if its file can be read and still has the stamp
/// that was saved: here, where reading the file gives `reading` for certain.
pub proof fn load_keeps_just_the_unchanged<T, F, R>(
    fingerprint: F,
    read: R,
    entry: DiskEntry<T, F::Stamp>,
    reading: Result<F::Reading, io::Error>,
    stamp: F::Stamp,
    fresh: bool,
) where F: Fingerprint, R: Fn(&PathBuf) -> Result<F::Reading, io::Error>
    requires
        <F::Stamp as PartialEqSpec>::obeys_eq_spec(),
        forall|other: Result<F::Reading, io::Error>| #[trigger]
            read.ensures((&entry.file(),), other) ==> other == reading,
        reading matches Ok(found) ==> forall|other: F::Stamp| #[trigger]
            call_ensures(F::stamp, (&fingerprint, &found), other) ==> other == stamp,
        rechecked(fingerprint, read, entry, fresh),
    ensures
        fresh <==> reading is Ok && stamp.eq_spec(&entry.stamp),
{
}

/// What was saved is given back by a load into an empty cache that has room for
/// it, for files whose paths are valid Unicode: an entry for every file that is
/// unchanged, with clones of its stamp and value, and none for the others. If all
/// are unchanged, just the files that were cached when the cache was saved are
/// cached again.
pub proof fn load_gives_back_what_was_saved<T, F, R>(
    saved: StoreView<T, F::Stamp>,
    disk: DiskCache<T, F::Stamp>,
    before: CacheView<T, F::Stamp>,
    after: CacheView<T, F::Stamp>,
    fingerprint: F,
    read: R,
    fresh: Seq<bool>,
    stats: LoadStats,
) where T: Clone, F: Fingerprint, R: Fn(&PathBuf) -> Result<F::Reading, io::Error>
    requires
        snapshot(saved, disk),
        forall|k: PathKey| #[trigger]
            saved.contents.contains_key(k) ==> is_unicode(&saved.contents[k].path),
        before.store == StoreView::<T, F::Stamp>::empty(before.store.capacity),
        saved.len() <= before.store.capacity,
        loads_marked(before, after, fingerprint, disk.entries@, read, fresh, stats),
    ensures
        stats.loaded + stats.stale == saved.len(),
        after.dirty == before.dirty,
        forall|i: int|
            0 <= i < disk.entries.len() ==> (fresh[i] <==> after.store.contents.contains_key(
                entry_key(#[trigger] disk.entries@[i]),
            )),
        forall|k: PathKey| #[trigger]
            after.store.contents.contains_key(k) ==> saved.contents.contains_key(k)
                && given_back(saved.contents[k], after.store.contents[k]),
        (forall|i: int| 0 <= i < fresh.len() ==> fresh[i]) ==> after.store.contents.dom()
            == saved.contents.dom() && stats.stale == 0,
{
    let entries = disk.entries@;
    let items = choose|items: Seq<Stored<T, F::Stamp>>| #[trigger]
        saved.lists(items) && items.len() == disk.entries.len() && forall|i: int|
            0 <= i < items.len() ==> written(#[trigger] items[i], disk.entries@[i]);
    assert forall|i: int| 0 <= i < entries.len() implies {
        let key = entry_key(#[trigger] entries[i]);
        &&& entries[i].file() == items[i].path
        &&& saved.contents.contains_key(key)
        &&& given_back(saved.contents[key], entries[i].item())
    } by {
        assert(written(items[i], entries[i]));
        assert(saved.contents.contains_key(items[i].key()));
    }
    lemma_distinct_when_saved(saved, disk);
    lemma_with_fresh_in_room(before.store, entries, fresh);
    assert forall|k: PathKey| #[trigger] after.store.contents.contains_key(k) implies saved.contents.contains_key(
        k,
    ) && given_back(saved.contents[k], after.store.contents[k]) by {
        let i = choose|i: int|
            0 <= i < entries.len() && fresh[i] && entry_key(#[trigger] entries[i]) == k;
        assert(after.store.contents[k] == entries[i].item());
    }
    assert forall|i: int| 0 <= i < entries.len() implies (fresh[i]
        <==> after.store.contents.contains_key(entry_key(#[trigger] entries[i]))) by {
        if after.store.contents.contains_key(entry_key(entries[i])) {
            let j = choose|j: int|
                0 <= j < entries.len() && fresh[j] && entry_key(#[trigger] entries[j]) == entry_key(
                    entries[i],
                );
            assert(i == j);
        }
    }
    if forall|i: int| 0 <= i < fresh.len() ==> fresh[i] {
        lemma_count_all(fresh);
        assert forall|k: PathKey| #[trigger] saved.contents.dom().contains(k) implies after.store.contents.dom().contains(
            k,
        ) by {
            assert(saved.contents.contains_key(k));
            let i = choose|i: int| 0 <= i < items.len() && (#[trigger] items[i]).key() == k;
            assert(fresh[i]);
            assert(entry_key(entries[i]) == k);
        }
        assert forall|k: PathKey| #[trigger] after.store.contents.dom().contains(k) implies saved.contents.dom().contains(
            k,
        ) by {
            assert(after.store.contents.contains_key(k));
        }
        assert(after.store.contents.dom() =~= saved.contents.dom());
    }
}

/// A file that was cached when the cache was saved, and is unchanged since, is
/// served after the load: `get` answers a clone of the clone that was saved.
pub proof fn saved_value_is_served_after_load<T, F, R, E, P>(
    saved: StoreView<T, F::Stamp>,
    disk: DiskCache<T, F::Stamp>,
    before: CacheView<T, F::Stamp>,
    loaded: CacheView<T, F::Stamp>,
    after: CacheView<T, F::Stamp>,
    fingerprint: F,
    read: R,
    fresh: Seq<bool>,
    stats: LoadStats,
    i: int,
    path: PathBuf,
    stamp: F::Stamp,
    parser: P,
    result: Result<T, E>,
) where
    T: Clone,
    F: Fingerprint,
    R: Fn(&PathBuf) -> Result<F::Reading, io::Error>,
    P: FnOnce(&PathBuf) -> Result<T, E>,

    requires
        snapshot(saved, disk),
        forall|k: PathKey| #[trigger]
            saved.contents.contains_key(k) ==> is_unicode(&saved.contents[k].path),
        before.store == StoreView::<T, F::Stamp>::empty(before.store.capacity),
        saved.len() <= before.store.capacity,
        loads_marked(before, loaded, fingerprint, disk.entries@, read, fresh, stats),
        <F::Stamp as PartialEqSpec>::obeys_eq_spec(),
        0 <= i < disk.entries.len(),
        fresh[i],
        entry_key(disk.entries@[i]) == path_key(&path),
        disk.entries@[i].stamp.eq_spec(&stamp),
        gets(loaded, after, path, stamp, parser, result),
    ensures
        after == loaded.used(path_key(&path)),
        result is Ok,
        saved.contents.contains_key(path_key(&path)),
        exists|copy: T| #[trigger]
            cloned(saved.contents[path_key(&path)].entry.value, copy) && cloned(
                copy,
                result->Ok_0,
            ),
{
    let key = path_key(&path);
    load_gives_back_what_was_saved(saved, disk, before, loaded, fingerprint, read, fresh, stats);
    lemma_distinct_when_saved(saved, disk);
    lemma_with_fresh_in_room(before.store, disk.entries@, fresh);
    assert(entry_key(disk.entries@[i]) == key);
    assert(loaded.store.contents.contains_key(key));
    assert(loaded.store.contents[key] == disk.entries@[i].item());
    assert(given_back(saved.contents[key], loaded.store.contents[key]));
    unchanged_file_is_served(loaded, after, path, stamp, parser, result);
}

/// The entries written of a store whose paths are valid Unicode have distinct
/// keys.
proof fn lemma_distinct_when_saved<T, S>(saved: StoreView<T, S>, disk: DiskCache<T, S>) where
    T: Clone,
    S: Clone,

    requires
        snapshot(saved, disk),
        forall|k: PathKey| #[trigger]
            saved.contents.contains_key(k) ==> is_unicode(&saved.contents[k].path),
    ensures
        distinct_keys(disk.entries@),
{
    let entries = disk.entries@;
    let items = choose|items: Seq<Stored<T, S>>| #[trigger]
        saved.lists(items) && items.len() == disk.entries.len() && forall|i: int|
            0 <= i < items.len() ==> written(#[trigger] items[i], disk.entries@[i]);
    assert forall|i: int| 0 <= i < entries.len() implies (#[trigger] entries[i]).file()
        == items[i].path by {
        assert(written(items[i], entries[i]));
        assert(saved.contents.contains_key(items[i].key()));
    }
    assert forall|i: int, j: int| 0 <= i < j < entries.len() implies entry_key(#[trigger] entries[i])
        != entry_key(#[trigger] entries[j]) by {
        assert(items[i].key() != items[j].key());
    }
}

/// `copy` is `item` with its stamp and value cloned.
pub open spec fn given_back<T: Clone, S: Clone>(item: Stored<T, S>, copy: Stored<T, S>) -> bool {
    &&& copy.path == item.path
    &&& cloned(item.entry.stamp, copy.entry.stamp)
    &&& cloned(item.entry.value, copy.entry.value)
}

/// What is cached after a load was cached before, or is an entry of the file that
/// was loaded: loaded entries need no saving.
pub proof fn load_adds_only_what_is_on_disk<T, F, R>(
    before: CacheView<T, F::Stamp>,
    after: CacheView<T, F::Stamp>,
    fingerprint: F,
    entries: Seq<DiskEntry<T, F::Stamp>>,
    read: R,
    fresh: Seq<bool>,
    stats: LoadStats,
    key: PathKey,
) where F: Fingerprint, R: Fn(&PathBuf) -> Result<F::Reading, io::Error>
    requires
        before.store.wf(),
        loads_marked(before, after, fingerprint, entries, read, fresh, stats),
        after.store.contents.contains_key(key),
    ensures
        before.store.contents.contains_key(key) && after.store.contents[key]
            == before.store.contents[key] || exists|i: int|
            0 <= i < entries.len() && fresh[i] && after.store.contents[key] == (
            #[trigger] entries[i]).item(),
{
    lemma_with_fresh_origin(before.store, entries, fresh, key);
}

/// A load keeps within the capacity.
pub proof fn load_keeps_within_the_capacity<T, F, R>(
    before: CacheView<T, F::Stamp>,
    after: CacheView<T, F::Stamp>,
    fingerprint: F,
    entries: Seq<DiskEntry<T, F::Stamp>>,
    read: R,
    fresh: Seq<bool>,
    stats: LoadStats,
) where F: Fingerprint, R: Fn(&PathBuf) -> Result<F::Reading, io::Error>
    requires
        before.store.wf(),
        loads_marked(before, after, fingerprint, entries, read, fresh, stats),
    ensures
        after.store.wf(),
        after.store.len() <= before.store.capacity,
{
    lemma_with_fresh_wf(before.store, entries, fresh);
    after.store.lemma_len();
}

/// Putting entries in keeps a store well-formed.
pub(crate) proof fn lemma_with_fresh_wf<T, S>(
    store: StoreView<T, S>,
    entries: Seq<DiskEntry<T, S>>,
    fresh: Seq<bool>,
)
    requires
        store.wf(),
    ensures
        with_fresh(store, entries, fresh).wf(),
        with_fresh(store, entries, fresh).capacity == store.capacity,
    decreases entries.len(),
{
    if entries.len() > 0 {
        lemma_with_fresh_wf(store, entries.drop_last(), fresh.drop_last());
        with_fresh(store, entries.drop_last(), fresh.drop_last()).lemma_stored(
            entries.last().item(),
        );
    }
}

/// What is in a store after entries were put in was there before or is one of them.
proof fn lemma_with_fresh_origin<T, S>(
    store: StoreView<T, S>,
    entries: Seq<DiskEntry<T, S>>,
    fresh: Seq<bool>,
    key: PathKey,
)
    requires
        store.wf(),
        fresh.len() == entries.len(),
        with_fresh(store, entries, fresh).contents.contains_key(key),
    ensures
        ({
            let after = with_fresh(store, entries, fresh);
            ||| store.contents.contains_key(key) && after.contents[key] == store.contents[key]
            ||| exists|i: int|
                0 <= i < entries.len() && fresh[i] && after.contents[key] == (
                #[trigger] entries[i]).item()
        }),
    decreases entries.len(),
{
    if entries.len() > 0 {
        let fewer = entries.drop_last();
        let marks = fresh.drop_last();
        let last = entries.len() - 1;
        let before = with_fresh(store, fewer, marks);
        let after = with_fresh(store, entries, fresh);
        lemma_with_fresh_wf(store, fewer, marks);
        let item = entries[last].item();
        if fresh.last() {
            lemma_stored_contents(before, item);
            assert(before.contents.insert(item.key(), item).dom().contains(key));
        }
        if fresh.last() && after.contents[key] == item {
            assert(fresh[last]);
        } else {
            assert(before.contents.contains_key(key) && after.contents[key]
                == before.contents[key]);
            lemma_with_fresh_origin(store, fewer, marks, key);
            if !(store.contents.contains_key(key) && after.contents[key] == store.contents[key]) {
                let i = choose|i: int|
                    0 <= i < fewer.len() && marks[i] && before.contents[key] == (
                    #[trigger] fewer[i]).item();
                assert(entries[i] == fewer[i] && fresh[i] == marks[i]);
            }
        }
    }
}

/// Where an empty store has room for all of the entries, and their keys are
/// distinct, each that is put in stays as it is, and nothing else turns up.
proof fn lemma_with_fresh_in_room<T, S>(
    store: StoreView<T, S>,
    entries: Seq<DiskEntry<T, S>>,
    fresh: Seq<bool>,
)
    requires
        store == StoreView::<T, S>::empty(store.capacity),
        fresh.len() == entries.len(),
        entries.len() <= store.capacity,
        distinct_keys(entries),
    ensures
        with_fresh(store, entries, fresh).wf(),
        with_fresh(store, entries, fresh).order.len() <= entries.len(),
        forall|i: int|
            0 <= i < entries.len() && fresh[i] ==> with_fresh(
                store,
                entries,
                fresh,
            ).contents.contains_key(entry_key(#[trigger] entries[i])) && with_fresh(
                store,
                entries,
                fresh,
            ).contents[entry_key(entries[i])] == entries[i].item(),
        forall|k: PathKey| #[trigger]
            with_fresh(store, entries, fresh).contents.contains_key(k) ==> exists|i: int|
                0 <= i < entries.len() && fresh[i] && entry_key(#[trigger] entries[i]) == k,
    decreases entries.len(),
{
    lemma_with_fresh_wf(store, entries, fresh);
    if entries.len() > 0 {
        let fewer = entries.drop_last();
        let marks = fresh.drop_last();
        let last = entries.len() - 1;
        let before = with_fresh(store, fewer, marks);
        let after = with_fresh(store, entries, fresh);
        let item = entries[last].item();
        assert(forall|i: int| 0 <= i < last ==> fewer[i] == entries[i] && marks[i] == fresh[i]);
        lemma_with_fresh_wf(store, fewer, marks);
        lemma_with_fresh_in_room(store, fewer, marks);
        lemma_stored_contents(before, item);
        assert forall|i: int| 0 <= i < entries.len() && fresh[i] implies after.contents.contains_key(
            entry_key(#[trigger] entries[i]),
        ) && after.contents[entry_key(entries[i])] == entries[i].item() by {
            if i < last {
                assert(fewer[i] == entries[i]);
                assert(entry_key(entries[i]) != entry_key(entries[last]));
            }
        }
        assert forall|k: PathKey| #[trigger] after.contents.contains_key(k) implies exists|i: int|
            0 <= i < entries.len() && fresh[i] && entry_key(#[trigger] entries[i]) == k by {
            if fresh.last() && k == item.key() {
                assert(entry_key(entries[last]) == k);
            } else {
                assert(before.contents.contains_key(k));
                let i = choose|i: int|
                    0 <= i < fewer.len() && marks[i] && entry_key(#[trigger] fewer[i]) == k;
                assert(entries[i] == fewer[i]);
            }
        }
    }
}

/// Where all are set, all are counted.
proof fn lemma_count_all(fresh: Seq<bool>)
    requires
        forall|i: int| 0 <= i < fresh.len() ==> fresh[i],
    ensures
        count_fresh(fresh) == fresh.len(),
    decreases fresh.len(),
{
    if fresh.len() > 0 {
        lemma_count_all(fresh.drop_last());
    }
}

} // verus!
