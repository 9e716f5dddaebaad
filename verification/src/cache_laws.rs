//! What every call of the cache answers and leaves, stated by what goes in and what
//! comes out: the entries by path, the order in which they were used, the capacity,
//! and whether the cache has to be saved.

use std::io;
use std::path::PathBuf;
use std::sync::Arc;
use vstd::prelude::*;
use vstd::std_specs::cmp::PartialEqSpec;

use crate::cache::{CacheView, FileParseCache};
use crate::fingerprint::{Fingerprint, MtimeFingerprint};
use crate::laws::lemma_stored_contents;
use crate::paths::{path_key, PathKey};
use crate::store::{kept, lemma_kept, Entry, Stored, StoreView};

verus! {

/// `a` stands before `b` in `order`.
pub open spec fn precedes(order: Seq<PathKey>, a: PathKey, b: PathKey) -> bool {
    exists|i: int, j: int| 0 <= i < j < order.len() && #[trigger] order[i] == a && #[trigger] order[j] == b
}

/// `after` has the entries, the capacity and the state of saving that `before` has.
/// The order in which the entries were used may differ.
pub open spec fn same_entries<T, S>(before: CacheView<T, S>, after: CacheView<T, S>) -> bool {
    &&& after.store.contents == before.store.contents
    &&& after.store.capacity == before.store.capacity
    &&& after.dirty == before.dirty
}

/// `after` differs from `before` in that `key` was used: it is the last to leave
/// now. All others are in the order they were in.
pub open spec fn moved_last<T, S>(before: StoreView<T, S>, after: StoreView<T, S>, key: PathKey) -> bool {
    &&& before.contents.contains_key(key) ==> after.order.len() > 0 && after.order.last() == key
    &&& !before.contents.contains_key(key) ==> after.order == before.order
    &&& forall|a: PathKey, b: PathKey|
        a != key && b != key && #[trigger] precedes(before.order, a, b) ==> precedes(
            after.order,
            a,
            b,
        )
}

/// `after` is `before` with `item` put in under its path. Where there is no room and
/// nothing is stored under that path, the entry that was used least recently leaves,
/// and only that one. A store made for no entries takes none.
pub open spec fn puts<T, S>(before: StoreView<T, S>, after: StoreView<T, S>, item: Stored<T, S>) -> bool {
    let key = path_key(&item.path);
    let room = before.contents.contains_key(key) || before.contents.dom().len() < before.capacity;
    &&& after.capacity == before.capacity
    &&& before.capacity == 0 ==> after.contents == before.contents && after.order == before.order
    &&& before.capacity > 0 ==> {
        &&& after.contents.contains_key(key) && after.contents[key] == item
        &&& after.order.len() > 0 && after.order.last() == key
        &&& forall|k: PathKey|
            k != key ==> (#[trigger] after.contents.contains_key(k)
                <==> before.contents.contains_key(k) && (room || k != before.order[0]))
        &&& forall|k: PathKey|
            k != key && #[trigger] after.contents.contains_key(k) ==> after.contents[k]
                == before.contents[k]
        &&& forall|a: PathKey, b: PathKey|
            a != key && b != key && after.contents.contains_key(a) && after.contents.contains_key(b)
                && #[trigger] precedes(before.order, a, b) ==> precedes(after.order, a, b)
    }
}

/// `after` is `before` with a clone of `value` cached for the file at `path` with
/// stamp `stamp`, and has to be saved, unless it is made for no entries.
pub open spec fn caches<T: Clone, S>(
    before: CacheView<T, S>,
    after: CacheView<T, S>,
    path: PathBuf,
    stamp: S,
    value: T,
) -> bool {
    &&& exists|copy: T| #[trigger]
        cloned(value, copy) && puts(
            before.store,
            after.store,
            Stored { path, entry: Arc::new(Entry { stamp, value: copy }) },
        )
    &&& after.dirty == (before.dirty || before.store.capacity > 0)
}

/// What `get` does for a file at `path` with stamp `stamp`. What is cached for the
/// path is answered if `==` finds its stamp equal. Otherwise, and only then, the
/// answer is an outcome of the parser for that path, and is cached with the new stamp
/// if it is no error.
pub open spec fn answers<T, S, E, P>(
    before: CacheView<T, S>,
    after: CacheView<T, S>,
    path: PathBuf,
    stamp: S,
    parser: P,
    result: Result<T, E>,
) -> bool where T: Clone, S: PartialEq, P: FnOnce(&PathBuf) -> Result<T, E> {
    let key = path_key(&path);
    let cached = before.store.contents[key].entry;
    ||| {
        &&& before.store.contents.contains_key(key)
        &&& call_ensures(<S as PartialEq>::eq, (&cached.stamp, &stamp), true)
        &&& result is Ok
        &&& cloned(cached.value, result->Ok_0)
        &&& same_entries(before, after)
        &&& moved_last(before.store, after.store, key)
    }
    ||| {
        &&& before.store.contents.contains_key(key) ==> call_ensures(
            <S as PartialEq>::eq,
            (&cached.stamp, &stamp),
            false,
        )
        &&& parser.ensures((&path,), result)
        &&& result is Ok ==> caches(before, after, path, stamp, result->Ok_0)
        &&& result is Err ==> same_entries(before, after) && moved_last(
            before.store,
            after.store,
            key,
        )
    }
}

/// What `get` does once reading the file has given `reading`.
pub open spec fn answers_read<T, F, E, P>(
    before: CacheView<T, F::Stamp>,
    after: CacheView<T, F::Stamp>,
    fingerprint: F,
    path: PathBuf,
    reading: Result<F::Reading, io::Error>,
    parser: P,
    result: Result<T, E>,
) -> bool where
    T: Clone,
    F: Fingerprint,
    E: From<io::Error>,
    P: FnOnce(&PathBuf) -> Result<T, E>,
 {
    &&& reading is Err ==> {
        &&& after == before
        &&& result is Err
        &&& call_ensures(<E as From<io::Error>>::from, (reading->Err_0,), result->Err_0)
    }
    &&& reading is Ok ==> exists|stamp: F::Stamp| #[trigger]
        call_ensures(F::stamp, (&fingerprint, &reading->Ok_0), stamp) && answers(
            before,
            after,
            path,
            stamp,
            parser,
            result,
        )
}

/// `after` is `before` without the entries for which `gone` holds of the path. It has
/// to be saved then, unless there was none. All others stay, in the order they were
/// in.
pub open spec fn drops<T, S>(
    before: CacheView<T, S>,
    after: CacheView<T, S>,
    gone: spec_fn(PathBuf) -> bool,
) -> bool {
    &&& after.store.capacity == before.store.capacity
    &&& forall|k: PathKey| #[trigger]
        after.store.contents.contains_key(k) <==> before.store.contents.contains_key(k) && !gone(
            before.store.contents[k].path,
        )
    &&& forall|k: PathKey| #[trigger]
        after.store.contents.contains_key(k) ==> after.store.contents[k]
            == before.store.contents[k]
    &&& after.dirty <==> before.dirty || exists|k: PathKey| #[trigger]
        before.store.contents.contains_key(k) && gone(before.store.contents[k].path)
    &&& forall|a: PathKey, b: PathKey|
        after.store.contents.contains_key(a) && after.store.contents.contains_key(b)
            && #[trigger] precedes(before.store.order, a, b) ==> precedes(after.store.order, a, b)
}

// ---------------------------------------------------------------------------
// Every cache
// ---------------------------------------------------------------------------

/// Of every cache: it holds no more entries than it was made for, each is found by
/// its own path, and each has one place in the order of use.
pub proof fn every_cache<T, F>(cache: &FileParseCache<T, F>) where F: Fingerprint
    requires
        cache.wf(),
    ensures
        cache@.store.contents.dom().finite(),
        cache@.store.contents.dom().len() <= cache@.store.capacity,
        cache@.store.order.len() == cache@.store.contents.dom().len(),
        cache@.store.order.no_duplicates(),
        forall|k: PathKey| #[trigger]
            cache@.store.contents.contains_key(k) <==> cache@.store.order.contains(k),
        forall|k: PathKey| #[trigger]
            cache@.store.contents.contains_key(k) ==> path_key(&cache@.store.contents[k].path) == k,
{
    cache@.store.lemma_len();
}

/// A new cache holds nothing, has room for as many files as asked for, and has
/// nothing to save.
pub proof fn new_cache<T>(max_entries: u64, r: FileParseCache<T, MtimeFingerprint>) where
    T: Clone + Send + Sync + 'static,

    requires
        call_ensures(FileParseCache::<T, MtimeFingerprint>::new, (max_entries,), r),
    ensures
        r.wf(),
        forall|k: PathKey| !#[trigger] r@.store.contents.contains_key(k),
        r@.store.order.len() == 0,
        r@.store.capacity == max_entries,
        !r@.dirty,
        r.judge() == MtimeFingerprint,
{
}

/// So has one with a fingerprint of its own, which it stamps files by.
pub proof fn new_cache_with_fingerprint<T, F>(
    max_entries: u64,
    fingerprint: F,
    r: FileParseCache<T, F>,
) where T: Clone + Send + Sync + 'static, F: Fingerprint
    requires
        call_ensures(
            FileParseCache::<T, F>::with_fingerprint,
            (max_entries, fingerprint),
            r,
        ),
    ensures
        r.wf(),
        forall|k: PathKey| !#[trigger] r@.store.contents.contains_key(k),
        r@.store.order.len() == 0,
        r@.store.capacity == max_entries,
        !r@.dirty,
        r.judge() == fingerprint,
{
}

/// A cache can be made for any number of entries.
pub proof fn a_cache_can_be_made<T, F>(max_entries: u64, fingerprint: F) where
    T: Clone + Send + Sync + 'static,
    F: Fingerprint,

    ensures
        call_requires(FileParseCache::<T, MtimeFingerprint>::new, (max_entries,)),
        call_requires(FileParseCache::<T, F>::with_fingerprint, (max_entries, fingerprint)),
{
}

/// Every cache can be asked at any time.
pub proof fn every_cache_can_be_asked<T, F>(
    cache: &mut FileParseCache<T, F>,
    path: &PathBuf,
    stamp: F::Stamp,
    value: T,
    list: Vec<PathBuf>,
) where T: Clone + Send + Sync + 'static, F: Fingerprint
    requires
        old(cache).wf(),
    ensures
        call_requires(FileParseCache::<T, F>::lookup, (cache, path, &stamp)),
        call_requires(FileParseCache::<T, F>::remember, (cache, path, stamp, &value)),
        call_requires(FileParseCache::<T, F>::purge, (cache, &list)),
        call_requires(FileParseCache::<T, F>::clear, (cache,)),
{
}

/// Every cache can be counted and listed at any time.
pub proof fn every_cache_can_be_counted<T, F>(cache: &FileParseCache<T, F>) where
    T: Clone + Send + Sync + 'static,
    F: Fingerprint,

    requires
        cache.wf(),
    ensures
        call_requires(FileParseCache::<T, F>::len, (cache,)),
        call_requires(FileParseCache::<T, F>::is_empty, (cache,)),
        call_requires(FileParseCache::<T, F>::paths, (cache,)),
{
}

// ---------------------------------------------------------------------------
// Looking up and remembering
// ---------------------------------------------------------------------------

/// A lookup finds a clone of what is cached for the path if and only if `==` finds
/// the stamps equal. It changes nothing but the order of use.
pub proof fn lookup_goes_by_the_stamp<T, F>(
    cache: &mut FileParseCache<T, F>,
    path: &PathBuf,
    stamp: &F::Stamp,
    r: Option<T>,
) where T: Clone + Send + Sync + 'static, F: Fingerprint
    requires
        old(cache).wf(),
        call_ensures(FileParseCache::<T, F>::lookup, (cache, path, stamp), r),
    ensures
        final(cache).wf(),
        final(cache).judge() == old(cache).judge(),
        same_entries(old(cache)@, final(cache)@),
        moved_last(old(cache)@.store, final(cache)@.store, path_key(path)),
        r is Some ==> {
            let cached = old(cache)@.store.contents[path_key(path)].entry;
            &&& old(cache)@.store.contents.contains_key(path_key(path))
            &&& call_ensures(<F::Stamp as PartialEq>::eq, (&cached.stamp, stamp), true)
            &&& cloned(cached.value, r->0)
        },
        r is None && old(cache)@.store.contents.contains_key(path_key(path)) ==> call_ensures(
            <F::Stamp as PartialEq>::eq,
            (&old(cache)@.store.contents[path_key(path)].entry.stamp, stamp),
            false,
        ),
{
    lemma_used(old(cache)@.store, path_key(path));
}

/// What is remembered is cached for its path, with its stamp, in place of what was
/// cached there. If there is no room, the least recently used entry leaves.
pub proof fn remembering_puts_it_in<T, F>(
    cache: &mut FileParseCache<T, F>,
    path: &PathBuf,
    stamp: F::Stamp,
    value: &T,
    r: (),
) where T: Clone + Send + Sync + 'static, F: Fingerprint
    requires
        old(cache).wf(),
        call_ensures(FileParseCache::<T, F>::remember, (cache, path, stamp, value), r),
    ensures
        final(cache).wf(),
        final(cache).judge() == old(cache).judge(),
        caches(old(cache)@, final(cache)@, *path, stamp, *value),
{
    lemma_remembers(old(cache)@, final(cache)@, *path, stamp, *value);
}

/// What was remembered is found again under an equal stamp, and not under another,
/// in every cache with room for at least one entry.
pub proof fn remembered_value_is_found<T, F>(
    first: &mut FileParseCache<T, F>,
    second: &mut FileParseCache<T, F>,
    path: &PathBuf,
    stamp: F::Stamp,
    value: &T,
    r: (),
    again: &PathBuf,
    other: &F::Stamp,
    found: Option<T>,
) where T: Clone + Send + Sync + 'static, F: Fingerprint
    requires
        old(first).wf(),
        old(first)@.store.capacity > 0,
        call_ensures(FileParseCache::<T, F>::remember, (first, path, stamp, value), r),
        *old(second) == *final(first),
        path_key(again) == path_key(path),
        call_ensures(FileParseCache::<T, F>::lookup, (second, again, other), found),
        <F::Stamp as PartialEqSpec>::obeys_eq_spec(),
    ensures
        found is Some <==> stamp.eq_spec(other),
        found is Some ==> exists|copy: T| #[trigger] cloned(*value, copy) && cloned(copy, found->0),
{
    remembering_puts_it_in(first, path, stamp, value, r);
    lookup_goes_by_the_stamp(second, again, other, found);
    let copy = choose|copy: T| #[trigger]
        cloned(*value, copy) && puts(
            old(first)@.store,
            final(first)@.store,
            Stored { path: *path, entry: Arc::new(Entry { stamp, value: copy }) },
        );
    assert(cloned(*value, copy));
}

// ---------------------------------------------------------------------------
// Getting
// ---------------------------------------------------------------------------

/// Whatever was read, `get_read` answers what is cached under an equal stamp, or else
/// what the parser makes of the file, which it caches.
pub proof fn get_read_answers<T, F, E, P>(
    cache: &mut FileParseCache<T, F>,
    path: &PathBuf,
    reading: Result<F::Reading, io::Error>,
    parser: P,
    r: Result<T, E>,
) where
    T: Clone + Send + Sync + 'static,
    F: Fingerprint,
    E: From<io::Error> + Send + Sync + 'static,
    P: FnOnce(&PathBuf) -> Result<T, E>,

    requires
        old(cache).wf(),
        call_ensures(
            FileParseCache::<T, F>::get_read::<E>,
            (cache, path, reading, parser),
            r,
        ),
    ensures
        final(cache).wf(),
        final(cache).judge() == old(cache).judge(),
        final(cache)@.store.capacity == old(cache)@.store.capacity,
        answers_read(old(cache)@, final(cache)@, old(cache).judge(), *path, reading, parser, r),
{
    lemma_gets_read(old(cache)@, final(cache)@, old(cache).judge(), *path, reading, parser, r);
}

/// A file whose stamp now differs from the one cached is parsed again, in every cache
/// whatever its capacity and contents: the answer is an outcome of the parser, and is
/// cached with the new stamp.
pub proof fn changed_file_is_parsed_and_cached<T, F, E, P>(
    cache: &mut FileParseCache<T, F>,
    path: &PathBuf,
    read: F::Reading,
    parser: P,
    r: Result<T, E>,
) where
    T: Clone + Send + Sync + 'static,
    F: Fingerprint,
    E: From<io::Error> + Send + Sync + 'static,
    P: FnOnce(&PathBuf) -> Result<T, E>,

    requires
        old(cache).wf(),
        <F::Stamp as PartialEqSpec>::obeys_eq_spec(),
        old(cache)@.store.contents.contains_key(path_key(path)) ==> forall|stamp: F::Stamp|
            #[trigger]
            call_ensures(F::stamp, (&old(cache).judge(), &read), stamp) ==> !old(cache)@.store.contents[path_key(path)].entry.stamp.eq_spec(&stamp),
        call_ensures(
            FileParseCache::<T, F>::get_read::<E>,
            (cache, path, Ok::<F::Reading, io::Error>(read), parser),
            r,
        ),
    ensures
        parser.ensures((path,), r),
        r is Ok && old(cache)@.store.capacity > 0 ==> {
            let now = final(cache)@.store.contents[path_key(path)];
            &&& final(cache)@.store.contents.contains_key(path_key(path))
            &&& call_ensures(F::stamp, (&old(cache).judge(), &read), now.entry.stamp)
            &&& cloned(r->Ok_0, now.entry.value)
            &&& now.path == *path
            &&& final(cache)@.dirty
        },
        r is Err ==> same_entries(old(cache)@, final(cache)@),
{
    get_read_answers(cache, path, Ok::<F::Reading, io::Error>(read), parser, r);
}

/// A file whose stamp is the one cached is answered from the cache, in every cache
/// whatever its capacity and contents. Nothing is cached anew.
pub proof fn unchanged_file_is_answered_from_the_cache<T, F, E, P>(
    cache: &mut FileParseCache<T, F>,
    path: &PathBuf,
    read: F::Reading,
    parser: P,
    r: Result<T, E>,
) where
    T: Clone + Send + Sync + 'static,
    F: Fingerprint,
    E: From<io::Error> + Send + Sync + 'static,
    P: FnOnce(&PathBuf) -> Result<T, E>,

    requires
        old(cache).wf(),
        <F::Stamp as PartialEqSpec>::obeys_eq_spec(),
        old(cache)@.store.contents.contains_key(path_key(path)),
        forall|stamp: F::Stamp| #[trigger]
            call_ensures(F::stamp, (&old(cache).judge(), &read), stamp) ==> old(cache)@.store.contents[path_key(path)].entry.stamp.eq_spec(&stamp),
        call_ensures(
            FileParseCache::<T, F>::get_read::<E>,
            (cache, path, Ok::<F::Reading, io::Error>(read), parser),
            r,
        ),
    ensures
        r is Ok,
        cloned(old(cache)@.store.contents[path_key(path)].entry.value, r->Ok_0),
        same_entries(old(cache)@, final(cache)@),
        final(cache)@.store.order.last() == path_key(path),
{
    get_read_answers(cache, path, Ok::<F::Reading, io::Error>(read), parser, r);
}

/// The parser is called on a miss and at no other time: with a parser that may never
/// be called, `get_read` can still be asked for an unreadable file, and for one that is
/// cached with the stamp it has.
pub proof fn get_read_parses_only_on_a_miss<T, F, E, P>(
    cache: &mut FileParseCache<T, F>,
    path: &PathBuf,
    reading: Result<F::Reading, io::Error>,
    parser: P,
) where
    T: Clone + Send + Sync + 'static,
    F: Fingerprint,
    E: From<io::Error> + Send + Sync + 'static,
    P: FnOnce(&PathBuf) -> Result<T, E>,

    requires
        old(cache).wf(),
    ensures
        reading is Err ==> call_requires(
            FileParseCache::<T, F>::get_read::<E>,
            (cache, path, reading, parser),
        ),
        parser.requires((path,)) ==> call_requires(
            FileParseCache::<T, F>::get_read::<E>,
            (cache, path, reading, parser),
        ),
        reading is Ok && <F::Stamp as PartialEqSpec>::obeys_eq_spec() && old(cache)@.store.contents.contains_key(path_key(path)) && (forall|stamp: F::Stamp| #[trigger]
            call_ensures(F::stamp, (&old(cache).judge(), &reading->Ok_0), stamp) ==> old(cache)@.store.contents[path_key(path)].entry.stamp.eq_spec(&stamp)) ==> call_requires(
            FileParseCache::<T, F>::get_read::<E>,
            (cache, path, reading, parser),
        ),
{
}

/// `get` does what `get_read` does, with what `read` gives for the path.
pub proof fn get_answers<T, F, E, R, P>(
    cache: &mut FileParseCache<T, F>,
    path: &PathBuf,
    read: R,
    parser: P,
    r: Result<T, E>,
) where
    T: Clone + Send + Sync + 'static,
    F: Fingerprint,
    E: From<io::Error> + Send + Sync + 'static,
    R: FnOnce(&PathBuf) -> Result<F::Reading, io::Error>,
    P: FnOnce(&PathBuf) -> Result<T, E>,

    requires
        old(cache).wf(),
        call_ensures(FileParseCache::<T, F>::get::<E>, (cache, path, read, parser), r),
    ensures
        final(cache).wf(),
        final(cache).judge() == old(cache).judge(),
        final(cache)@.store.capacity == old(cache)@.store.capacity,
        exists|reading: Result<F::Reading, io::Error>| #[trigger]
            read.ensures((path,), reading) && answers_read(
                old(cache)@,
                final(cache)@,
                old(cache).judge(),
                *path,
                reading,
                parser,
                r,
            ),
{
    let reading = choose|reading: Result<F::Reading, io::Error>|
        #![trigger read.ensures((path,), reading)]
        read.ensures((path,), reading) && crate::cache::gets_read(
            old(cache)@,
            final(cache)@,
            old(cache).judge(),
            *path,
            reading,
            parser,
            r,
        );
    lemma_gets_read(old(cache)@, final(cache)@, old(cache).judge(), *path, reading, parser, r);
    assert(read.ensures((path,), reading));
}

/// `get` of a file that has changed is an outcome of the parser, and `get` of one that
/// cannot be read is the error of reading it.
pub proof fn get_of_a_changed_or_unreadable_file<T, F, E, R, P>(
    cache: &mut FileParseCache<T, F>,
    path: &PathBuf,
    read: R,
    parser: P,
    r: Result<T, E>,
) where
    T: Clone + Send + Sync + 'static,
    F: Fingerprint,
    E: From<io::Error> + Send + Sync + 'static,
    R: FnOnce(&PathBuf) -> Result<F::Reading, io::Error>,
    P: FnOnce(&PathBuf) -> Result<T, E>,

    requires
        old(cache).wf(),
        <F::Stamp as PartialEqSpec>::obeys_eq_spec(),
        call_ensures(FileParseCache::<T, F>::get::<E>, (cache, path, read, parser), r),
        forall|reading: Result<F::Reading, io::Error>, stamp: F::Stamp|
            #![trigger read.ensures((path,), reading), call_ensures(F::stamp, (&old(cache).judge(), &reading->Ok_0), stamp)]
            read.ensures((path,), reading) && reading is Ok && call_ensures(
                F::stamp,
                (&old(cache).judge(), &reading->Ok_0),
                stamp,
            ) && old(cache)@.store.contents.contains_key(path_key(path)) ==> !old(cache)@.store.contents[path_key(path)].entry.stamp.eq_spec(&stamp),
    ensures
        parser.ensures((path,), r) || exists|error: io::Error|
            r is Err && #[trigger] read.ensures((path,), Err::<F::Reading, io::Error>(error))
                && call_ensures(<E as From<io::Error>>::from, (error,), r->Err_0),
        r is Ok && old(cache)@.store.capacity > 0 ==> final(cache)@.store.contents.contains_key(
            path_key(path),
        ) && cloned(r->Ok_0, final(cache)@.store.contents[path_key(path)].entry.value) && final(cache)@.dirty,
        r is Err ==> same_entries(old(cache)@, final(cache)@),
{
    get_answers(cache, path, read, parser, r);
    let reading = choose|reading: Result<F::Reading, io::Error>| #[trigger]
        read.ensures((path,), reading) && answers_read(
            old(cache)@,
            final(cache)@,
            old(cache).judge(),
            *path,
            reading,
            parser,
            r,
        );
    if let Err(error) = reading {
        assert(read.ensures((path,), Err::<F::Reading, io::Error>(error)));
    }
}

/// `get` of a file that can be read and whose stamp is the one cached is answered from
/// the cache.
pub proof fn get_of_an_unchanged_file<T, F, E, R, P>(
    cache: &mut FileParseCache<T, F>,
    path: &PathBuf,
    read: R,
    parser: P,
    r: Result<T, E>,
) where
    T: Clone + Send + Sync + 'static,
    F: Fingerprint,
    E: From<io::Error> + Send + Sync + 'static,
    R: FnOnce(&PathBuf) -> Result<F::Reading, io::Error>,
    P: FnOnce(&PathBuf) -> Result<T, E>,

    requires
        old(cache).wf(),
        <F::Stamp as PartialEqSpec>::obeys_eq_spec(),
        call_ensures(FileParseCache::<T, F>::get::<E>, (cache, path, read, parser), r),
        old(cache)@.store.contents.contains_key(path_key(path)),
        forall|reading: Result<F::Reading, io::Error>| #[trigger]
            read.ensures((path,), reading) ==> reading is Ok,
        forall|reading: Result<F::Reading, io::Error>, stamp: F::Stamp|
            #![trigger read.ensures((path,), reading), call_ensures(F::stamp, (&old(cache).judge(), &reading->Ok_0), stamp)]
            read.ensures((path,), reading) && call_ensures(
                F::stamp,
                (&old(cache).judge(), &reading->Ok_0),
                stamp,
            ) ==> old(cache)@.store.contents[path_key(path)].entry.stamp.eq_spec(&stamp),
    ensures
        r is Ok,
        cloned(old(cache)@.store.contents[path_key(path)].entry.value, r->Ok_0),
        same_entries(old(cache)@, final(cache)@),
{
    get_answers(cache, path, read, parser, r);
}

/// `get` calls the parser on a miss and at no other time: with a parser that may never
/// be called, it can still be asked for an unreadable file, and for one that is cached
/// with the stamp it has.
pub proof fn get_parses_only_on_a_miss<T, F, E, R, P>(
    cache: &mut FileParseCache<T, F>,
    path: &PathBuf,
    read: R,
    parser: P,
) where
    T: Clone + Send + Sync + 'static,
    F: Fingerprint,
    E: From<io::Error> + Send + Sync + 'static,
    R: FnOnce(&PathBuf) -> Result<F::Reading, io::Error>,
    P: FnOnce(&PathBuf) -> Result<T, E>,

    requires
        old(cache).wf(),
        read.requires((path,)),
    ensures
        parser.requires((path,)) ==> call_requires(
            FileParseCache::<T, F>::get::<E>,
            (cache, path, read, parser),
        ),
        (forall|reading: Result<F::Reading, io::Error>| #[trigger]
            read.ensures((path,), reading) ==> reading is Err) ==> call_requires(
            FileParseCache::<T, F>::get::<E>,
            (cache, path, read, parser),
        ),
        <F::Stamp as PartialEqSpec>::obeys_eq_spec() && old(cache)@.store.contents.contains_key(
            path_key(path),
        ) && (forall|reading: Result<F::Reading, io::Error>, stamp: F::Stamp|
            #![trigger read.ensures((path,), reading), call_ensures(F::stamp, (&old(cache).judge(), &reading->Ok_0), stamp)]
            read.ensures((path,), reading) && reading is Ok && call_ensures(
                F::stamp,
                (&old(cache).judge(), &reading->Ok_0),
                stamp,
            ) ==> old(cache)@.store.contents[path_key(path)].entry.stamp.eq_spec(&stamp))
            ==> call_requires(FileParseCache::<T, F>::get::<E>, (cache, path, read, parser)),
{
}

// ---------------------------------------------------------------------------
// Listing, purging, clearing, counting
// ---------------------------------------------------------------------------

/// The list of paths has one for every entry, as it was last spelled, and no other.
pub proof fn paths_lists_every_entry_once<T, F>(cache: &FileParseCache<T, F>, r: Vec<PathBuf>) where
    T: Clone + Send + Sync + 'static,
    F: Fingerprint,

    requires
        call_ensures(FileParseCache::<T, F>::paths, (cache,), r),
    ensures
        r.len() == cache@.store.contents.dom().len(),
        forall|i: int|
            0 <= i < r.len() ==> cache@.store.contents.contains_key(path_key(&#[trigger] r@[i]))
                && cache@.store.contents[path_key(&r@[i])].path == r@[i],
        forall|i: int, j: int|
            0 <= i < j < r.len() ==> path_key(&#[trigger] r@[i]) != path_key(&#[trigger] r@[j]),
        forall|k: PathKey| #[trigger]
            cache@.store.contents.contains_key(k) ==> exists|i: int|
                0 <= i < r.len() && path_key(&#[trigger] r@[i]) == k,
{
}

/// A purge drops the entries of the listed paths and no others, and keeps the
/// capacity.
pub proof fn purge_drops_the_listed<T, F>(
    cache: &mut FileParseCache<T, F>,
    list: &Vec<PathBuf>,
    r: (),
) where T: Clone + Send + Sync + 'static, F: Fingerprint
    requires
        old(cache).wf(),
        call_ensures(FileParseCache::<T, F>::purge, (cache, list), r),
    ensures
        final(cache).wf(),
        final(cache).judge() == old(cache).judge(),
        drops(
            old(cache)@,
            final(cache)@,
            |path: PathBuf|
                exists|i: int|
                    0 <= i < list.len() && path_key(&#[trigger] list@[i]) == path_key(&path),
        ),
{
    let dropped = crate::paths::keys_of(list@);
    lemma_purged(
        old(cache)@,
        dropped,
        |path: PathBuf|
            exists|i: int| 0 <= i < list.len() && path_key(&#[trigger] list@[i]) == path_key(&path),
    );
}

/// A purge by a predicate that is a function of the path drops just the entries whose
/// path satisfies it, and keeps the capacity.
pub proof fn purge_if_drops_the_selected<T, F, P>(
    cache: &mut FileParseCache<T, F>,
    predicate: P,
    chosen: spec_fn(PathBuf) -> bool,
    r: (),
) where T: Clone + Send + Sync + 'static, F: Fingerprint, P: Fn(&PathBuf) -> bool
    requires
        old(cache).wf(),
        call_ensures(FileParseCache::<T, F>::purge_if, (cache, predicate), r),
        forall|path: &PathBuf, answer: bool| #[trigger]
            predicate.ensures((path,), answer) ==> answer == chosen(*path),
    ensures
        final(cache).wf(),
        final(cache).judge() == old(cache).judge(),
        drops(old(cache)@, final(cache)@, chosen),
{
    let before = old(cache)@;
    let dropped = choose|dropped: Set<PathKey>|
        crate::cache::selects(before.store, predicate, dropped) && final(cache)@
            == #[trigger] before.purged(dropped);
    assert forall|k: PathKey| #[trigger] before.store.contents.contains_key(k) implies (
    dropped.contains(k) <==> chosen(before.store.contents[k].path)) by {
        assert(predicate.ensures((&before.store.contents[k].path,), dropped.contains(k)));
    }
    lemma_purged(before, dropped, chosen);
}

/// Whatever the predicate answered, an entry that is gone satisfied it and one that is
/// left did not. It is asked of the cached paths only.
pub proof fn purge_if_goes_by_the_answers<T, F, P>(
    cache: &mut FileParseCache<T, F>,
    predicate: P,
    r: (),
    key: PathKey,
) where T: Clone + Send + Sync + 'static, F: Fingerprint, P: Fn(&PathBuf) -> bool
    requires
        old(cache).wf(),
        call_ensures(FileParseCache::<T, F>::purge_if, (cache, predicate), r),
    ensures
        final(cache)@.store.contents.contains_key(key) ==> old(cache)@.store.contents.contains_key(
            key,
        ) && final(cache)@.store.contents[key] == old(cache)@.store.contents[key],
        old(cache)@.store.contents.contains_key(key) ==> predicate.ensures(
            (&old(cache)@.store.contents[key].path,),
            !final(cache)@.store.contents.contains_key(key),
        ),
        (forall|k: PathKey| #[trigger]
            old(cache)@.store.contents.contains_key(k) ==> predicate.requires(
                (&old(cache)@.store.contents[k].path,),
            )) ==> call_requires(FileParseCache::<T, F>::purge_if, (cache, predicate)),
{
    let before = old(cache)@;
    let dropped = choose|dropped: Set<PathKey>|
        crate::cache::selects(before.store, predicate, dropped) && final(cache)@
            == #[trigger] before.purged(dropped);
    if before.store.contents.contains_key(key) {
        assert(predicate.ensures((&before.store.contents[key].path,), dropped.contains(key)));
    }
}

/// A `clear` leaves nothing, and keeps the capacity: the cache has the room it was made
/// with. It has to be saved if and only if it had to be before or held something.
pub proof fn clear_leaves_all_the_room<T, F>(cache: &mut FileParseCache<T, F>, r: ()) where
    T: Clone + Send + Sync + 'static,
    F: Fingerprint,

    requires
        old(cache).wf(),
        call_ensures(FileParseCache::<T, F>::clear, (cache,), r),
    ensures
        final(cache).wf(),
        final(cache).judge() == old(cache).judge(),
        final(cache)@.store.capacity == old(cache)@.store.capacity,
        forall|k: PathKey| !#[trigger] final(cache)@.store.contents.contains_key(k),
        final(cache)@.store.order.len() == 0,
        final(cache)@.dirty <==> old(cache)@.dirty || exists|k: PathKey| #[trigger]
            old(cache)@.store.contents.contains_key(k),
{
    let before = old(cache)@.store.contents;
    if !before.dom().is_empty() {
        let k = before.dom().choose();
        assert(before.contains_key(k));
    }
    if exists|k: PathKey| #[trigger] before.contains_key(k) {
        let k = choose|k: PathKey| #[trigger] before.contains_key(k);
        assert(before.dom().contains(k));
    }
}

/// The number of entries, and whether there are any.
pub proof fn len_counts_the_entries<T, F>(
    cache: &FileParseCache<T, F>,
    r: u64,
    empty: bool,
) where T: Clone + Send + Sync + 'static, F: Fingerprint
    requires
        cache.wf(),
        call_ensures(FileParseCache::<T, F>::len, (cache,), r),
        call_ensures(FileParseCache::<T, F>::is_empty, (cache,), empty),
    ensures
        r == cache@.store.contents.dom().len(),
        r <= cache@.store.capacity,
        empty <==> r == 0,
        empty <==> forall|k: PathKey| !#[trigger] cache@.store.contents.contains_key(k),
{
    if !empty {
        let k = cache@.store.contents.dom().choose();
        cache@.store.lemma_len();
        assert(cache@.store.contents.contains_key(k));
    }
}

// ---------------------------------------------------------------------------
// Proofs
// ---------------------------------------------------------------------------

/// Dropping keys keeps the order of the others.
proof fn lemma_kept_precedes(order: Seq<PathKey>, dropped: Set<PathKey>, a: PathKey, b: PathKey)
    requires
        precedes(order, a, b),
        !dropped.contains(a),
        !dropped.contains(b),
    ensures
        precedes(kept(order, dropped), a, b),
    decreases order.len(),
{
    let (i, j) = choose|i: int, j: int|
        0 <= i < j < order.len() && #[trigger] order[i] == a && #[trigger] order[j] == b;
    let fewer = order.drop_last();
    let rest = kept(fewer, dropped);
    if j < fewer.len() {
        assert(fewer[i] == a && fewer[j] == b);
        lemma_kept_precedes(fewer, dropped, a, b);
        lemma_pushed_precedes(rest, order.last(), a, b);
    } else {
        assert(fewer[i] == a);
        assert(fewer.contains(a));
        lemma_kept(fewer, dropped);
        assert(rest.contains(a));
        let n = choose|n: int| 0 <= n < rest.len() && rest[n] == a;
        let all = rest.push(b);
        assert(all[n] == a && all[rest.len() as int] == b);
    }
}

/// Adding a key keeps the order of the others.
proof fn lemma_pushed_precedes(order: Seq<PathKey>, key: PathKey, a: PathKey, b: PathKey)
    requires
        precedes(order, a, b),
    ensures
        precedes(order.push(key), a, b),
{
    let (i, j) = choose|i: int, j: int|
        0 <= i < j < order.len() && #[trigger] order[i] == a && #[trigger] order[j] == b;
    let all = order.push(key);
    assert(all[i] == a && all[j] == b);
}

/// Using an entry moves it to the end and keeps the order of the others.
pub(crate) proof fn lemma_used<T, S>(before: StoreView<T, S>, key: PathKey)
    ensures
        moved_last(before, before.used(key), key),
{
    if before.contents.contains_key(key) {
        assert forall|a: PathKey, b: PathKey|
            a != key && b != key && #[trigger] precedes(before.order, a, b) implies precedes(
            before.used(key).order,
            a,
            b,
        ) by {
            lemma_kept_precedes(before.order, set![key], a, b);
            lemma_pushed_precedes(kept(before.order, set![key]), key, a, b);
        }
    }
}

/// Putting an entry in is what [`puts`] says.
pub(crate) proof fn lemma_puts<T, S>(before: StoreView<T, S>, item: Stored<T, S>)
    requires
        before.wf(),
    ensures
        puts(before, before.stored(item), item),
{
    let key = path_key(&item.path);
    let after = before.stored(item);
    before.lemma_len();
    before.lemma_stored(item);
    lemma_stored_contents(before, item);
    if before.capacity > 0 {
        let others = before.without(set![key]);
        assert forall|a: PathKey, b: PathKey|
            a != key && b != key && after.contents.contains_key(a) && after.contents.contains_key(b)
                && #[trigger] precedes(before.order, a, b) implies precedes(after.order, a, b) by {
            lemma_kept_precedes(before.order, set![key], a, b);
            if others.order.len() < before.capacity {
                lemma_pushed_precedes(others.order, key, a, b);
            } else {
                let first = others.order[0];
                let room = others.without(set![first]);
                assert(others.order.contains(first));
                lemma_kept(before.order, set![key]);
                assert(!room.contents.contains_key(first));
                assert(after.contents == room.contents.insert(key, item));
                assert(a != first && b != first);
                lemma_kept_precedes(others.order, set![first], a, b);
                lemma_pushed_precedes(room.order, key, a, b);
            }
        }
    }
}

/// Remembering is what [`caches`] says.
proof fn lemma_remembers<T: Clone, S: PartialEq>(
    before: CacheView<T, S>,
    after: CacheView<T, S>,
    path: PathBuf,
    stamp: S,
    value: T,
)
    requires
        before.store.wf(),
        before.remembers(after, path, stamp, value),
    ensures
        caches(before, after, path, stamp, value),
{
    let copy = choose|copy: T|
        #![trigger cloned(value, copy)]
        cloned(value, copy) && after == before.stored(
            Stored { path, entry: Arc::new(Entry { stamp, value: copy }) },
        );
    lemma_puts(before.store, Stored { path, entry: Arc::new(Entry { stamp, value: copy }) });
    assert(cloned(value, copy));
}

/// Getting is what [`answers_read`] says.
proof fn lemma_gets_read<T, F, E, P>(
    before: CacheView<T, F::Stamp>,
    after: CacheView<T, F::Stamp>,
    fingerprint: F,
    path: PathBuf,
    reading: Result<F::Reading, io::Error>,
    parser: P,
    result: Result<T, E>,
) where T: Clone, F: Fingerprint, E: From<io::Error>, P: FnOnce(&PathBuf) -> Result<T, E>
    requires
        before.store.wf(),
        crate::cache::gets_read(before, after, fingerprint, path, reading, parser, result),
    ensures
        after.store.capacity == before.store.capacity,
        answers_read(before, after, fingerprint, path, reading, parser, result),
{
    if let Ok(read) = reading {
        let stamp = choose|stamp: F::Stamp|
            #![trigger call_ensures(F::stamp, (&fingerprint, &read), stamp)]
            call_ensures(F::stamp, (&fingerprint, &read), stamp) && crate::cache::gets(
                before,
                after,
                path,
                stamp,
                parser,
                result,
            );
        lemma_used(before.store, path_key(&path));
        if result is Ok && before.remembers(after, path, stamp, result->Ok_0) {
            lemma_remembers(before, after, path, stamp, result->Ok_0);
        }
        assert(answers(before, after, path, stamp, parser, result));
        assert(call_ensures(F::stamp, (&fingerprint, &reading->Ok_0), stamp));
    }
}

/// Purging is what [`drops`] says.
proof fn lemma_purged<T, S>(
    before: CacheView<T, S>,
    dropped: Set<PathKey>,
    gone: spec_fn(PathBuf) -> bool,
)
    requires
        before.store.wf(),
        forall|k: PathKey| #[trigger]
            before.store.contents.contains_key(k) ==> (dropped.contains(k) <==> gone(
                before.store.contents[k].path,
            )),
    ensures
        drops(before, before.purged(dropped), gone),
{
    let after = before.purged(dropped);
    if !dropped.disjoint(before.store.contents.dom()) {
        let k = choose|k: PathKey| dropped.contains(k) && before.store.contents.dom().contains(k);
        assert(before.store.contents.contains_key(k));
    }
    if exists|k: PathKey| #[trigger]
        before.store.contents.contains_key(k) && gone(before.store.contents[k].path) {
        let k = choose|k: PathKey| #[trigger]
            before.store.contents.contains_key(k) && gone(before.store.contents[k].path);
        assert(dropped.contains(k) && before.store.contents.dom().contains(k));
    }
    assert forall|a: PathKey, b: PathKey|
        after.store.contents.contains_key(a) && after.store.contents.contains_key(b)
            && #[trigger] precedes(before.store.order, a, b) implies precedes(
        after.store.order,
        a,
        b,
    ) by {
        lemma_kept_precedes(before.store.order, dropped, a, b);
    }
}

} // verus!
