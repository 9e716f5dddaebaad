//! The cache itself.

use std::io;
use std::path::PathBuf;
use std::sync::Arc;
use vstd::prelude::*;
use vstd::set_lib::{lemma_len_subset, lemma_subset_equality};

use crate::fingerprint::{Fingerprint, MtimeFingerprint};
use crate::paths::{self, keys_of, path_key, PathKey};
use crate::stamp::MtimeStamp;
use crate::store::{Entry, EntryStore, Stored, StoreView};

verus! {

/// What a cache holds, and whether that has changed since it was last saved.
#[verifier::ext_equal]
#[verifier::reject_recursive_types(T)]
#[verifier::reject_recursive_types(S)]
pub struct CacheView<T, S> {
    pub store: StoreView<T, S>,
    pub dirty: bool,
}

/// `==` on stamps answers `answer` for `a` and `b`.
pub open spec fn judged<S: PartialEq>(a: S, b: S, answer: bool) -> bool {
    call_ensures(<S as PartialEq>::eq, (&a, &b), answer)
}

impl<T, S> CacheView<T, S> {
    /// This cache after what is cached under `key` was used, if there is anything.
    pub open spec fn used(self, key: PathKey) -> Self {
        CacheView { store: self.store.used(key), ..self }
    }

    /// This cache with `item` put in. It has to be saved again then, unless it has
    /// no room for any entry and nothing was put in.
    pub open spec fn stored(self, item: Stored<T, S>) -> Self {
        CacheView {
            store: self.store.stored(item),
            dirty: self.dirty || self.store.capacity > 0,
        }
    }

    /// This cache without what was under the keys in `dropped`. It has to be saved
    /// again then, unless there was nothing.
    pub open spec fn purged(self, dropped: Set<PathKey>) -> Self {
        CacheView {
            store: self.store.without(dropped),
            dirty: self.dirty || !dropped.disjoint(self.store.contents.dom()),
        }
    }

    /// This cache emptied. It has to be saved again then, unless it was empty
    /// before.
    pub open spec fn cleared(self) -> Self {
        CacheView {
            store: StoreView::empty(self.store.capacity),
            dirty: self.dirty || !self.store.contents.dom().is_empty(),
        }
    }
}

impl<T: Clone, S: PartialEq> CacheView<T, S> {
    /// A file with stamp `stamp` is cached under `key`, and `value` is a clone
    /// of what it was parsed to.
    pub open spec fn hit(self, key: PathKey, stamp: S, value: T) -> bool {
        &&& self.store.contents.contains_key(key)
        &&& judged(self.store.contents[key].entry.stamp, stamp, true)
        &&& cloned(self.store.contents[key].entry.value, value)
    }

    /// Nothing is cached under `key` for a file with stamp `stamp`.
    pub open spec fn miss(self, key: PathKey, stamp: S) -> bool {
        self.store.contents.contains_key(key) ==> judged(
            self.store.contents[key].entry.stamp,
            stamp,
            false,
        )
    }

    /// `after` is this cache with a clone of `value` cached for the file at
    /// `path` with stamp `stamp`.
    pub open spec fn remembers(self, after: Self, path: PathBuf, stamp: S, value: T) -> bool {
        exists|copy: T|
            #![trigger cloned(value, copy)]
            cloned(value, copy) && after == self.stored(
                Stored { path, entry: Arc::new(Entry { stamp, value: copy }) },
            )
    }
}

/// `after` is what `get` leaves of `before`, and `result` what it answers, for the
/// file at `path` with stamp `stamp`: the cached value if the stamp matches;
/// otherwise what `parser` makes of the file, which is then cached unless it is
/// an error.
pub open spec fn gets<T, S, E, P>(
    before: CacheView<T, S>,
    after: CacheView<T, S>,
    path: PathBuf,
    stamp: S,
    parser: P,
    result: Result<T, E>,
) -> bool where T: Clone, S: PartialEq, P: FnOnce(&PathBuf) -> Result<T, E> {
    ||| {
        &&& result matches Ok(value)
        &&& before.hit(path_key(&path), stamp, value)
        &&& after == before.used(path_key(&path))
    }
    ||| {
        &&& before.miss(path_key(&path), stamp)
        &&& parser.ensures((&path,), result)
        &&& match result {
            Ok(value) => before.remembers(after, path, stamp, value),
            Err(_) => after == before.used(path_key(&path)),
        }
    }
}

/// `after` is what `get` leaves of `before`, and `result` what it answers, once
/// reading the file at `path` has given `reading`. If that failed the error is
/// passed on and nothing changes.
pub open spec fn gets_read<T, F, E, P>(
    before: CacheView<T, F::Stamp>,
    after: CacheView<T, F::Stamp>,
    fingerprint: F,
    path: PathBuf,
    reading: Result<F::Reading, io::Error>,
    parser: P,
    result: Result<T, E>,
) -> bool where
    T: Clone,
    F: Fingerprint,
    E: From<io::Error>,
    P: FnOnce(&PathBuf) -> Result<T, E>,
 {
    match reading {
        Err(error) => {
            &&& after == before
            &&& result matches Err(e)
            &&& call_ensures(<E as From<io::Error>>::from, (error,), e)
        },
        Ok(read) => exists|stamp: F::Stamp|
            #![trigger call_ensures(F::stamp, (&fingerprint, &read), stamp)]
            call_ensures(F::stamp, (&fingerprint, &read), stamp) && gets(
                before,
                after,
                path,
                stamp,
                parser,
                result,
            ),
    }
}

/// `parser` can be called for the file at `path` where the file was read and the
/// cache has nothing for its stamp. This is all that `get` asks of `parser`, and so
/// the only time that `get` calls it.
pub open spec fn parses_only_on_miss<T, F, E, P>(
    before: CacheView<T, F::Stamp>,
    fingerprint: F,
    path: PathBuf,
    reading: Result<F::Reading, io::Error>,
    parser: P,
) -> bool where T: Clone, F: Fingerprint, P: FnOnce(&PathBuf) -> Result<T, E> {
    reading matches Ok(read) ==> forall|stamp: F::Stamp|
        #![trigger call_ensures(F::stamp, (&fingerprint, &read), stamp)]
        call_ensures(F::stamp, (&fingerprint, &read), stamp) && before.miss(path_key(&path), stamp)
            ==> parser.requires((&path,))
}

/// `list` names every entry of `store` once, as its path was last spelled, and
/// nothing else.
pub open spec fn names<T, S>(store: StoreView<T, S>, list: Seq<PathBuf>) -> bool {
    &&& list.len() == store.len()
    &&& forall|i: int|
        0 <= i < list.len() ==> store.contents.contains_key(path_key(&#[trigger] list[i]))
            && store.contents[path_key(&list[i])].path == list[i]
    &&& forall|i: int, j: int|
        0 <= i < j < list.len() ==> path_key(&#[trigger] list[i]) != path_key(&#[trigger] list[j])
    &&& forall|k: PathKey| #[trigger]
        store.contents.contains_key(k) ==> exists|i: int|
            0 <= i < list.len() && path_key(&#[trigger] list[i]) == k
}

/// `dropped` are the keys of just those entries for whose paths `predicate`
/// answers `true`.
pub open spec fn selects<T, S, P>(store: StoreView<T, S>, predicate: P, dropped: Set<PathKey>) -> bool
    where P: Fn(&PathBuf) -> bool
{
    &&& dropped.subset_of(store.contents.dom())
    &&& forall|k: PathKey| #[trigger]
        store.contents.contains_key(k) ==> predicate.ensures(
            (&store.contents[k].path,),
            dropped.contains(k),
        )
}

/// Mtime-gated (or content-hash-gated) file parse cache.
///
/// On [`get`](Self::get), the fingerprint of the file is checked. If it matches
/// the cached stamp, the cached `T` is returned without parsing again. On a
/// mismatch or a cache miss the parser runs and its result is stored.
///
/// Backed by `moka::sync::Cache` with bounded-size LRU eviction.
#[verifier::reject_recursive_types(T)]
#[verifier::reject_recursive_types(F)]
pub struct FileParseCache<T, F: Fingerprint = MtimeFingerprint> {
    store: EntryStore<T, F::Stamp>,
    max_entries: u64,
    fingerprint: F,
    dirty: bool,
}

impl<T, F: Fingerprint> FileParseCache<T, F> {
    /// What the cache holds, and whether that has changed since it was last
    /// saved.
    pub closed spec fn view(&self) -> CacheView<T, F::Stamp> {
        CacheView { store: self.store@, dirty: self.dirty }
    }

    /// The fingerprint that the cache was made with.
    pub closed spec fn judge(&self) -> F {
        self.fingerprint
    }

    /// No work on the cache is pending, and it knows its capacity.
    pub closed spec fn settled(&self) -> bool {
        &&& self.store.is_settled()
        &&& self.max_entries == self.store@.capacity
    }

    /// What holds of every cache.
    pub open spec fn wf(&self) -> bool {
        &&& self@.store.wf()
        &&& self.settled()
    }
}

impl<T> FileParseCache<T, MtimeFingerprint> where T: Clone + Send + Sync + 'static {
    /// Creates a cache with mtime-based invalidation and room for `max_entries`
    /// files.
    pub fn new(max_entries: u64) -> (r: Self)
        ensures
            r.wf(),
            r@.store == StoreView::<T, MtimeStamp>::empty(max_entries as nat),
            !r@.dirty,
            r.judge() == MtimeFingerprint,
    {
        Self::with_fingerprint(max_entries, MtimeFingerprint)
    }
}

impl<T, F> FileParseCache<T, F> where T: Clone + Send + Sync + 'static, F: Fingerprint {
    /// Creates a cache with a custom fingerprint strategy.
    pub fn with_fingerprint(max_entries: u64, fingerprint: F) -> (r: Self)
        ensures
            r.wf(),
            r@.store == StoreView::<T, F::Stamp>::empty(max_entries as nat),
            !r@.dirty,
            r.judge() == fingerprint,
    {
        FileParseCache {
            store: EntryStore::new(max_entries),
            max_entries,
            fingerprint,
            dirty: false,
        }
    }

    /// The cached value for a file at `path` with stamp `stamp`.
    pub fn lookup(&mut self, path: &PathBuf, stamp: &F::Stamp) -> (r: Option<T>)
        requires
            old(self).wf(),
        ensures
            final(self).wf(),
            final(self).judge() == old(self).judge(),
            final(self)@ == old(self)@.used(path_key(path)),
            match r {
                Some(value) => old(self)@.hit(path_key(path), *stamp, value),
                None => old(self)@.miss(path_key(path), *stamp),
            },
    {
        let found = self.store.fetch(path);
        if let Some(entry) = found {
            if entry.stamp == *stamp {
                return Some(entry.value.clone());
            }
        }
        None
    }

    /// Caches a clone of `value` for the file at `path` with stamp `stamp`.
    pub fn remember(&mut self, path: &PathBuf, stamp: F::Stamp, value: &T)
        requires
            old(self).wf(),
        ensures
            final(self).wf(),
            final(self).judge() == old(self).judge(),
            old(self)@.remembers(final(self)@, *path, stamp, *value),
    {
        let copy = value.clone();
        let entry = Arc::new(Entry { stamp, value: copy });
        self.store.put(paths::owned(path), entry);
        if self.max_entries > 0 {
            self.dirty = true;
        }
        proof {
            assert(cloned(*value, copy));
            assert(self@ == old(self)@.stored(Stored { path: *path, entry }));
        }
    }

    /// Returns the cached value for `path`, or parses the file via `parser` on a
    /// miss or a fingerprint change, given what was read of the file to stamp it.
    ///
    /// If reading failed, the error is passed on and `parser` is not called.
    pub fn get_read<E>(
        &mut self,
        path: &PathBuf,
        reading: Result<F::Reading, io::Error>,
        parser: impl FnOnce(&PathBuf) -> Result<T, E>,
    ) -> (r: Result<T, E>) where E: From<io::Error> + Send + Sync + 'static
        requires
            old(self).wf(),
            parses_only_on_miss(old(self)@, old(self).judge(), *path, reading, parser),
        ensures
            final(self).wf(),
            final(self).judge() == old(self).judge(),
            gets_read(old(self)@, final(self)@, old(self).judge(), *path, reading, parser, r),
    {
        let read = match reading {
            Ok(read) => read,
            Err(error) => return Err(E::from(error)),
        };
        let stamp = self.fingerprint.stamp(&read);

        if let Some(value) = self.lookup(path, &stamp) {
            return Ok(value);
        }
        let ghost mid = self@;
        let value = match parser(path) {
            Ok(value) => value,
            Err(error) => return Err(error),
        };
        self.remember(path, stamp, &value);
        proof {
            let copy = choose|copy: T|
                #![trigger cloned(value, copy)]
                cloned(value, copy) && self@ == mid.stored(
                    Stored { path: *path, entry: Arc::new(Entry { stamp, value: copy }) },
                );
            old(self)@.store.lemma_used_then_stored(
                Stored { path: *path, entry: Arc::new(Entry { stamp, value: copy }) },
            );
        }
        Ok(value)
    }

    /// Returns the cached value for `path`, or parses the file via `parser` on a
    /// miss or a fingerprint change. `read` reads of the file what the
    /// fingerprint needs.
    ///
    /// On unreadable files (missing, permissions) `read` fails, and the call
    /// returns `Err(E::from(io::Error))` without invoking `parser`.
    pub fn get<E>(
        &mut self,
        path: &PathBuf,
        read: impl FnOnce(&PathBuf) -> Result<F::Reading, io::Error>,
        parser: impl FnOnce(&PathBuf) -> Result<T, E>,
    ) -> (r: Result<T, E>) where E: From<io::Error> + Send + Sync + 'static
        requires
            old(self).wf(),
            read.requires((path,)),
            forall|reading: Result<F::Reading, io::Error>| #[trigger]
                read.ensures((path,), reading) ==> parses_only_on_miss(
                    old(self)@,
                    old(self).judge(),
                    *path,
                    reading,
                    parser,
                ),
        ensures
            final(self).wf(),
            final(self).judge() == old(self).judge(),
            exists|reading: Result<F::Reading, io::Error>|
                #![trigger read.ensures((path,), reading)]
                read.ensures((path,), reading) && gets_read(
                    old(self)@,
                    final(self)@,
                    old(self).judge(),
                    *path,
                    reading,
                    parser,
                    r,
                ),
    {
        let reading = read(path);
        self.get_read(path, reading, parser)
    }

    /// The paths of all entries, in some order.
    pub fn paths(&self) -> (r: Vec<PathBuf>)
        ensures
            names(self@.store, r@),
    {
        let items = self.store.iter();
        let mut list: Vec<PathBuf> = Vec::new();
        let mut i: usize = 0;
        while i < items.len()
            invariant
                i <= items.len(),
                list.len() == i,
                forall|j: int| 0 <= j < i ==> #[trigger] list@[j] == items@[j].path,
            decreases items.len() - i,
        {
            list.push(paths::owned(&items[i].path));
            i += 1;
        }
        proof {
            let store = self@.store;
            assert forall|i: int| 0 <= i < list.len() implies store.contents.contains_key(
                path_key(&#[trigger] list@[i]),
            ) && store.contents[path_key(&list@[i])].path == list@[i] by {
                assert(store.contents.contains_key(items@[i].key()));
            }
            assert forall|i: int, j: int| 0 <= i < j < list.len() implies path_key(
                &#[trigger] list@[i],
            ) != path_key(&#[trigger] list@[j]) by {
                assert(items@[i].key() != items@[j].key());
            }
            assert forall|k: PathKey| #[trigger] store.contents.contains_key(k) implies exists|i: int|
                0 <= i < list.len() && path_key(&#[trigger] list@[i]) == k by {
                let i = choose|i: int| 0 <= i < items.len() && (#[trigger] items@[i]).key() == k;
                assert(path_key(&list@[i]) == k);
            }
        }
        list
    }

    /// Removes the entries of the files at the paths listed.
    pub fn purge(&mut self, list: &Vec<PathBuf>)
        requires
            old(self).wf(),
        ensures
            final(self).wf(),
            final(self).judge() == old(self).judge(),
            final(self)@ == old(self)@.purged(keys_of(list@)),
    {
        let before: u64 = self.store.entry_count();
        self.store.discard(list);
        let after: u64 = self.store.entry_count();
        if after != before {
            self.dirty = true;
        }
        proof {
            let dropped = keys_of(list@);
            let all = old(self)@.store.contents.dom();
            let left = self@.store.contents.dom();
            old(self)@.store.lemma_len();
            assert(left.subset_of(all));
            lemma_len_subset(left, all);
            if after == before {
                lemma_subset_equality(left, all);
                assert(dropped.disjoint(all));
            } else if dropped.disjoint(all) {
                assert(left =~= all);
            }
        }
    }

    /// Removes entries for which `predicate` returns `true`.
    ///
    /// Takes a snapshot via iteration, then invalidates matching paths one by
    /// one. Invalidated entries become immediately invisible to
    /// [`get`](Self::get).
    ///
    /// Allocates O(cache size) for the snapshot.
    pub fn purge_if(&mut self, predicate: impl Fn(&PathBuf) -> bool)
        requires
            old(self).wf(),
            forall|k: PathKey| #[trigger]
                old(self)@.store.contents.contains_key(k) ==> predicate.requires(
                    (&old(self)@.store.contents[k].path,),
                ),
        ensures
            final(self).wf(),
            final(self).judge() == old(self).judge(),
            exists|dropped: Set<PathKey>|
                selects(old(self)@.store, predicate, dropped) && final(self)@
                    == #[trigger] old(self)@.purged(dropped),
    {
        let list = self.paths();
        let mut doomed: Vec<PathBuf> = Vec::new();
        let mut i: usize = 0;
        let ghost mut marks: Seq<bool> = Seq::empty();
        while i < list.len()
            invariant
                i <= list.len(),
                marks.len() == i,
                names(self@.store, list@),
                forall|k: PathKey| #[trigger]
                    self@.store.contents.contains_key(k) ==> predicate.requires(
                        (&self@.store.contents[k].path,),
                    ),
                forall|j: int|
                    0 <= j < i ==> predicate.ensures((&#[trigger] list@[j],), marks[j]),
                forall|j: int| 0 <= j < i && marks[j] ==> doomed@.contains(#[trigger] list@[j]),
                forall|p: PathBuf| #[trigger]
                    doomed@.contains(p) ==> exists|j: int|
                        0 <= j < i && marks[j] && #[trigger] list@[j] == p,
            decreases list.len() - i,
        {
            let path = &list[i];
            assert(self@.store.contents.contains_key(path_key(&list@[i as int])));
            let ghost sofar = doomed@;
            if predicate(path) {
                doomed.push(paths::owned(path));
                proof {
                    marks = marks.push(true);
                    assert(doomed@[sofar.len() as int] == *path);
                    assert forall|p: PathBuf| #[trigger] doomed@.contains(p) implies sofar.contains(p)
                        || p == *path by {
                        let j = choose|j: int| 0 <= j < doomed.len() && doomed@[j] == p;
                        if j < sofar.len() {
                            assert(sofar[j] == p);
                        }
                    }
                    assert forall|p: PathBuf| #[trigger] sofar.contains(p) implies doomed@.contains(
                        p,
                    ) by {
                        let j = choose|j: int| 0 <= j < sofar.len() && sofar[j] == p;
                        assert(doomed@[j] == p);
                    }
                }
            } else {
                proof {
                    marks = marks.push(false);
                }
            }
            i += 1;
        }
        proof {
            lemma_selected(self@.store, list@, marks, doomed@, predicate);
        }
        self.purge(&doomed);
    }

    /// Removes all entries.
    ///
    /// They are dropped one by one: an invalidation by time would spare an entry
    /// that was written at the very instant of the call.
    pub fn clear(&mut self)
        requires
            old(self).wf(),
        ensures
            final(self).wf(),
            final(self).judge() == old(self).judge(),
            final(self)@ == old(self)@.cleared(),
    {
        let list = self.paths();
        self.purge(&list);
        proof {
            let before = old(self)@.store;
            let dropped = keys_of(list@);
            assert forall|k: PathKey| #[trigger] before.contents.contains_key(k) <==> dropped.contains(
                k,
            ) by {
                if before.contents.contains_key(k) {
                    let i = choose|i: int| 0 <= i < list.len() && path_key(&#[trigger] list@[i]) == k;
                    assert(path_key(&list@[i]) == k);
                }
            }
            assert(before.contents.remove_keys(dropped) =~= Map::empty());
            assert forall|k: PathKey| !self@.store.order.contains(k) by {
                assert(self@.store.contents.contains_key(k) <==> self@.store.order.contains(k));
            }
            if self@.store.order.len() > 0 {
                assert(self@.store.order.contains(self@.store.order[0]));
            }
            assert(self@.store =~= StoreView::empty(before.capacity));
            if !before.contents.dom().is_empty() {
                let k = before.contents.dom().choose();
                assert(before.contents.contains_key(k));
                assert(dropped.contains(k));
            }
        }
    }

    /// Number of entries currently in the cache.
    ///
    /// Immediately consistent with preceding `get`, `purge_if`, and `clear` calls.
    pub fn len(&self) -> (r: u64)
        requires
            self.wf(),
        ensures
            r == self@.store.len(),
            r <= self@.store.capacity,
    {
        proof {
            self@.store.lemma_len();
        }
        self.store.entry_count()
    }

    /// Whether the cache is empty.
    ///
    /// Same consistency as [`len`](Self::len).
    pub fn is_empty(&self) -> (r: bool)
        requires
            self.wf(),
        ensures
            r == (self@.store.len() == 0),
            r == self@.store.contents.dom().is_empty(),
    {
        proof {
            self@.store.lemma_len();
            if self@.store.len() == 0 {
                assert(self@.store.contents.dom() =~= Set::empty());
            }
        }
        self.len() == 0
    }
}

/// The keys of the paths that were picked are those that the predicate selects.
proof fn lemma_selected<T, S, P>(
    store: StoreView<T, S>,
    list: Seq<PathBuf>,
    marks: Seq<bool>,
    doomed: Seq<PathBuf>,
    predicate: P,
) where P: Fn(&PathBuf) -> bool
    requires
        names(store, list),
        marks.len() == list.len(),
        forall|j: int| 0 <= j < list.len() ==> predicate.ensures((&#[trigger] list[j],), marks[j]),
        forall|j: int| 0 <= j < list.len() && marks[j] ==> doomed.contains(#[trigger] list[j]),
        forall|p: PathBuf| #[trigger]
            doomed.contains(p) ==> exists|j: int|
                0 <= j < list.len() && marks[j] && #[trigger] list[j] == p,
    ensures
        selects(store, predicate, keys_of(doomed)),
{
    let dropped = keys_of(doomed);
    assert forall|k: PathKey| #[trigger] dropped.contains(k) implies exists|j: int|
        0 <= j < list.len() && marks[j] && path_key(&#[trigger] list[j]) == k by {
        let i = choose|i: int| 0 <= i < doomed.len() && path_key(&#[trigger] doomed[i]) == k;
        assert(doomed.contains(doomed[i]));
        let j = choose|j: int| 0 <= j < list.len() && marks[j] && #[trigger] list[j] == doomed[i];
        assert(path_key(&list[j]) == k);
    }
    assert forall|k: PathKey| #[trigger] store.contents.contains_key(k) implies predicate.ensures(
        (&store.contents[k].path,),
        dropped.contains(k),
    ) by {
        let j = choose|j: int| 0 <= j < list.len() && path_key(&#[trigger] list[j]) == k;
        assert(store.contents[k].path == list[j]);
        assert(predicate.ensures((&list[j],), marks[j]));
        if marks[j] {
            assert(doomed.contains(list[j]));
            let i = choose|i: int| 0 <= i < doomed.len() && doomed[i] == list[j];
            assert(path_key(&doomed[i]) == k);
        }
        if dropped.contains(k) {
            let i = choose|i: int| 0 <= i < list.len() && marks[i] && path_key(&#[trigger] list[i]) == k;
            if i < j {
                assert(path_key(&list[i]) != path_key(&list[j]));
            } else if j < i {
                assert(path_key(&list[j]) != path_key(&list[i]));
            }
        }
    }
}

/// What saving and loading need of a cache.
impl<T, F> FileParseCache<T, F> where T: Clone + Send + Sync + 'static, F: Fingerprint {
    /// Clears the dirty flag and returns what it was.
    pub(crate) fn take_dirty(&mut self) -> (r: bool)
        requires
            old(self).wf(),
        ensures
            final(self).wf(),
            final(self).judge() == old(self).judge(),
            final(self)@ == (CacheView { dirty: false, ..old(self)@ }),
            r == old(self)@.dirty,
    {
        let was = self.dirty;
        self.dirty = false;
        was
    }

    /// Sets the dirty flag.
    pub(crate) fn mark_dirty(&mut self)
        requires
            old(self).wf(),
        ensures
            final(self).wf(),
            final(self).judge() == old(self).judge(),
            final(self)@ == (CacheView { dirty: true, ..old(self)@ }),
    {
        self.dirty = true;
    }

    /// All that is cached, in some order.
    pub(crate) fn items(&self) -> (r: Vec<Stored<T, F::Stamp>>)
        ensures
            self@.store.lists(r@),
    {
        self.store.iter()
    }

    /// The stamp of a file of which `reading` was read.
    pub(crate) fn stamp(&self, reading: &F::Reading) -> (r: F::Stamp)
        ensures
            call_ensures(F::stamp, (&self.judge(), reading), r),
    {
        self.fingerprint.stamp(reading)
    }

    /// Caches `entry` under `path`, without setting the dirty flag.
    pub(crate) fn put_back(&mut self, path: PathBuf, entry: Entry<T, F::Stamp>)
        requires
            old(self).wf(),
        ensures
            final(self).wf(),
            final(self).judge() == old(self).judge(),
            final(self)@ == (CacheView {
                store: old(self)@.store.stored(Stored { path, entry: Arc::new(entry) }),
                ..old(self)@
            }),
    {
        self.store.put(path, Arc::new(entry));
    }
}

} // verus!
