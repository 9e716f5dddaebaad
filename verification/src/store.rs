//! The bounded map behind the cache: `moka::sync::Cache` with its LRU policy, and
//! what is known of its contents.
//!
//! `moka` notes what is read and written and works the notes off later. The store
//! has them worked off after every single call, so that the order in which the
//! entries were used is known at all times, and with it what leaves when there is
//! no room. The cache is held in a private field, never cloned, and every call
//! that can change it takes `&mut self`, so no other thread interferes.

use moka::policy::EvictionPolicy;
use moka::sync::Cache;
use std::hash::RandomState;
use std::path::PathBuf;
use std::sync::Arc;
use vstd::prelude::*;

use crate::paths::{keys_of, lemma_keys_of_push, path_key, PathKey};

verus! {

/// `moka::sync::Cache`, opaque here.
#[verifier::external_type_specification]
#[verifier::external_body]
#[verifier::reject_recursive_types(K)]
#[verifier::reject_recursive_types(V)]
#[verifier::reject_recursive_types(S)]
pub struct ExCache<K, V, S>(Cache<K, V, S>);

/// A parsed value together with the stamp of the file it was parsed from.
#[derive(Debug)]
pub struct Entry<T, S> {
    pub stamp: S,
    pub value: T,
}

/// An entry and the path it is stored under, as that path was last spelled.
#[derive(Debug)]
pub struct Stored<T, S> {
    pub path: PathBuf,
    pub entry: Arc<Entry<T, S>>,
}

impl<T, S> Stored<T, S> {
    /// What the entry is found by.
    pub open spec fn key(self) -> PathKey {
        path_key(&self.path)
    }
}

/// What is left of `order` without the keys in `dropped`.
pub open spec fn kept(order: Seq<PathKey>, dropped: Set<PathKey>) -> Seq<PathKey>
    decreases order.len(),
{
    if order.len() == 0 {
        order
    } else {
        let rest = kept(order.drop_last(), dropped);
        if dropped.contains(order.last()) {
            rest
        } else {
            rest.push(order.last())
        }
    }
}

/// What a store holds.
#[verifier::ext_equal]
#[verifier::reject_recursive_types(T)]
#[verifier::reject_recursive_types(S)]
pub struct StoreView<T, S> {
    /// The entries that can be looked up.
    pub contents: Map<PathKey, Stored<T, S>>,
    /// The keys of the entries, from the least to the most recently used.
    pub order: Seq<PathKey>,
    /// The number of entries the store was made for.
    pub capacity: nat,
}

impl<T, S> StoreView<T, S> {
    /// A store that holds nothing.
    pub open spec fn empty(capacity: nat) -> Self {
        StoreView { contents: Map::empty(), order: Seq::empty(), capacity }
    }

    /// The number of entries.
    pub open spec fn len(self) -> nat {
        self.contents.dom().len()
    }

    /// What holds of every store: it keeps within its capacity, each entry is
    /// found by its own path, and each has one place in the order of use.
    pub open spec fn wf(self) -> bool {
        &&& self.order.no_duplicates()
        &&& self.order.len() <= self.capacity
        &&& forall|k: PathKey| #[trigger] self.contents.contains_key(k) <==> self.order.contains(k)
        &&& forall|k: PathKey| #[trigger]
            self.contents.contains_key(k) ==> self.contents[k].key() == k
    }

    /// This store after what is under `key` was used, if there is anything.
    pub open spec fn used(self, key: PathKey) -> Self {
        if self.contents.contains_key(key) {
            StoreView { order: kept(self.order, set![key]).push(key), ..self }
        } else {
            self
        }
    }

    /// This store without what was under the keys in `dropped`.
    pub open spec fn without(self, dropped: Set<PathKey>) -> Self {
        StoreView {
            contents: self.contents.remove_keys(dropped),
            order: kept(self.order, dropped),
            ..self
        }
    }

    /// This store with `item` added as the most recently used entry. A store of
    /// capacity 0 takes nothing.
    pub open spec fn extended(self, item: Stored<T, S>) -> Self {
        if self.capacity == 0 {
            self
        } else {
            StoreView {
                contents: self.contents.insert(item.key(), item),
                order: self.order.push(item.key()),
                ..self
            }
        }
    }

    /// This store cut down to its capacity: what was used least recently leaves.
    pub open spec fn trimmed(self) -> Self {
        if self.order.len() <= self.capacity {
            self
        } else {
            let n = self.order.len() - self.capacity;
            StoreView {
                contents: self.contents.remove_keys(self.order.take(n).to_set()),
                order: self.order.skip(n),
                ..self
            }
        }
    }

    /// This store with `item` put in, in place of what was stored under its key.
    /// If there is no room, the entry that was used least recently leaves. A store
    /// of capacity 0 takes nothing.
    pub open spec fn stored(self, item: Stored<T, S>) -> Self {
        if self.capacity == 0 {
            self
        } else {
            let others = self.without(set![item.key()]);
            if others.order.len() < self.capacity {
                others.extended(item)
            } else {
                others.without(set![others.order[0]]).extended(item)
            }
        }
    }

    /// `found` is what is stored under `key`.
    pub open spec fn holds(self, key: PathKey, found: Option<Arc<Entry<T, S>>>) -> bool {
        match found {
            Some(entry) => self.contents.contains_key(key) && self.contents[key].entry == entry,
            None => !self.contents.contains_key(key),
        }
    }

    /// `items` lists all that is stored, each entry once, in some order.
    pub open spec fn lists(self, items: Seq<Stored<T, S>>) -> bool {
        &&& items.len() == self.len()
        &&& forall|i: int|
            0 <= i < items.len() ==> {
                let key = (#[trigger] items[i]).key();
                self.contents.contains_key(key) && self.contents[key] == items[i]
            }
        &&& forall|i: int, j: int|
            0 <= i < j < items.len() ==> (#[trigger] items[i]).key() != (#[trigger] items[j]).key()
        &&& forall|k: PathKey| #[trigger]
            self.contents.contains_key(k) ==> exists|i: int|
                0 <= i < items.len() && (#[trigger] items[i]).key() == k
    }
}

/// A bounded map from paths to entries.
#[verifier::reject_recursive_types(T)]
#[verifier::reject_recursive_types(S)]
pub struct EntryStore<T, S> {
    inner: Cache<PathBuf, Arc<Entry<T, S>>, RandomState>,
    /// What `inner` holds. Only the functions that call `inner` change it, each as
    /// its contract says.
    model: Ghost<StoreView<T, S>>,
    /// Whether `inner` has no work pending.
    settled: Ghost<bool>,
}

impl<T, S> EntryStore<T, S> {
    /// What the store holds.
    pub closed spec fn view(&self) -> StoreView<T, S> {
        self.model@
    }

    /// No work on the store is pending.
    pub closed spec fn is_settled(&self) -> bool {
        self.settled@
    }
}

/// The calls of `moka`. All but `iter` ask for a store with no work pending, or
/// leave one.
impl<T, S> EntryStore<T, S> where T: Clone + Send + Sync + 'static, S: Send + Sync + 'static {
    /// Calls `moka::sync::Cache::builder` for a cache with the LRU policy. Claimed:
    /// the cache is empty and has the capacity given.
    #[verifier::external_body]
    pub(crate) fn new(max_entries: u64) -> (r: Self)
        ensures
            r@ == (StoreView::<T, S>::empty(max_entries as nat)),
            r.is_settled(),
    {
        EntryStore {
            inner: Cache::builder()
                .max_capacity(max_entries)
                .eviction_policy(EvictionPolicy::lru())
                .build(),
            model: Ghost(StoreView::empty(max_entries as nat)),
            settled: Ghost(true),
        }
    }

    /// Calls `moka::sync::Cache::get`. Claimed: it answers the entry stored under
    /// a path equal to `path`, if there is one, which then counts as the most
    /// recently used.
    #[verifier::external_body]
    fn get(&mut self, path: &PathBuf) -> (r: Option<Arc<Entry<T, S>>>)
        requires
            old(self).is_settled(),
        ensures
            old(self)@.holds(path_key(path), r),
            final(self)@ == old(self)@.used(path_key(path)),
    {
        self.inner.get(path)
    }

    /// Calls `moka::sync::Cache::insert`, for a path that nothing is stored under.
    /// Claimed: the entry is stored under the path, as the most recently used, even
    /// if that is one too many for now. A cache of capacity 0 takes nothing.
    ///
    /// An entry that is in the cache already is never written over: `moka` counts
    /// the writes to an entry in 16 bits, and passes over it when it evicts once
    /// that count has wrapped.
    #[verifier::external_body]
    fn insert(&mut self, path: PathBuf, entry: Arc<Entry<T, S>>)
        requires
            old(self).is_settled(),
            !old(self)@.contents.contains_key(path_key(&path)),
        ensures
            final(self)@ == old(self)@.extended((Stored { path, entry })),
    {
        self.inner.insert(path, entry)
    }

    /// Calls `moka::sync::Cache::invalidate`. Claimed: what was stored under a
    /// path equal to `path` is gone, and the others stay.
    #[verifier::external_body]
    fn invalidate(&mut self, path: &PathBuf)
        requires
            old(self).is_settled(),
        ensures
            final(self)@ == old(self)@.without(set![path_key(path)]),
    {
        self.inner.invalidate(path)
    }

    /// Calls `moka::sync::Cache::run_pending_tasks`. Claimed: what exceeds the
    /// capacity leaves, the least recently used first, and no work is pending.
    #[verifier::external_body]
    fn run_pending_tasks(&mut self)
        ensures
            final(self)@ == old(self)@.trimmed(),
            final(self).is_settled(),
    {
        self.inner.run_pending_tasks()
    }

    /// Calls `moka::sync::Cache::entry_count`. Claimed: with no work pending it is
    /// the number of entries stored.
    #[verifier::external_body]
    pub(crate) fn entry_count(&self) -> (r: u64)
        requires
            self.is_settled(),
        ensures
            r == self@.len(),
    {
        self.inner.entry_count()
    }

    /// Calls `moka::sync::Cache::iter`. Claimed: it visits every entry stored,
    /// once, and does not count as a use of any. The order is left open.
    #[verifier::external_body]
    pub(crate) fn iter(&self) -> (r: Vec<Stored<T, S>>)
        ensures
            self@.lists(r@),
    {
        self.inner.iter().map(|(path, entry)| Stored { path: (*path).clone(), entry }).collect()
    }
}

impl<T, S> EntryStore<T, S> where T: Clone + Send + Sync + 'static, S: Send + Sync + 'static {
    /// What is stored under `path`.
    pub(crate) fn fetch(&mut self, path: &PathBuf) -> (r: Option<Arc<Entry<T, S>>>)
        requires
            old(self)@.wf(),
            old(self).is_settled(),
        ensures
            final(self)@.wf(),
            final(self).is_settled(),
            old(self)@.holds(path_key(path), r),
            final(self)@ == old(self)@.used(path_key(path)),
    {
        let found = self.get(path);
        proof {
            old(self)@.lemma_used_wf(path_key(path));
        }
        self.run_pending_tasks();
        found
    }

    /// Puts `entry` in under `path`.
    pub(crate) fn put(&mut self, path: PathBuf, entry: Arc<Entry<T, S>>)
        requires
            old(self)@.wf(),
            old(self).is_settled(),
        ensures
            final(self)@.wf(),
            final(self).is_settled(),
            final(self)@ == old(self)@.stored((Stored { path, entry })),
    {
        let ghost item = Stored { path, entry };
        proof {
            old(self)@.lemma_without_wf(set![item.key()]);
            old(self)@.lemma_stored(item);
        }
        self.invalidate(&path);
        self.run_pending_tasks();
        self.insert(path, entry);
        self.run_pending_tasks();
    }

    /// Drops what is stored under the paths listed.
    pub(crate) fn discard(&mut self, list: &Vec<PathBuf>)
        requires
            old(self)@.wf(),
            old(self).is_settled(),
        ensures
            final(self)@.wf(),
            final(self).is_settled(),
            final(self)@ == old(self)@.without(keys_of(list@)),
    {
        let mut i: usize = 0;
        proof {
            assert(keys_of(list@.take(0)) =~= Set::empty());
            lemma_kept_all(old(self)@.order, Set::empty());
            assert(old(self)@.without(Set::empty()) =~= old(self)@);
        }
        while i < list.len()
            invariant
                i <= list.len(),
                old(self)@.wf(),
                self@.wf(),
                self.is_settled(),
                self@ == old(self)@.without(keys_of(list@.take(i as int))),
            decreases list.len() - i,
        {
            let ghost mid = self@;
            self.invalidate(&list[i]);
            proof {
                let key = path_key(&list@[i as int]);
                let sofar = keys_of(list@.take(i as int));
                mid.lemma_without_wf(set![key]);
                assert(list@.take(i + 1) =~= list@.take(i as int).push(list@[i as int]));
                lemma_keys_of_push(list@.take(i as int), list@[i as int]);
                lemma_kept_twice(old(self)@.order, sofar, set![key]);
                assert(sofar.union(set![key]) =~= sofar.insert(key));
                assert(mid.without(set![key]) =~= old(self)@.without(sofar.insert(key)));
            }
            self.run_pending_tasks();
            i += 1;
        }
        proof {
            assert(list@.take(list.len() as int) =~= list@);
        }
    }
}

// ---------------------------------------------------------------------------
// The order of use
// ---------------------------------------------------------------------------

/// What is left is what was there and is not dropped, each key once.
pub(crate) proof fn lemma_kept(order: Seq<PathKey>, dropped: Set<PathKey>)
    ensures
        kept(order, dropped).len() <= order.len(),
        forall|k: PathKey| #[trigger]
            kept(order, dropped).contains(k) <==> order.contains(k) && !dropped.contains(k),
        order.no_duplicates() ==> kept(order, dropped).no_duplicates(),
    decreases order.len(),
{
    if order.len() > 0 {
        let fewer = order.drop_last();
        let rest = kept(fewer, dropped);
        let all = kept(order, dropped);
        lemma_kept(fewer, dropped);
        assert forall|k: PathKey| #[trigger] order.contains(k) <==> fewer.contains(k) || k
            == order.last() by {
            if order.contains(k) {
                let i = choose|i: int| 0 <= i < order.len() && order[i] == k;
                if i < fewer.len() {
                    assert(fewer[i] == k);
                }
            }
            if fewer.contains(k) {
                let i = choose|i: int| 0 <= i < fewer.len() && fewer[i] == k;
                assert(order[i] == k);
            }
            if k == order.last() {
                assert(order[order.len() - 1] == k);
            }
        }
        if !dropped.contains(order.last()) {
            assert(all == rest.push(order.last()));
            assert forall|k: PathKey| #[trigger] all.contains(k) <==> rest.contains(k) || k
                == order.last() by {
                if all.contains(k) {
                    let i = choose|i: int| 0 <= i < all.len() && all[i] == k;
                    if i < rest.len() {
                        assert(rest[i] == k);
                    }
                }
                if rest.contains(k) {
                    let i = choose|i: int| 0 <= i < rest.len() && rest[i] == k;
                    assert(all[i] == k);
                }
                if k == order.last() {
                    assert(all[rest.len() as int] == k);
                }
            }
            if order.no_duplicates() {
                assert(!fewer.contains(order.last()));
                assert(!rest.contains(order.last()));
                assert(forall|i: int| 0 <= i < rest.len() ==> rest.contains(#[trigger] rest[i]));
            }
        }
    }
}

/// Dropping keys that are not there changes nothing.
pub(crate) proof fn lemma_kept_all(order: Seq<PathKey>, dropped: Set<PathKey>)
    requires
        forall|k: PathKey| #[trigger] order.contains(k) ==> !dropped.contains(k),
    ensures
        kept(order, dropped) == order,
    decreases order.len(),
{
    if order.len() > 0 {
        let fewer = order.drop_last();
        assert forall|k: PathKey| #[trigger] fewer.contains(k) implies !dropped.contains(k) by {
            let i = choose|i: int| 0 <= i < fewer.len() && fewer[i] == k;
            assert(order[i] == k);
            assert(order.contains(k));
        }
        lemma_kept_all(fewer, dropped);
        assert(order.contains(order.last()));
        assert(fewer.push(order.last()) =~= order);
    }
}

/// Dropping keys twice is dropping both sets at once.
pub(crate) proof fn lemma_kept_twice(order: Seq<PathKey>, first: Set<PathKey>, second: Set<PathKey>)
    ensures
        kept(kept(order, first), second) == kept(order, first.union(second)),
    decreases order.len(),
{
    if order.len() > 0 {
        lemma_kept_twice(order.drop_last(), first, second);
        let rest = kept(order.drop_last(), first);
        if !first.contains(order.last()) {
            assert(rest.push(order.last()).drop_last() =~= rest);
        }
    }
}

/// Dropping the first of distinct keys leaves the others.
proof fn lemma_kept_first(order: Seq<PathKey>)
    requires
        order.len() > 0,
        order.no_duplicates(),
    ensures
        kept(order, set![order[0]]) == order.skip(1),
    decreases order.len(),
{
    let fewer = order.drop_last();
    if fewer.len() > 0 {
        assert(fewer.no_duplicates());
        lemma_kept_first(fewer);
        assert(order.last() != order[0]);
        assert(fewer.skip(1).push(order.last()) =~= order.skip(1));
    } else {
        assert(kept(fewer, set![order[0]]) =~= Seq::empty());
        assert(order.skip(1) =~= Seq::empty());
    }
}

// ---------------------------------------------------------------------------
// What every change of a store keeps, and how changes compose
// ---------------------------------------------------------------------------

impl<T, S> StoreView<T, S> {
    /// There are as many entries as there are places in the order.
    pub(crate) proof fn lemma_len(self)
        requires
            self.wf(),
        ensures
            self.len() == self.order.len(),
            self.contents.dom().finite(),
    {
        self.order.unique_seq_to_set();
        assert(self.contents.dom() =~= self.order.to_set());
    }

    pub(crate) proof fn lemma_used_wf(self, key: PathKey)
        requires
            self.wf(),
        ensures
            self.used(key).wf(),
            self.used(key).trimmed() == self.used(key),
    {
        if self.contents.contains_key(key) {
            let rest = kept(self.order, set![key]);
            self.lemma_without_wf(set![key]);
            self.lemma_without_one(key);
            lemma_kept(self.order, set![key]);
            let all = rest.push(key);
            lemma_push(rest, key);
            assert(forall|k: PathKey| #[trigger] all.contains(k) <==> self.order.contains(k));
        }
    }

    pub(crate) proof fn lemma_without_wf(self, dropped: Set<PathKey>)
        requires
            self.wf(),
        ensures
            self.without(dropped).wf(),
            self.without(dropped).trimmed() == self.without(dropped),
    {
        lemma_kept(self.order, dropped);
    }

    /// Dropping an entry leaves one less.
    pub(crate) proof fn lemma_without_one(self, key: PathKey)
        requires
            self.wf(),
            self.contents.contains_key(key),
        ensures
            self.without(set![key]).order.len() == self.order.len() - 1,
    {
        let less = self.without(set![key]);
        self.lemma_without_wf(set![key]);
        self.lemma_len();
        less.lemma_len();
        assert(less.contents.dom() =~= self.contents.dom().remove(key));
    }

    /// Putting an entry in keeps a store well-formed, and is dropping what was
    /// there, adding the entry, and cutting down to the capacity.
    pub(crate) proof fn lemma_stored(self, item: Stored<T, S>)
        requires
            self.wf(),
        ensures
            self.stored(item).wf(),
            self.without(set![item.key()]).extended(item).trimmed() == self.stored(item),
    {
        let key = item.key();
        let others = self.without(set![key]);
        self.lemma_without_wf(set![key]);
        lemma_kept(self.order, set![key]);
        if self.capacity == 0 {
            assert(self.order =~= Seq::empty());
            assert(others.order =~= Seq::empty());
            assert(others.contents =~= self.contents) by {
                assert(forall|k: PathKey| !self.contents.contains_key(k));
            }
            assert(others =~= self);
        } else if others.order.len() < self.capacity {
            others.lemma_extended_wf(item);
        } else {
            let first = others.order[0];
            let room = others.without(set![first]);
            assert(others.order.contains(first));
            others.lemma_without_wf(set![first]);
            others.lemma_without_one(first);
            lemma_kept(others.order, set![first]);
            lemma_kept_first(others.order);
            room.lemma_extended_wf(item);
            let full = others.extended(item);
            assert(full.order.take(1) =~= seq![first]);
            assert(seq![first].to_set() =~= set![first]) by {
                assert(seq![first][0] == first);
            }
            assert(full.order.skip(1) =~= room.order.push(key));
            assert(full.contents.remove_keys(set![first]) =~= room.contents.insert(key, item));
        }
    }

    /// Adding an entry where there is room keeps a store well-formed.
    proof fn lemma_extended_wf(self, item: Stored<T, S>)
        requires
            self.wf(),
            self.order.len() < self.capacity,
            !self.contents.contains_key(item.key()),
        ensures
            self.extended(item).wf(),
    {
        lemma_push(self.order, item.key());
    }

    /// Using what is under a key before putting an entry in there makes no
    /// difference.
    pub(crate) proof fn lemma_used_then_stored(self, item: Stored<T, S>)
        requires
            self.wf(),
        ensures
            self.used(item.key()).stored(item) == self.stored(item),
    {
        let key = item.key();
        if self.contents.contains_key(key) {
            let rest = kept(self.order, set![key]);
            lemma_kept(self.order, set![key]);
            lemma_kept_all(rest, set![key]);
            assert(rest.push(key).drop_last() =~= rest);
            assert(kept(rest.push(key), set![key]) == rest);
            assert(self.used(key).without(set![key]) =~= self.without(set![key]));
            if self.capacity == 0 {
                assert(self.order.contains(key));
            }
        }
    }
}

/// A key added to distinct others.
proof fn lemma_push(rest: Seq<PathKey>, key: PathKey)
    ensures
        forall|k: PathKey| #[trigger] rest.push(key).contains(k) <==> rest.contains(k) || k == key,
        rest.no_duplicates() && !rest.contains(key) ==> rest.push(key).no_duplicates(),
{
    let all = rest.push(key);
    assert forall|k: PathKey| #[trigger] all.contains(k) <==> rest.contains(k) || k == key by {
        if all.contains(k) {
            let i = choose|i: int| 0 <= i < all.len() && all[i] == k;
            if i < rest.len() {
                assert(rest[i] == k);
            }
        }
        if rest.contains(k) {
            let i = choose|i: int| 0 <= i < rest.len() && rest[i] == k;
            assert(all[i] == k);
        }
        assert(all[rest.len() as int] == key);
    }
}

} // verus!
