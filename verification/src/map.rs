//! The map facade: a sorted map backed by a B-tree.
//!
//! A `BTreeMap` owns one [`Root`] and a cached element count.  Every batch
//! of keys lives in a node of small fixed capacity, so lookups and
//! insertions touch a logarithmic number of nodes.  The abstract view of a
//! map is the mathematical `Map<usize, V>` it denotes; the in-order pair
//! sequence `entry_seq` refines that view with the iteration order.

use vstd::prelude::*;

use crate::node::InsertResult;
use crate::node::deref_pairs;
use crate::node::Root;
use crate::node::kv_insert;
use crate::node::map_of;
use crate::node::seq_sorted;
use crate::node::lemma_kv_insert_len;
use crate::node::lemma_kv_insert_twice;
use crate::node::lemma_kv_lookup_contains;
use crate::node::lemma_map_of_insert;
use crate::node::lemma_map_of_len;
use crate::node::lemma_map_of_props;
use crate::node::lemma_sorted_unique;
use crate::search::SearchResult;
use crate::search::search_tree;

verus! {

/// A map based on a B-tree: each node stores a small sorted batch of
/// key-value pairs, trading per-node comparisons for fewer allocations and
/// better locality than a binary search tree.
///
/// The abstract state is the `Map<usize, V>` view reached through `@`; the
/// pair sequence `entry_seq` additionally fixes the ascending key order in
/// which iteration yields the entries.
pub struct BTreeMap<V> {
    pub(crate) root: Root<V>,
    pub(crate) length: usize,
}

impl<V> BTreeMap<V> {
    /// The tree is well formed and the cached count matches its contents.
    pub open(crate) spec fn wf(self) -> bool {
        &&& self.root.wf()
        &&& self.length == self.root.entry_seq().len()
    }

    /// The key-value pairs of the map, in ascending key order.
    pub open(crate) spec fn entry_seq(self) -> Seq<(usize, V)> {
        self.root.entry_seq()
    }

    /// Height of the backing tree: 0 while the root is a single leaf.
    pub open(crate) spec fn spec_height(self) -> nat {
        self.root.spec_height()
    }

    /// Makes a new empty map.
    pub fn new() -> (r: Self)
        ensures
            r.wf(),
            r@ == Map::<usize, V>::empty(),
            r.entry_seq() == Seq::<(usize, V)>::empty(),
    {
        let m = BTreeMap { root: Root::new_leaf(), length: 0 };
        proof {
            assert(m@ =~= Map::<usize, V>::empty());
        }
        m
    }

    /// Makes a new empty map; the argument is accepted for compatibility
    /// and ignored, since the branching parameter is fixed at build time.
    pub fn with_b(_b: usize) -> (r: Self)
        ensures
            r.wf(),
            r@ == Map::<usize, V>::empty(),
            r.entry_seq() == Seq::<(usize, V)>::empty(),
    {
        BTreeMap::new()
    }

    /// Clears the map, removing all entries.
    pub fn clear(&mut self)
        ensures
            final(self).wf(),
            final(self)@ == Map::<usize, V>::empty(),
            final(self).entry_seq() == Seq::<(usize, V)>::empty(),
    {
        *self = BTreeMap::new();
    }

    /// Returns the number of entries: the count of distinct keys stored.
    pub fn len(&self) -> (r: usize)
        requires
            self.wf(),
        ensures
            r == self.entry_seq().len(),
            r == self@.dom().len(),
    {
        proof {
            self.root.node.lemma_entries_sorted();
            lemma_map_of_len(self.entry_seq());
        }
        self.length
    }

    /// Returns true if the map holds no entry.
    pub fn is_empty(&self) -> (r: bool)
        requires
            self.wf(),
        ensures
            r == (self.entry_seq().len() == 0),
            r == (self@.dom().len() == 0),
    {
        self.len() == 0
    }

    /// A read-only view of the tree's top node, for diagnostics and
    /// structural checks: the navigation layer reads node storage
    /// through it without touching the map.
    pub fn root_node(&self) -> (r: crate::node::NodeRef<V>)
        requires
            self.wf(),
        ensures
            r.wf(),
            r.entry_seq() == self.entry_seq(),
            r.spec_height() == self.spec_height(),
    {
        self.root.as_ref()
    }

    /// Returns a reference to the value stored under `key`, if any.
    pub fn get(&self, key: &usize) -> (r: Option<&V>)
        requires
            self.wf(),
        ensures
            match r {
                Some(v) => self@.contains_key(*key) && *v == self@[*key],
                None => !self@.contains_key(*key),
            },
    {
        proof {
            lemma_map_of_props(self.entry_seq(), *key);
            lemma_kv_lookup_contains(self.entry_seq(), *key);
        }
        match search_tree(self.root.as_ref(), key) {
            SearchResult::Found(handle) => Some(handle.into_kv().1),
            SearchResult::GoDown(_) => None,
        }
    }

    /// Returns true if the map stores a value under `key`.
    pub fn contains_key(&self, key: &usize) -> (r: bool)
        requires
            self.wf(),
        ensures
            r == self@.contains_key(*key),
    {
        self.get(key).is_some()
    }

    /// Returns an in-place mutable reference to the value stored under
    /// `key`, if any; after the caller is done with it, the map holds
    /// whatever value was left behind, under the same key.
    pub fn get_mut(&mut self, key: &usize) -> (r: Option<&mut V>)
        requires
            old(self).wf(),
        ensures
            final(self).wf(),
            match r {
                Some(v) => {
                    &&& old(self)@.contains_key(*key)
                    &&& *v == old(self)@[*key]
                    &&& final(self)@ == old(self)@.insert(*key, *final(v))
                    &&& final(self).entry_seq() == kv_insert(
                        old(self).entry_seq(),
                        *key,
                        *final(v),
                    )
                    &&& final(self).entry_seq().len() == old(self).entry_seq().len()
                },
                None => {
                    &&& !old(self)@.contains_key(*key)
                    &&& final(self)@ == old(self)@
                    &&& final(self).entry_seq() == old(self).entry_seq()
                },
            },
    {
        let ghost e0 = self.entry_seq();
        proof {
            self.root.node.lemma_entries_sorted();
            lemma_map_of_props(e0, *key);
            lemma_kv_lookup_contains(e0, *key);
        }
        let r = self.root.node.get_value_mut(*key);
        match r {
            Some(v) => {
                proof {
                    lemma_map_of_insert(e0, *key, *final(v));
                    lemma_kv_insert_len(e0, *key, *final(v));
                }
                Some(v)
            },
            None => None,
        }
    }

    /// Inserts `value` under `key`.  An existing value under the same key
    /// is replaced and returned; a fresh key grows the map by one entry
    /// and yields `None`.
    pub fn insert(&mut self, key: usize, value: V) -> (r: Option<V>)
        requires
            old(self).wf(),
            old(self).entry_seq().len() < usize::MAX,
        ensures
            final(self).wf(),
            final(self)@ == old(self)@.insert(key, value),
            final(self).entry_seq() == kv_insert(old(self).entry_seq(), key, value),
            final(self).entry_seq().len() == old(self).entry_seq().len() + (if old(
                self,
            )@.contains_key(key) {
                0int
            } else {
                1int
            }),
            r == (if old(self)@.contains_key(key) {
                Some(old(self)@[key])
            } else {
                None::<V>
            }),
    {
        let ghost e0 = self.entry_seq();
        proof {
            self.root.node.lemma_entries_sorted();
            lemma_kv_insert_len(e0, key, value);
            lemma_map_of_insert(e0, key, value);
            lemma_map_of_props(e0, key);
            lemma_kv_lookup_contains(e0, key);
        }
        let (prev, res) = self.root.node.node_insert(key, value);
        match res {
            InsertResult::Fit => {},
            InsertResult::Split(k, v, right) => {
                self.root.enlarge(k, v, right);
            },
        }
        if prev.is_none() {
            self.length = self.length + 1;
        }
        prev
    }
}

impl<V> View for BTreeMap<V> {
    type V = Map<usize, V>;

    /// The mathematical map that the tree denotes.
    closed spec fn view(&self) -> Map<usize, V> {
        map_of(self.entry_seq())
    }
}


/// An iterator over a map's entries in ascending key order.  It captures
/// the traversal up front, so it stays valid while the map is borrowed and
/// restarting `iter` yields an independent traversal.
pub struct Iter<'a, V> {
    pub(crate) entries: Vec<(usize, &'a V)>,
    pub(crate) pos: usize,
}

impl<'a, V> Iter<'a, V> {
    pub open(crate) spec fn wf(self) -> bool {
        self.pos <= self.entries@.len()
    }

    /// The pairs not yet yielded, in ascending key order.
    pub open(crate) spec fn remaining(self) -> Seq<(usize, V)> {
        deref_pairs(self.entries@).skip(self.pos as int)
    }

    /// The next pair in ascending key order, or `None` once exhausted.
    pub fn next(&mut self) -> (r: Option<(usize, &'a V)>)
        requires
            old(self).wf(),
        ensures
            final(self).wf(),
            match r {
                Some(p) => {
                    &&& old(self).remaining().len() > 0
                    &&& (p.0, *p.1) == old(self).remaining()[0]
                    &&& final(self).remaining() == old(self).remaining().skip(1)
                },
                None => {
                    &&& old(self).remaining().len() == 0
                    &&& final(self).remaining() == old(self).remaining()
                },
            },
    {
        if self.pos < self.entries.len() {
            let p = *vstd::std_specs::vec::vec_index(&self.entries, self.pos);
            self.pos = self.pos + 1;
            proof {
                assert((p.0, *p.1) == deref_pairs(self.entries@)[old(self).pos as int]);
                assert(old(self).remaining()[0] == deref_pairs(self.entries@)[old(
                    self,
                ).pos as int]);
                assert(self.remaining() =~= old(self).remaining().skip(1));
            }
            Some(p)
        } else {
            None
        }
    }
}

/// An owning iterator over a map's entries in ascending key order; it
/// holds the pairs with the yet-to-come entry last, so each step is a pop.
pub struct IntoIter<V> {
    pub(crate) rev_entries: Vec<(usize, V)>,
}

impl<V> IntoIter<V> {
    /// The pairs not yet yielded, in ascending key order.
    pub open(crate) spec fn remaining(self) -> Seq<(usize, V)> {
        self.rev_entries@.reverse()
    }

    /// The next pair in ascending key order, or `None` once exhausted.
    pub fn next(&mut self) -> (r: Option<(usize, V)>)
        ensures
            match r {
                Some(p) => {
                    &&& old(self).remaining().len() > 0
                    &&& p == old(self).remaining()[0]
                    &&& final(self).remaining() == old(self).remaining().skip(1)
                },
                None => {
                    &&& old(self).remaining().len() == 0
                    &&& final(self).remaining() == old(self).remaining()
                },
            },
    {
        let r = self.rev_entries.pop();
        proof {
            if old(self).rev_entries@.len() > 0 {
                assert(old(self).remaining()[0] == old(self).rev_entries@.last());
                assert(self.remaining() =~= old(self).remaining().skip(1));
            }
        }
        r
    }
}

impl<V> BTreeMap<V> {
    /// An independent, restartable traversal of the entries, in ascending
    /// key order.
    pub fn iter<'a>(&'a self) -> (it: Iter<'a, V>)
        requires
            self.wf(),
        ensures
            it.wf(),
            it.remaining() == self.entry_seq(),
    {
        let mut entries: Vec<(usize, &'a V)> = Vec::new();
        proof {
            assert(deref_pairs(entries@) =~= Seq::<(usize, V)>::empty());
        }
        self.root.node.collect_refs(&mut entries);
        let it = Iter { entries, pos: 0 };
        proof {
            assert(it.remaining() =~= self.entry_seq());
        }
        it
    }

    /// A consuming traversal: yields every entry in ascending key order,
    /// destroying the map.
    #[verifier::loop_isolation(false)]
    pub fn into_iter(self) -> (it: IntoIter<V>)
        requires
            self.wf(),
        ensures
            it.remaining() == self.entry_seq(),
    {
        let BTreeMap { mut root, .. } = self;
        let mut entries: Vec<(usize, V)> = Vec::new();
        root.node.collect_owned(&mut entries);
        let ghost fwd = entries@;
        let mut rev_entries: Vec<(usize, V)> = Vec::new();
        proof {
            assert(entries@ =~= fwd.take(fwd.len() as int));
            assert(rev_entries@ =~= fwd.skip(fwd.len() as int).reverse());
        }
        while entries.len() > 0
            invariant
                entries@.len() <= fwd.len(),
                entries@ == fwd.take(entries@.len() as int),
                rev_entries@ == fwd.skip(entries@.len() as int).reverse(),
            decreases entries@.len(),
        {
            let ghost j = entries@.len() as int;
            let p = entries.pop().unwrap();
            rev_entries.push(p);
            proof {
                assert(p == fwd[j - 1]);
                assert(entries@ =~= fwd.take(j - 1));
                assert(rev_entries@ =~= fwd.skip(j - 1).reverse());
            }
        }
        let it = IntoIter { rev_entries };
        proof {
            assert(it.remaining() =~= self.entry_seq());
        }
        it
    }
}


/// A view into a single entry of the map, either vacant or occupied,
/// obtained from one search.
pub enum Entry<'a, V> {
    /// No value is stored under the searched key.
    Vacant(VacantEntry<'a, V>),
    /// A value is stored under the searched key.
    Occupied(OccupiedEntry<'a, V>),
}

/// A vacant entry: the searched key, not yet stored, and the borrowed map
/// it would go into.
pub struct VacantEntry<'a, V> {
    /// The searched key, to be stored on insertion.
    pub key: usize,
    /// The borrowed map that the insertion goes into.
    pub map: &'a mut BTreeMap<V>,
}

/// An occupied entry: in-place access to the value stored under the
/// searched key.
pub struct OccupiedEntry<'a, V> {
    /// In-place access to the stored value.
    pub value: &'a mut V,
}

impl<V> BTreeMap<V> {
    /// A view of the entry under `key` for in-place manipulation:
    /// occupied when the key is present, vacant otherwise.
    pub fn entry<'a>(&'a mut self, key: usize) -> (r: Entry<'a, V>)
        requires
            old(self).wf(),
        ensures
            match r {
                Entry::Occupied(e) => {
                    &&& old(self)@.contains_key(key)
                    &&& *e.value == old(self)@[key]
                    &&& (*final(self)).wf()
                    &&& final(self)@ == old(self)@.insert(key, *final(e.value))
                    &&& final(self).entry_seq() == kv_insert(
                        old(self).entry_seq(),
                        key,
                        *final(e.value),
                    )
                },
                Entry::Vacant(e) => {
                    &&& !old(self)@.contains_key(key)
                    &&& e.key == key
                    &&& *e.map == *old(self)
                    &&& *final(self) == *final(e.map)
                },
            },
    {
        if self.contains_key(&key) {
            let v = self.get_mut(&key).unwrap();
            Entry::Occupied(OccupiedEntry { value: v })
        } else {
            Entry::Vacant(VacantEntry { key, map: self })
        }
    }
}

impl<'a, V> VacantEntry<'a, V> {
    /// Store `value` under the held key and hand back in-place access to
    /// the freshly inserted slot; the map then lists whatever value the
    /// caller leaves behind there.
    pub fn insert(self, value: V) -> (r: &'a mut V)
        requires
            (*self.map).wf(),
            !(*self.map)@.contains_key(self.key),
            (*self.map).entry_seq().len() < usize::MAX,
        ensures
            *r == value,
            (*final(self.map)).wf(),
            (*final(self.map))@ == (*old(self.map))@.insert(self.key, *final(r)),
            (*final(self.map)).entry_seq() == kv_insert(
                (*old(self.map)).entry_seq(),
                self.key,
                *final(r),
            ),
    {
        let VacantEntry { key, map } = self;
        let ghost e0 = (*map).entry_seq();
        map.insert(key, value);
        let r = map.get_mut(&key).unwrap();
        proof {
            lemma_kv_insert_twice(e0, key, value, *final(r));
            assert((map_of(e0).insert(key, value)).insert(key, *final(r)) =~= map_of(
                e0,
            ).insert(key, *final(r)));
        }
        r
    }
}

impl<'a, V> Entry<'a, V> {
    /// In-place access to the value under the searched key: the stored
    /// one when occupied, else `default`, inserted now.
    pub fn or_insert(self, default: V) -> (r: &'a mut V)
        requires
            match self {
                Entry::Vacant(e) => {
                    &&& (*e.map).wf()
                    &&& !(*e.map)@.contains_key(e.key)
                    &&& (*e.map).entry_seq().len() < usize::MAX
                },
                Entry::Occupied(_) => true,
            },
        ensures
            match self {
                Entry::Occupied(e) => *r == *e.value && *final(r) == *final(e.value),
                Entry::Vacant(e) => {
                    &&& *r == default
                    &&& (*final(e.map)).wf()
                    &&& (*final(e.map))@ == (*e.map)@.insert(e.key, *final(r))
                    &&& (*final(e.map)).entry_seq() == kv_insert(
                        (*e.map).entry_seq(),
                        e.key,
                        *final(r),
                    )
                },
            },
    {
        match self {
            Entry::Occupied(e) => e.value,
            Entry::Vacant(e) => e.insert(default),
        }
    }

    /// In-place access to the value under the searched key: the stored
    /// one when occupied, else the result of `default()`, inserted now.
    pub fn or_insert_with<F: FnOnce() -> V>(self, default: F) -> (r: &'a mut V)
        requires
            match self {
                Entry::Vacant(e) => {
                    &&& (*e.map).wf()
                    &&& !(*e.map)@.contains_key(e.key)
                    &&& (*e.map).entry_seq().len() < usize::MAX
                    &&& call_requires(default, ())
                },
                Entry::Occupied(_) => true,
            },
        ensures
            match self {
                Entry::Occupied(e) => *r == *e.value && *final(r) == *final(e.value),
                Entry::Vacant(e) => {
                    &&& call_ensures(default, (), *r)
                    &&& (*final(e.map)).wf()
                    &&& (*final(e.map))@ == (*e.map)@.insert(e.key, *final(r))
                    &&& (*final(e.map)).entry_seq() == kv_insert(
                        (*e.map).entry_seq(),
                        e.key,
                        *final(r),
                    )
                },
            },
    {
        match self {
            Entry::Occupied(e) => e.value,
            Entry::Vacant(e) => e.insert(default()),
        }
    }
}

impl<'a, V> OccupiedEntry<'a, V> {
    /// A reference to the stored value.
    pub fn get(&self) -> (r: &V)
        ensures
            *r == *old(self.value),
    {
        &*self.value
    }

    /// Mutable access to the stored value, keeping the entry.
    pub fn get_mut(&mut self) -> (r: &mut V)
        ensures
            *r == *old(self).value,
            *final(self).value == *final(r),
    {
        &mut *self.value
    }

    /// Turn the entry into in-place access tied to the map's borrow.
    pub fn into_mut(self) -> (r: &'a mut V)
        ensures
            *r == *old(self.value),
            *final(r) == *final(self.value),
    {
        self.value
    }

    /// Replace the stored value, returning the previous one.
    pub fn insert(&mut self, value: V) -> (r: V)
        ensures
            r == *old(self).value,
            *final(self).value == value,
    {
        let mut v = value;
        core::mem::swap(&mut v, &mut *self.value);
        v
    }
}


impl<V> BTreeMap<V> {
    /// Every leaf of the backing tree sits at depth equal to the tree's
    /// height.
    pub open(crate) spec fn leaves_uniform(self) -> bool {
        self.root.node.leaves_at(self.spec_height() as int)
    }

    /// Every node of the backing tree below the root keeps between
    /// `T - 2` and `2 * T - 1` keys.
    pub open(crate) spec fn occupancy_ok(self) -> bool {
        self.root.node.occupancy_ok()
    }
}

/// The map built by performing a sequence of insertions in order.
pub open spec fn apply_inserts<V>(m: Map<usize, V>, ops: Seq<(usize, V)>) -> Map<usize, V>
    decreases ops.len(),
{
    if ops.len() == 0 {
        m
    } else {
        apply_inserts(m.insert(ops[0].0, ops[0].1), ops.skip(1))
    }
}

/// The set of distinct keys named by a sequence of insertions.
pub open spec fn key_set<V>(ops: Seq<(usize, V)>) -> Set<usize>
    decreases ops.len(),
{
    if ops.len() == 0 {
        Set::empty()
    } else {
        key_set(ops.skip(1)).insert(ops[0].0)
    }
}

/// After a sequence of insertions, the stored keys are the keys held
/// before plus every distinct inserted key.
pub proof fn lemma_apply_inserts_dom<V>(m: Map<usize, V>, ops: Seq<(usize, V)>)
    ensures
        apply_inserts(m, ops).dom() == m.dom().union(key_set(ops)),
    decreases ops.len(),
{
    if ops.len() == 0 {
        assert(apply_inserts(m, ops).dom() =~= m.dom().union(key_set(ops)));
    } else {
        lemma_apply_inserts_dom(m.insert(ops[0].0, ops[0].1), ops.skip(1));
        assert(m.insert(ops[0].0, ops[0].1).dom().union(key_set(ops.skip(1))) =~= m.dom().union(
            key_set(ops),
        ));
    }
}

/// Count law: for every sequence of insertions into an empty map, the
/// stored keys are exactly the distinct inserted keys, so `len`, which
/// returns the size of the key set, counts the distinct keys inserted.
pub proof fn lemma_len_counts_distinct_keys<V>(ops: Seq<(usize, V)>)
    ensures
        apply_inserts(Map::<usize, V>::empty(), ops).dom() == key_set(ops),
{
    lemma_apply_inserts_dom(Map::<usize, V>::empty(), ops);
    assert(Map::<usize, V>::empty().dom().union(key_set(ops)) =~= key_set(ops));
}

/// Round-trip law: after `insert(k, v)` the map reads back `v` under `k`;
/// a second `insert(k, v2)` replaces the value without touching the key
/// set, so the length is unaffected.  Together with the contract of
/// `insert`, which returns the previously stored value, and of `get`,
/// which returns the view's value, this pins the round-trip behaviour.
pub proof fn lemma_insert_get_round_trip<V>(m: Map<usize, V>, k: usize, v: V, v2: V)
    ensures
        m.insert(k, v).contains_key(k),
        m.insert(k, v)[k] == v,
        m.insert(k, v).insert(k, v2)[k] == v2,
        m.insert(k, v).insert(k, v2).dom() == m.insert(k, v).dom(),
{
    assert(m.insert(k, v).insert(k, v2).dom() =~= m.insert(k, v).dom());
}

/// Ordering law, first half: iteration yields the pairs in strictly
/// ascending key order.
pub proof fn lemma_iteration_sorted<V>(m: BTreeMap<V>)
    requires
        m.wf(),
    ensures
        seq_sorted(m.entry_seq()),
{
    m.root.node.lemma_entries_sorted();
}

/// Ordering law, second half: the order is independent of the insertion
/// order, because any two well-formed maps with the same contents list
/// their entries identically.
pub proof fn lemma_iteration_canonical<V>(m1: BTreeMap<V>, m2: BTreeMap<V>)
    requires
        m1.wf(),
        m2.wf(),
        m1@ == m2@,
    ensures
        m1.entry_seq() == m2.entry_seq(),
{
    m1.root.node.lemma_entries_sorted();
    m2.root.node.lemma_entries_sorted();
    lemma_sorted_unique(m1.entry_seq(), m2.entry_seq());
}

/// Balance law: in a well-formed map every leaf sits at the same depth,
/// the tree's height, and every node below the root holds between
/// `T - 2` and `2 * T - 1` keys.
pub proof fn lemma_balanced<V>(m: BTreeMap<V>)
    requires
        m.wf(),
    ensures
        m.leaves_uniform(),
        m.occupancy_ok(),
{
    m.root.node.lemma_balanced();
}


} // verus!
