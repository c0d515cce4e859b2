//! Node storage and the split-and-propagate engine of the B-tree, together
//! with the read-only navigation layer (`Root`, `NodeRef`, `Handle`).
//!
//! A node holds a sorted batch of keys, a parallel batch of values and, when
//! it is internal, one more child than it has keys.  The whole tree is held
//! by recursive ownership: a child lives inside its parent's `children`
//! vector, so no parent back-pointers are needed to keep the structure
//! consistent, and upward propagation of a split happens while the recursive
//! insertion unwinds.

use vstd::prelude::*;

verus! {

/// Branching parameter: every node holds at most `2 * T - 1` keys and an
/// internal node has at most `2 * T` children.
pub const T: usize = 6;

/// A tree node.  `children.len() == 0` marks a leaf; an internal node has
/// `keys.len() + 1` children, child `i` holding the keys strictly between
/// `keys[i - 1]` and `keys[i]`.
pub struct Node<V> {
    pub(crate) keys: Vec<usize>,
    pub(crate) vals: Vec<V>,
    pub(crate) children: Vec<Node<V>>,
}

/// Outcome of pushing a pair into a subtree: either it fit, or the subtree
/// split and hands a promoted pair plus a fresh right sibling to its parent.
pub enum InsertResult<V> {
    Fit,
    Split(usize, V, Node<V>),
}

/// The pairs `(keys[i], vals[i])`, in slot order.
pub open spec fn kv_seq<V>(keys: Seq<usize>, vals: Seq<V>) -> Seq<(usize, V)> {
    Seq::new(keys.len(), |i: int| (keys[i], vals[i]))
}

/// Strictly ascending key order over a pair sequence.
pub open spec fn seq_sorted<V>(s: Seq<(usize, V)>) -> bool {
    forall|i: int, j: int| 0 <= i < j < s.len() ==> s[i].0 < s[j].0
}

/// Strictly ascending order over a key sequence.
pub open spec fn keys_sorted(s: Seq<usize>) -> bool {
    forall|i: int, j: int| 0 <= i < j < s.len() ==> s[i] < s[j]
}

/// Every key of `s` lies strictly below `b`.
pub open spec fn kv_below<V>(s: Seq<(usize, V)>, b: usize) -> bool {
    forall|i: int| 0 <= i < s.len() ==> (#[trigger] s[i]).0 < b
}

/// Every key of `s` lies strictly above `b`.
pub open spec fn kv_above<V>(s: Seq<(usize, V)>, b: usize) -> bool {
    forall|i: int| 0 <= i < s.len() ==> (#[trigger] s[i]).0 > b
}

/// Whether some pair of `s` carries `key`.
pub open spec fn kv_contains<V>(s: Seq<(usize, V)>, key: usize) -> bool {
    exists|i: int| 0 <= i < s.len() && (#[trigger] s[i]).0 == key
}

/// The value of the first pair of `s` that carries `key`, if any.
pub open spec fn kv_lookup<V>(s: Seq<(usize, V)>, key: usize) -> Option<V>
    decreases s.len(),
{
    if s.len() == 0 {
        None
    } else if s[0].0 == key {
        Some(s[0].1)
    } else {
        kv_lookup(s.skip(1), key)
    }
}

/// `s` with `(key, value)` put at its place in key order: an existing pair
/// with the same key is replaced, otherwise the new pair enters before the
/// first strictly larger key.
pub open spec fn kv_insert<V>(s: Seq<(usize, V)>, key: usize, value: V) -> Seq<(usize, V)>
    decreases s.len(),
{
    if s.len() == 0 {
        seq![(key, value)]
    } else if key < s[0].0 {
        seq![(key, value)] + s
    } else if key == s[0].0 {
        seq![(key, value)] + s.skip(1)
    } else {
        seq![s[0]] + kv_insert(s.skip(1), key, value)
    }
}

/// The map that a pair sequence denotes; on a duplicate key the earliest
/// pair wins, matching `kv_lookup`.
pub open spec fn map_of<V>(s: Seq<(usize, V)>) -> Map<usize, V>
    decreases s.len(),
{
    if s.len() == 0 {
        Map::empty()
    } else {
        map_of(s.skip(1)).insert(s[0].0, s[0].1)
    }
}

/// In-order interleaving of child entry sequences with separator pairs:
/// `css[0] + kvs[0] + css[1] + kvs[1] + ...`.
pub open spec fn interleave<V>(css: Seq<Seq<(usize, V)>>, kvs: Seq<(usize, V)>) -> Seq<(usize, V)>
    decreases css.len(),
{
    if css.len() == 0 {
        Seq::empty()
    } else if kvs.len() == 0 {
        css[0] + interleave(css.skip(1), kvs)
    } else {
        css[0] + seq![kvs[0]] + interleave(css.skip(1), kvs.skip(1))
    }
}

impl<V> Node<V> {
    pub open(crate) spec fn is_leaf(self) -> bool {
        self.children@.len() == 0
    }

    /// Height of the subtree: 0 for a leaf.  Well-formedness makes all
    /// children share one height, so following child 0 is representative.
    pub open(crate) spec fn height(self) -> nat
        decreases self,
    {
        if self.is_leaf() {
            0
        } else {
            1 + self.children@[0].height()
        }
    }

    /// The in-order key-value sequence of the subtree.
    pub open(crate) spec fn entry_seq(self) -> Seq<(usize, V)> {
        self.entries()
    }

    /// The in-order key-value sequence of the subtree.
    pub(crate) open spec fn entries(self) -> Seq<(usize, V)>
        decreases self, self.children@.len() + 1,
    {
        if self.is_leaf() {
            kv_seq(self.keys@, self.vals@)
        } else {
            interleave(self.child_entry_seqs(0), kv_seq(self.keys@, self.vals@))
        }
    }

    /// The entry sequences of children `i..`, one element per child.
    pub(crate) open spec fn child_entry_seqs(self, i: int) -> Seq<Seq<(usize, V)>>
        decreases self, self.children@.len() - i,
    {
        if 0 <= i < self.children@.len() {
            seq![self.children@[i].entries()] + self.child_entry_seqs(i + 1)
        } else {
            Seq::empty()
        }
    }

    /// The entries of an internal node after child `i` splits in place:
    /// child `i` is followed by the promoted pair `(k, v)` and the fresh
    /// right sibling `rc`.
    pub open(crate) spec fn spliced(self, i: int, k: usize, v: V, rc: Node<V>) -> Seq<(usize, V)> {
        inter_prefix(self.child_entry_seqs(0), kv_seq(self.keys@, self.vals@), i)
            + self.children@[i].entries() + seq![(k, v)] + rc.entries() + inter_suffix(
            self.child_entry_seqs(0),
            kv_seq(self.keys@, self.vals@),
            i,
        )
    }

    /// Structural invariant of a subtree: parallel sorted key and value
    /// batches, bounded occupancy, one more child than keys in an internal
    /// node, children of uniform height that each respect the separator
    /// keys around them, and at least `T - 2` keys in every non-root node.
    pub open(crate) spec fn wf(self) -> bool
        decreases self,
    {
        &&& self.vals@.len() == self.keys@.len()
        &&& self.keys@.len() <= 2 * T - 1
        &&& keys_sorted(self.keys@)
        &&& (!self.is_leaf() ==> self.children@.len() == self.keys@.len() + 1)
        &&& (!self.is_leaf() ==> self.keys@.len() >= 1)
        &&& (forall|i: int| 0 <= i < self.children@.len() ==> (#[trigger] self.children@[i]).wf())
        &&& (forall|i: int|
            0 <= i < self.children@.len() ==> (#[trigger] self.children@[i]).height() + 1
                == self.height())
        &&& (forall|i: int|
            0 <= i < self.children@.len() ==> (#[trigger] self.children@[i]).keys@.len() + 2
                >= T)
        &&& (forall|i: int|
            0 <= i < self.children@.len() && i < self.keys@.len() ==> kv_below(
                (#[trigger] self.children@[i]).entries(),
                self.keys@[i],
            ))
        &&& (forall|i: int|
            0 < i < self.children@.len() ==> kv_above(
                (#[trigger] self.children@[i]).entries(),
                self.keys@[i - 1],
            ))
    }
}

/// Pointwise description of `child_entry_seqs`.
pub(crate) proof fn lemma_child_entry_seqs<V>(n: Node<V>, i: int)
    requires
        0 <= i <= n.children@.len(),
    ensures
        n.child_entry_seqs(i).len() == n.children@.len() - i,
        forall|j: int|
            0 <= j < n.children@.len() - i ==> n.child_entry_seqs(i)[j] == n.children@[i
                + j].entries(),
    decreases n.children@.len() - i,
{
    if i < n.children@.len() {
        lemma_child_entry_seqs(n, i + 1);
    }
}

/// A key absent from every pair means an empty lookup, and conversely.
pub proof fn lemma_kv_lookup_contains<V>(s: Seq<(usize, V)>, key: usize)
    ensures
        kv_lookup(s, key) is None <==> !kv_contains(s, key),
    decreases s.len(),
{
    if s.len() > 0 && s[0].0 != key {
        lemma_kv_lookup_contains(s.skip(1), key);
        assert(kv_contains(s, key) ==> kv_contains(s.skip(1), key)) by {
            if kv_contains(s, key) {
                let i = choose|i: int| 0 <= i < s.len() && s[i].0 == key;
                assert(s.skip(1)[i - 1].0 == key);
            }
        }
    }
}

/// Inserting grows the sequence by one pair exactly when the key is new.
pub proof fn lemma_kv_insert_len<V>(s: Seq<(usize, V)>, key: usize, value: V)
    requires
        seq_sorted(s),
    ensures
        kv_insert(s, key, value).len() == s.len() + (if kv_contains(s, key) {
            0int
        } else {
            1int
        }),
    decreases s.len(),
{
    if s.len() == 0 {
    } else if key < s[0].0 {
        if kv_contains(s, key) {
            let i = choose|i: int| 0 <= i < s.len() && s[i].0 == key;
            assert(i > 0 ==> s[0].0 < s[i].0);
            assert(false);
        }
    } else if key == s[0].0 {
        assert(kv_contains(s, key));
    } else {
        assert(seq_sorted(s.skip(1)));
        lemma_kv_insert_len(s.skip(1), key, value);
        assert(kv_contains(s, key) <==> kv_contains(s.skip(1), key)) by {
            if kv_contains(s, key) {
                let i = choose|i: int| 0 <= i < s.len() && s[i].0 == key;
                assert(s.skip(1)[i - 1].0 == key);
            }
            if kv_contains(s.skip(1), key) {
                let i = choose|i: int| 0 <= i < s.skip(1).len() && s.skip(1)[i].0 == key;
                assert(s[i + 1].0 == key);
            }
        }
    }
}

/// A bound that clears both the old pairs and the new key clears the result.
pub proof fn lemma_kv_insert_below<V>(s: Seq<(usize, V)>, key: usize, value: V, b: usize)
    requires
        kv_below(s, b),
        key < b,
    ensures
        kv_below(kv_insert(s, key, value), b),
    decreases s.len(),
{
    if s.len() > 0 && key > s[0].0 {
        assert(kv_below(s.skip(1), b));
        lemma_kv_insert_below(s.skip(1), key, value, b);
    }
}

/// A bound that both the old pairs and the new key exceed is kept.
pub proof fn lemma_kv_insert_above<V>(s: Seq<(usize, V)>, key: usize, value: V, b: usize)
    requires
        kv_above(s, b),
        key > b,
    ensures
        kv_above(kv_insert(s, key, value), b),
    decreases s.len(),
{
    if s.len() > 0 && key > s[0].0 {
        assert(kv_above(s.skip(1), b));
        lemma_kv_insert_above(s.skip(1), key, value, b);
    }
}

/// Insertion keeps strict key order.
pub proof fn lemma_kv_insert_sorted<V>(s: Seq<(usize, V)>, key: usize, value: V)
    requires
        seq_sorted(s),
    ensures
        seq_sorted(kv_insert(s, key, value)),
    decreases s.len(),
{
    if s.len() == 0 {
    } else if key < s[0].0 {
    } else if key == s[0].0 {
    } else {
        assert(seq_sorted(s.skip(1)));
        lemma_kv_insert_sorted(s.skip(1), key, value);
        assert(kv_above(s.skip(1), s[0].0));
        lemma_kv_insert_above(s.skip(1), key, value, s[0].0);
    }
}

/// When every old key stays below the new one, insertion happens in the tail.
pub proof fn lemma_kv_insert_concat_left<V>(a: Seq<(usize, V)>, b: Seq<(usize, V)>, key: usize, value: V)
    requires
        kv_below(a, key),
    ensures
        kv_insert(a + b, key, value) == a + kv_insert(b, key, value),
    decreases a.len(),
{
    if a.len() == 0 {
        assert(a + b =~= b);
        assert(a + kv_insert(b, key, value) =~= kv_insert(b, key, value));
    } else {
        assert((a + b)[0] == a[0]);
        assert((a + b).skip(1) =~= a.skip(1) + b);
        assert(kv_below(a.skip(1), key));
        lemma_kv_insert_concat_left(a.skip(1), b, key, value);
        assert(seq![(a + b)[0]] + (a.skip(1) + kv_insert(b, key, value)) =~= a + kv_insert(
            b,
            key,
            value,
        ));
    }
}

/// When every key of the tail exceeds the new one, insertion happens in the head.
pub proof fn lemma_kv_insert_concat_right<V>(a: Seq<(usize, V)>, b: Seq<(usize, V)>, key: usize, value: V)
    requires
        kv_above(b, key),
    ensures
        kv_insert(a + b, key, value) == kv_insert(a, key, value) + b,
    decreases a.len(),
{
    if a.len() == 0 {
        assert(a + b =~= b);
        if b.len() == 0 {
            assert(kv_insert(a, key, value) + b =~= seq![(key, value)]);
        } else {
            assert(b[0].0 > key);
            assert(kv_insert(a + b, key, value) =~= seq![(key, value)] + b);
            assert(kv_insert(a, key, value) + b =~= seq![(key, value)] + b);
        }
    } else {
        assert((a + b)[0] == a[0]);
        assert((a + b).skip(1) =~= a.skip(1) + b);
        if key < a[0].0 {
            assert(kv_insert(a + b, key, value) =~= seq![(key, value)] + (a + b));
            assert(kv_insert(a, key, value) + b =~= (seq![(key, value)] + a) + b);
            assert(seq![(key, value)] + (a + b) =~= (seq![(key, value)] + a) + b);
        } else if key == a[0].0 {
            assert(kv_insert(a + b, key, value) =~= seq![(key, value)] + (a + b).skip(1));
            assert(seq![(key, value)] + (a.skip(1) + b) =~= (seq![(key, value)] + a.skip(1)) + b);
        } else {
            lemma_kv_insert_concat_right(a.skip(1), b, key, value);
            assert(seq![a[0]] + (kv_insert(a.skip(1), key, value) + b) =~= (seq![a[0]] + kv_insert(
                a.skip(1),
                key,
                value,
            )) + b);
        }
    }
}

/// A lookup over a concatenation tries the head first.
pub proof fn lemma_kv_lookup_concat<V>(a: Seq<(usize, V)>, b: Seq<(usize, V)>, key: usize)
    ensures
        kv_lookup(a + b, key) == (if kv_contains(a, key) {
            kv_lookup(a, key)
        } else {
            kv_lookup(b, key)
        }),
    decreases a.len(),
{
    if a.len() == 0 {
        assert(a + b =~= b);
        assert(!kv_contains(a, key));
    } else {
        assert((a + b)[0] == a[0]);
        assert((a + b).skip(1) =~= a.skip(1) + b);
        if a[0].0 == key {
            assert(kv_contains(a, key));
        } else {
            lemma_kv_lookup_concat(a.skip(1), b, key);
            assert(kv_contains(a, key) <==> kv_contains(a.skip(1), key)) by {
                if kv_contains(a, key) {
                    let i = choose|i: int| 0 <= i < a.len() && a[i].0 == key;
                    assert(a.skip(1)[i - 1].0 == key);
                }
                if kv_contains(a.skip(1), key) {
                    let i = choose|i: int| 0 <= i < a.skip(1).len() && a.skip(1)[i].0 == key;
                    assert(a[i + 1].0 == key);
                }
            }
        }
    }
}

/// An interleaving with no child batches is empty.
pub proof fn lemma_interleave_empty<V>(kvs: Seq<(usize, V)>)
    ensures
        interleave(Seq::<Seq<(usize, V)>>::empty(), kvs) == Seq::<(usize, V)>::empty(),
{
}

/// The denoted map contains exactly the keys of the sequence, with the
/// value that a lookup finds.
pub proof fn lemma_map_of_props<V>(s: Seq<(usize, V)>, key: usize)
    ensures
        map_of(s).dom().finite(),
        map_of(s).contains_key(key) == kv_contains(s, key),
        kv_contains(s, key) ==> kv_lookup(s, key) == Some(map_of(s)[key]),
    decreases s.len(),
{
    if s.len() == 0 {
        assert(!kv_contains(s, key));
    } else {
        lemma_map_of_props(s.skip(1), key);
        if s[0].0 == key {
            assert(kv_contains(s, key));
        } else {
            assert(kv_contains(s, key) <==> kv_contains(s.skip(1), key)) by {
                if kv_contains(s, key) {
                    let i = choose|i: int| 0 <= i < s.len() && s[i].0 == key;
                    assert(s.skip(1)[i - 1].0 == key);
                }
                if kv_contains(s.skip(1), key) {
                    let i = choose|i: int| 0 <= i < s.skip(1).len() && s.skip(1)[i].0 == key;
                    assert(s[i + 1].0 == key);
                }
            }
        }
    }
}

/// Inserting a pair in key order denotes a plain map insertion.
pub proof fn lemma_map_of_insert<V>(s: Seq<(usize, V)>, key: usize, value: V)
    ensures
        map_of(kv_insert(s, key, value)) == map_of(s).insert(key, value),
    decreases s.len(),
{
    if s.len() == 0 {
        assert(seq![(key, value)].skip(1) =~= Seq::<(usize, V)>::empty());
        assert(kv_insert(s, key, value) =~= seq![(key, value)]);
        assert(map_of(Seq::<(usize, V)>::empty()) =~= Map::<usize, V>::empty());
        assert(map_of(seq![(key, value)]) =~= Map::<usize, V>::empty().insert(key, value));
        assert(map_of(kv_insert(s, key, value)) =~= map_of(s).insert(key, value));
    } else if key < s[0].0 {
        assert((seq![(key, value)] + s).skip(1) =~= s);
        assert(map_of(kv_insert(s, key, value)) =~= map_of(s).insert(key, value));
    } else if key == s[0].0 {
        assert((seq![(key, value)] + s.skip(1)).skip(1) =~= s.skip(1));
        assert(map_of(kv_insert(s, key, value)) =~= map_of(s).insert(key, value));
    } else {
        lemma_map_of_insert(s.skip(1), key, value);
        assert((seq![s[0]] + kv_insert(s.skip(1), key, value)).skip(1) =~= kv_insert(
            s.skip(1),
            key,
            value,
        ));
        assert((seq![s[0]] + kv_insert(s.skip(1), key, value))[0] == s[0]);
        assert(map_of(kv_insert(s, key, value)) =~= map_of(s).insert(key, value));
    }
}

/// A sorted pair sequence has as many pairs as its map has keys.
pub proof fn lemma_map_of_len<V>(s: Seq<(usize, V)>)
    requires
        seq_sorted(s),
    ensures
        map_of(s).dom().finite(),
        map_of(s).dom().len() == s.len(),
    decreases s.len(),
{
    if s.len() > 0 {
        assert(seq_sorted(s.skip(1)));
        lemma_map_of_len(s.skip(1));
        lemma_map_of_props(s.skip(1), s[0].0);
        assert(!kv_contains(s.skip(1), s[0].0)) by {
            if kv_contains(s.skip(1), s[0].0) {
                let i = choose|i: int|
                    0 <= i < s.skip(1).len() && s.skip(1)[i].0 == s[0].0;
                assert(s[0].0 < s[i + 1].0);
            }
        }
        assert(map_of(s).dom() =~= map_of(s.skip(1)).dom().insert(s[0].0));
    }
}

/// Appending one child batch past the last separator extends the
/// interleaving at its end.
pub proof fn lemma_interleave_push_child<V>(
    css: Seq<Seq<(usize, V)>>,
    kvs: Seq<(usize, V)>,
    cs: Seq<(usize, V)>,
)
    requires
        css.len() == kvs.len(),
    ensures
        interleave(css.push(cs), kvs) == interleave(css, kvs) + cs,
    decreases css.len(),
{
    if css.len() == 0 {
        assert(css.push(cs)[0] == cs);
        assert(css.push(cs).skip(1) =~= Seq::<Seq<(usize, V)>>::empty());
        lemma_interleave_empty(kvs);
        assert(css =~= Seq::<Seq<(usize, V)>>::empty());
        assert(interleave(css.push(cs), kvs) =~= interleave(css, kvs) + cs);
    } else {
        assert(css.push(cs).skip(1) =~= css.skip(1).push(cs));
        lemma_interleave_push_child(css.skip(1), kvs.skip(1), cs);
        assert(css.push(cs)[0] == css[0]);
        assert(interleave(css.push(cs), kvs) =~= interleave(css, kvs) + cs);
    }
}

/// Appending one child batch and then its trailing separator pair extends
/// the interleaving at its end.
pub proof fn lemma_interleave_push_pair<V>(
    css: Seq<Seq<(usize, V)>>,
    kvs: Seq<(usize, V)>,
    cs: Seq<(usize, V)>,
    p: (usize, V),
)
    requires
        css.len() == kvs.len(),
    ensures
        interleave(css.push(cs), kvs.push(p)) == interleave(css, kvs) + cs + seq![p],
    decreases css.len(),
{
    if css.len() == 0 {
        assert(css.push(cs)[0] == cs);
        assert(kvs.push(p)[0] == p);
        assert(css.push(cs).skip(1) =~= Seq::<Seq<(usize, V)>>::empty());
        assert(kvs.push(p).skip(1) =~= Seq::<(usize, V)>::empty());
        lemma_interleave_empty(Seq::<(usize, V)>::empty());
        lemma_interleave_empty(kvs);
        assert(css =~= Seq::<Seq<(usize, V)>>::empty());
        assert(interleave(css.push(cs), kvs.push(p)) =~= interleave(css, kvs) + cs + seq![p]);
    } else {
        assert(css.push(cs).skip(1) =~= css.skip(1).push(cs));
        assert(kvs.push(p).skip(1) =~= kvs.skip(1).push(p));
        lemma_interleave_push_pair(css.skip(1), kvs.skip(1), cs, p);
        assert(css.push(cs)[0] == css[0]);
        assert(kvs.push(p)[0] == kvs[0]);
        assert(interleave(css.push(cs), kvs.push(p)) =~= interleave(css, kvs) + cs + seq![p]);
    }
}

/// The part of the interleaving before child `i`.
pub open spec fn inter_prefix<V>(css: Seq<Seq<(usize, V)>>, kvs: Seq<(usize, V)>, i: int) -> Seq<
    (usize, V),
> {
    interleave(css.take(i), kvs.take(i))
}

/// The part of the interleaving after child `i`: the separator at `i`, when
/// there is one, and everything that follows it.
pub open spec fn inter_suffix<V>(css: Seq<Seq<(usize, V)>>, kvs: Seq<(usize, V)>, i: int) -> Seq<
    (usize, V),
> {
    if i < kvs.len() {
        seq![kvs[i]] + interleave(css.skip(i + 1), kvs.skip(i + 1))
    } else {
        Seq::empty()
    }
}

/// The interleaving decomposes around any one child batch.
pub proof fn lemma_interleave_split_child<V>(
    css: Seq<Seq<(usize, V)>>,
    kvs: Seq<(usize, V)>,
    i: int,
)
    requires
        css.len() <= kvs.len() + 1,
        0 <= i < css.len(),
    ensures
        interleave(css, kvs) == inter_prefix(css, kvs, i) + css[i] + inter_suffix(css, kvs, i),
    decreases i,
{
    if i == 0 {
        assert(css.take(0) =~= Seq::<Seq<(usize, V)>>::empty());
        assert(kvs.take(0) =~= Seq::<(usize, V)>::empty());
        if kvs.len() == 0 {
            assert(css.skip(1) =~= Seq::<Seq<(usize, V)>>::empty());
            assert(interleave(css, kvs) == css[0] + interleave(css.skip(1), kvs));
            assert(interleave(css, kvs) =~= inter_prefix(css, kvs, 0) + css[0] + inter_suffix(
                css,
                kvs,
                0,
            ));
        } else {
            assert(interleave(css, kvs) =~= inter_prefix(css, kvs, 0) + css[0] + inter_suffix(
                css,
                kvs,
                0,
            ));
        }
    } else {
        lemma_interleave_split_child(css.skip(1), kvs.skip(1), i - 1);
        assert(css.skip(1).take(i - 1) =~= css.take(i).skip(1));
        assert(kvs.skip(1).take(i - 1) =~= kvs.take(i).skip(1));
        if i < kvs.len() {
            assert(css.skip(1).skip(i) =~= css.skip(i + 1));
            assert(kvs.skip(1).skip(i) =~= kvs.skip(i + 1));
            assert(kvs.skip(1)[i - 1] == kvs[i]);
        }
        assert(css.skip(1)[i - 1] == css[i]);
        assert(inter_prefix(css, kvs, i) == css.take(i)[0] + seq![kvs.take(i)[0]] + interleave(
            css.take(i).skip(1),
            kvs.take(i).skip(1),
        )) by {
            assert(css.take(i).len() > 0);
            assert(kvs.take(i).len() > 0);
        }
        assert(css.take(i)[0] == css[0]);
        assert(kvs.take(i)[0] == kvs[0]);
        assert(inter_suffix(css.skip(1), kvs.skip(1), i - 1) == inter_suffix(css, kvs, i)) by {
            if i < kvs.len() {
                assert(kvs.skip(1)[i - 1] == kvs[i]);
            }
        }
        assert(interleave(css, kvs) == css[0] + seq![kvs[0]] + interleave(css.skip(1), kvs.skip(1)));
        assert(interleave(css, kvs) =~= inter_prefix(css, kvs, i) + css[i] + inter_suffix(
            css,
            kvs,
            i,
        ));
    }
}

/// A bound respected by every batch and separator is respected by the
/// interleaving.
pub proof fn lemma_interleave_below<V>(css: Seq<Seq<(usize, V)>>, kvs: Seq<(usize, V)>, b: usize)
    requires
        forall|j: int| 0 <= j < css.len() ==> kv_below(#[trigger] css[j], b),
        kv_below(kvs, b),
    ensures
        kv_below(interleave(css, kvs), b),
    decreases css.len(),
{
    if css.len() > 0 {
        assert(css[0] == css[0]);
        assert(forall|j: int| 0 <= j < css.skip(1).len() ==> css.skip(1)[j] == css[j + 1]);
        if kvs.len() == 0 {
            lemma_interleave_below(css.skip(1), kvs, b);
        } else {
            assert(kv_below(kvs.skip(1), b));
            lemma_interleave_below(css.skip(1), kvs.skip(1), b);
        }
    }
}

/// A bound cleared by every batch and separator is cleared by the
/// interleaving.
pub proof fn lemma_interleave_above<V>(css: Seq<Seq<(usize, V)>>, kvs: Seq<(usize, V)>, b: usize)
    requires
        forall|j: int| 0 <= j < css.len() ==> kv_above(#[trigger] css[j], b),
        kv_above(kvs, b),
    ensures
        kv_above(interleave(css, kvs), b),
    decreases css.len(),
{
    if css.len() > 0 {
        assert(forall|j: int| 0 <= j < css.skip(1).len() ==> css.skip(1)[j] == css[j + 1]);
        if kvs.len() == 0 {
            lemma_interleave_above(css.skip(1), kvs, b);
        } else {
            assert(kv_above(kvs.skip(1), b));
            lemma_interleave_above(css.skip(1), kvs.skip(1), b);
        }
    }
}

/// Sorted batches between sorted separators interleave into a sorted whole.
pub proof fn lemma_interleave_sorted<V>(css: Seq<Seq<(usize, V)>>, kvs: Seq<(usize, V)>)
    requires
        css.len() == kvs.len() + 1,
        forall|j: int| 0 <= j < css.len() ==> seq_sorted(#[trigger] css[j]),
        seq_sorted(kvs),
        forall|j: int| 0 <= j < kvs.len() ==> kv_below(#[trigger] css[j], kvs[j].0),
        forall|j: int| 0 < j < css.len() ==> kv_above(#[trigger] css[j], kvs[j - 1].0),
    ensures
        seq_sorted(interleave(css, kvs)),
    decreases css.len(),
{
    if kvs.len() == 0 {
        assert(css.skip(1) =~= Seq::<Seq<(usize, V)>>::empty());
        lemma_interleave_empty(kvs);
        assert(interleave(css, kvs) =~= css[0]);
    } else {
        assert(forall|j: int| 0 <= j < css.skip(1).len() ==> css.skip(1)[j] == css[j + 1]);
        assert(forall|j: int| 0 <= j < kvs.skip(1).len() ==> kvs.skip(1)[j] == kvs[j + 1]);
        assert(seq_sorted(kvs.skip(1)));
        lemma_interleave_sorted(css.skip(1), kvs.skip(1));
        assert(kv_above(interleave(css.skip(1), kvs.skip(1)), kvs[0].0)) by {
            assert(forall|j: int|
                0 <= j < css.skip(1).len() ==> kv_above(#[trigger] css.skip(1)[j], kvs[0].0)) by {
                assert(forall|j: int, t: int|
                    0 <= j < css.skip(1).len() && 0 <= t < css.skip(1)[j].len() ==> (
                    #[trigger] css.skip(1)[j][t]).0 > kvs[0].0) by {
                    assert forall|j: int, t: int|
                        0 <= j < css.skip(1).len() && 0 <= t < css.skip(1)[j].len() implies (
                        #[trigger] css.skip(1)[j][t]).0 > kvs[0].0 by {
                        assert(css.skip(1)[j] == css[j + 1]);
                        assert(kv_above(css[j + 1], kvs[j].0));
                        assert(css[j + 1][t].0 > kvs[j].0);
                        assert(j > 0 ==> kvs[0].0 < kvs[j].0);
                    }
                }
            }
            assert(kv_above(kvs.skip(1), kvs[0].0));
            lemma_interleave_above(css.skip(1), kvs.skip(1), kvs[0].0);
        }
        let rest = interleave(css.skip(1), kvs.skip(1));
        let whole = css[0] + seq![kvs[0]] + rest;
        assert(interleave(css, kvs) == whole);
        assert(seq_sorted(whole)) by {
            assert(kv_below(css[0], kvs[0].0));
            assert forall|x: int, y: int| 0 <= x < y < whole.len() implies whole[x].0 < whole[y].0
            by {
                let n0 = css[0].len() as int;
                assert(forall|t: int| 0 <= t < n0 ==> whole[t] == css[0][t]);
                assert(whole[n0] == kvs[0]);
                assert(forall|t: int| n0 + 1 <= t < whole.len() ==> whole[t] == rest[t - n0 - 1]);
            }
        }
    }
}

/// At the scan position, `kv_insert` is a plain replacement or a plain
/// sequence insertion.
pub proof fn lemma_kv_insert_at<V>(s: Seq<(usize, V)>, key: usize, value: V, idx: int)
    requires
        0 <= idx <= s.len(),
        forall|j: int| 0 <= j < idx ==> (#[trigger] s[j]).0 < key,
        idx < s.len() ==> key <= s[idx].0,
    ensures
        idx < s.len() && s[idx].0 == key ==> kv_insert(s, key, value) == s.update(
            idx,
            (key, value),
        ),
        !(idx < s.len() && s[idx].0 == key) ==> kv_insert(s, key, value) == s.insert(
            idx,
            (key, value),
        ),
{
    let a = s.take(idx);
    let b = s.skip(idx);
    assert(s =~= a + b);
    assert(kv_below(a, key));
    lemma_kv_insert_concat_left(a, b, key, value);
    if b.len() == 0 {
        assert(kv_insert(b, key, value) =~= seq![(key, value)]);
        assert(a + seq![(key, value)] =~= s.insert(idx, (key, value)));
    } else if b[0].0 == key {
        assert(kv_insert(b, key, value) =~= seq![(key, value)] + b.skip(1));
        assert(a + (seq![(key, value)] + b.skip(1)) =~= s.update(idx, (key, value)));
    } else {
        assert(key < b[0].0);
        assert(kv_insert(b, key, value) =~= seq![(key, value)] + b);
        assert(a + (seq![(key, value)] + b) =~= s.insert(idx, (key, value)));
    }
}

/// At the scan position, a lookup either hits the slot or misses the
/// whole sorted sequence.
pub proof fn lemma_kv_lookup_at<V>(s: Seq<(usize, V)>, key: usize, idx: int)
    requires
        seq_sorted(s),
        0 <= idx <= s.len(),
        forall|j: int| 0 <= j < idx ==> (#[trigger] s[j]).0 < key,
        idx < s.len() ==> key <= s[idx].0,
    ensures
        idx < s.len() && s[idx].0 == key ==> kv_lookup(s, key) == Some(s[idx].1),
        !(idx < s.len() && s[idx].0 == key) ==> kv_lookup(s, key) is None && !kv_contains(s, key),
{
    let a = s.take(idx);
    let b = s.skip(idx);
    assert(s =~= a + b);
    lemma_kv_lookup_concat(a, b, key);
    assert(!kv_contains(a, key));
    if idx < s.len() && s[idx].0 == key {
        assert(b[0] == s[idx]);
    } else {
        assert(forall|j: int| 0 <= j < s.len() ==> (#[trigger] s[j]).0 != key) by {
            assert(forall|j: int| idx <= j < s.len() ==> s[idx].0 <= (#[trigger] s[j]).0);
        }
        lemma_kv_lookup_contains(s, key);
        assert(kv_lookup(s, key) is None);
    }
}

/// The interleaving decomposes around any one separator pair.
pub proof fn lemma_interleave_split_kv<V>(css: Seq<Seq<(usize, V)>>, kvs: Seq<(usize, V)>, m: int)
    requires
        css.len() <= kvs.len() + 1,
        0 <= m < kvs.len(),
        m < css.len(),
    ensures
        interleave(css, kvs) == interleave(css.take(m + 1), kvs.take(m)) + seq![kvs[m]]
            + interleave(css.skip(m + 1), kvs.skip(m + 1)),
{
    lemma_interleave_split_child(css, kvs, m);
    assert(css.take(m + 1) =~= css.take(m).push(css[m]));
    lemma_interleave_push_child(css.take(m), kvs.take(m), css[m]);
    assert(interleave(css, kvs) =~= interleave(css.take(m + 1), kvs.take(m)) + seq![kvs[m]]
        + interleave(css.skip(m + 1), kvs.skip(m + 1)));
}

/// Replacing one child batch replaces its segment of the interleaving.
pub proof fn lemma_interleave_update_child<V>(
    css: Seq<Seq<(usize, V)>>,
    kvs: Seq<(usize, V)>,
    i: int,
    cl: Seq<(usize, V)>,
)
    requires
        css.len() == kvs.len() + 1,
        0 <= i < css.len(),
    ensures
        interleave(css.update(i, cl), kvs) == inter_prefix(css, kvs, i) + cl + inter_suffix(
            css,
            kvs,
            i,
        ),
{
    let css2 = css.update(i, cl);
    lemma_interleave_split_child(css2, kvs, i);
    assert(css2.take(i) =~= css.take(i));
    assert(css2.skip(i + 1) =~= css.skip(i + 1));
    assert(inter_prefix(css2, kvs, i) == inter_prefix(css, kvs, i));
    assert(inter_suffix(css2, kvs, i) == inter_suffix(css, kvs, i));
}

/// Splitting child `i` into `cl`, a promoted pair `p` and `cr` rewrites its
/// segment of the interleaving in place.
pub proof fn lemma_interleave_insert_pair<V>(
    css: Seq<Seq<(usize, V)>>,
    kvs: Seq<(usize, V)>,
    i: int,
    cl: Seq<(usize, V)>,
    cr: Seq<(usize, V)>,
    p: (usize, V),
)
    requires
        css.len() == kvs.len() + 1,
        0 <= i < css.len(),
    ensures
        interleave(css.update(i, cl).insert(i + 1, cr), kvs.insert(i, p)) == inter_prefix(
            css,
            kvs,
            i,
        ) + cl + seq![p] + cr + inter_suffix(css, kvs, i),
{
    let css2 = css.update(i, cl).insert(i + 1, cr);
    let kvs2 = kvs.insert(i, p);
    lemma_interleave_split_child(css2, kvs2, i);
    assert(css2.take(i) =~= css.take(i));
    assert(kvs2.take(i) =~= kvs.take(i));
    assert(css2[i] == cl);
    assert(kvs2[i] == p);
    assert(css2.skip(i + 1) =~= seq![cr] + css.skip(i + 1));
    assert(kvs2.skip(i + 1) =~= kvs.skip(i));
    if i < kvs.len() {
        assert((seq![cr] + css.skip(i + 1))[0] == cr);
        assert((seq![cr] + css.skip(i + 1)).skip(1) =~= css.skip(i + 1));
        assert(kvs.skip(i)[0] == kvs[i]);
        assert(kvs.skip(i).skip(1) =~= kvs.skip(i + 1));
        assert(interleave(seq![cr] + css.skip(i + 1), kvs.skip(i)) == cr + seq![kvs[i]]
            + interleave(css.skip(i + 1), kvs.skip(i + 1)));
        assert(interleave(css2, kvs2) =~= inter_prefix(css, kvs, i) + cl + seq![p] + cr
            + inter_suffix(css, kvs, i));
    } else {
        assert(kvs.skip(i) =~= Seq::<(usize, V)>::empty());
        assert(css.skip(i + 1) =~= Seq::<Seq<(usize, V)>>::empty());
        assert((seq![cr] + css.skip(i + 1)) =~= seq![cr]);
        assert(seq![cr].skip(1) =~= Seq::<Seq<(usize, V)>>::empty());
        lemma_interleave_empty(Seq::<(usize, V)>::empty());
        assert(interleave(seq![cr], Seq::<(usize, V)>::empty()) == cr + interleave(
            seq![cr].skip(1),
            Seq::<(usize, V)>::empty(),
        ));
        assert(interleave(css2, kvs2) =~= inter_prefix(css, kvs, i) + cl + seq![p] + cr
            + inter_suffix(css, kvs, i));
    }
}

impl<V> Node<V> {
    /// A well-formed subtree lists its entries in strictly ascending key
    /// order.
    pub(crate) proof fn lemma_entries_sorted(self)
        requires
            self.wf(),
        ensures
            seq_sorted(self.entries()),
        decreases self,
    {
        if self.is_leaf() {
            assert(seq_sorted(kv_seq(self.keys@, self.vals@)));
        } else {
            let css = self.child_entry_seqs(0);
            let kvs = kv_seq(self.keys@, self.vals@);
            lemma_child_entry_seqs(self, 0);
            assert forall|j: int| 0 <= j < css.len() implies seq_sorted(#[trigger] css[j]) by {
                assert(css[j] == self.children@[j].entries());
                self.children@[j].lemma_entries_sorted();
            }
            assert(seq_sorted(kvs));
            assert(forall|j: int|
                0 <= j < kvs.len() ==> kv_below(#[trigger] css[j], kvs[j].0));
            assert(forall|j: int|
                0 < j < css.len() ==> kv_above(#[trigger] css[j], kvs[j - 1].0));
            lemma_interleave_sorted(css, kvs);
        }
    }

    /// Around scan position `idx`, the entries of an internal node split
    /// into a part below the probe key, the subtree of child `idx`, and a
    /// part above the probe key.
    pub(crate) proof fn lemma_descend(self, key: usize, idx: int)
        requires
            self.wf(),
            !self.is_leaf(),
            0 <= idx <= self.keys@.len(),
            forall|j: int| 0 <= j < idx ==> self.keys@[j] < key,
            idx < self.keys@.len() ==> key < self.keys@[idx],
        ensures
            self.entries() == inter_prefix(self.child_entry_seqs(0), kv_seq(self.keys@, self.vals@), idx)
                + self.children@[idx].entries()
                + inter_suffix(self.child_entry_seqs(0), kv_seq(self.keys@, self.vals@), idx),
            kv_below(inter_prefix(self.child_entry_seqs(0), kv_seq(self.keys@, self.vals@), idx), key),
            kv_above(inter_suffix(self.child_entry_seqs(0), kv_seq(self.keys@, self.vals@), idx), key),
            kv_lookup(self.entries(), key) == kv_lookup(self.children@[idx].entries(), key),
            kv_contains(self.entries(), key) == kv_contains(self.children@[idx].entries(), key),
    {
        let css = self.child_entry_seqs(0);
        let kvs = kv_seq(self.keys@, self.vals@);
        lemma_child_entry_seqs(self, 0);
        lemma_interleave_split_child(css, kvs, idx);
        let pre = inter_prefix(css, kvs, idx);
        let mid = self.children@[idx].entries();
        let suf = inter_suffix(css, kvs, idx);
        assert(kv_below(pre, key)) by {
            assert forall|j: int|
                0 <= j < css.take(idx).len() implies kv_below(#[trigger] css.take(idx)[j], key) by {
                assert(css.take(idx)[j] == self.children@[j].entries());
                assert(kv_below(self.children@[j].entries(), self.keys@[j]));
                assert(self.keys@[j] < key);
            }
            assert(kv_below(kvs.take(idx), key));
            lemma_interleave_below(css.take(idx), kvs.take(idx), key);
        }
        assert(kv_above(suf, key)) by {
            if idx < kvs.len() {
                assert(kv_above(interleave(css.skip(idx + 1), kvs.skip(idx + 1)), key)) by {
                    assert forall|j: int|
                        0 <= j < css.skip(idx + 1).len() implies kv_above(
                        #[trigger] css.skip(idx + 1)[j],
                        key,
                    ) by {
                        assert(css.skip(idx + 1)[j] == self.children@[idx + 1 + j].entries());
                        assert(kv_above(self.children@[idx + 1 + j].entries(), self.keys@[idx + j]));
                        assert(self.keys@[idx] <= self.keys@[idx + j]);
                        assert(forall|t: int|
                            0 <= t < self.children@[idx + 1 + j].entries().len() ==> (
                            #[trigger] self.children@[idx + 1 + j].entries()[t]).0 > key);
                    }
                    assert(kv_above(kvs.skip(idx + 1), key));
                    lemma_interleave_above(css.skip(idx + 1), kvs.skip(idx + 1), key);
                }
                assert(kvs[idx].0 > key);
            }
        }
        assert(self.entries() =~= pre + (mid + suf));
        lemma_kv_lookup_concat(pre, mid + suf, key);
        assert(!kv_contains(pre, key));
        lemma_kv_lookup_concat(mid, suf, key);
        assert(!kv_contains(suf, key));
        lemma_kv_lookup_contains(suf, key);
        lemma_kv_lookup_contains(mid, key);
        assert(kv_lookup(self.entries(), key) == kv_lookup(mid, key));
        assert(kv_contains(self.entries(), key) == kv_contains(mid, key)) by {
            lemma_kv_lookup_contains(self.entries(), key);
        }
    }
}

impl<V> Node<V> {
    /// Split a full node at pivot slot `T`: the left half stays in `self`,
    /// the pivot pair is promoted to the caller, and the slots and children
    /// past the pivot move to a freshly allocated right sibling.
    fn split(&mut self) -> (r: (usize, V, Node<V>))
        requires
            old(self).wf(),
            old(self).keys@.len() == 2 * T - 1,
        ensures
            final(self).wf(),
            r.2.wf(),
            final(self).height() == old(self).height(),
            r.2.height() == old(self).height(),
            final(self).is_leaf() == old(self).is_leaf(),
            final(self).keys@.len() == T,
            r.2.keys@.len() == T - 2,
            final(self).entries() + seq![(r.0, r.1)] + r.2.entries() == old(self).entries(),
            kv_below(final(self).entries(), r.0),
            kv_above(r.2.entries(), r.0),
            final(self).keys@ == old(self).keys@.take(T as int),
            final(self).vals@ == old(self).vals@.take(T as int),
            r.2.keys@ == old(self).keys@.skip(T as int + 1),
            r.2.vals@ == old(self).vals@.skip(T as int + 1),
            (r.0, r.1) == (old(self).keys@[T as int], old(self).vals@[T as int]),
            final(self).children@ == (if old(self).is_leaf() {
                old(self).children@
            } else {
                old(self).children@.take(T as int + 1)
            }),
            r.2.children@ == (if old(self).is_leaf() {
                Seq::<Node<V>>::empty()
            } else {
                old(self).children@.skip(T as int + 1)
            }),
    {
        proof {
            old(self).lemma_entries_sorted();
        }
        let right_keys = self.keys.split_off(T + 1);
        let k = self.keys.pop().unwrap();
        let right_vals = self.vals.split_off(T + 1);
        let v = self.vals.pop().unwrap();
        let right_children = if self.children.len() > 0 {
            self.children.split_off(T + 1)
        } else {
            Vec::new()
        };
        let right = Node { keys: right_keys, vals: right_vals, children: right_children };
        proof {
            let ok = old(self).keys@;
            let ov = old(self).vals@;
            let oc = old(self).children@;
            let tt = T as int;
            assert(self.keys@ =~= ok.take(tt));
            assert(self.vals@ =~= ov.take(tt));
            assert(right.keys@ =~= ok.skip(tt + 1));
            assert(right.vals@ =~= ov.skip(tt + 1));
            if old(self).is_leaf() {
                assert(self.children@ =~= oc);
                assert(right.children@ =~= Seq::<Node<V>>::empty());
                assert(self.entries() =~= kv_seq(ok.take(tt), ov.take(tt)));
                assert(right.entries() =~= kv_seq(ok.skip(tt + 1), ov.skip(tt + 1)));
                assert(self.entries() + seq![(k, v)] + right.entries() =~= old(self).entries());
                assert(self.wf());
                assert(right.wf());
                assert(self.height() == 0);
                assert(right.height() == 0);
            } else {
                assert(self.children@ =~= oc.take(tt + 1));
                assert(right.children@ =~= oc.skip(tt + 1));
                let css = old(self).child_entry_seqs(0);
                let kvs = kv_seq(ok, ov);
                lemma_child_entry_seqs(*old(self), 0);
                lemma_interleave_split_kv(css, kvs, tt);
                // the left half is the prefix of the decomposition
                lemma_child_entry_seqs(*self, 0);
                assert(self.child_entry_seqs(0) =~= css.take(tt + 1)) by {
                    assert(forall|j: int|
                        0 <= j < tt + 1 ==> #[trigger] self.children@[j] == oc[j]);
                }
                assert(kv_seq(self.keys@, self.vals@) =~= kvs.take(tt));
                assert(!self.is_leaf());
                assert(self.entries() == interleave(css.take(tt + 1), kvs.take(tt)));
                // the right half is the suffix of the decomposition
                lemma_child_entry_seqs(right, 0);
                assert(right.child_entry_seqs(0) =~= css.skip(tt + 1)) by {
                    assert(forall|j: int|
                        0 <= j < right.children@.len() ==> #[trigger] right.children@[j] == oc[j
                            + tt + 1]);
                }
                assert(kv_seq(right.keys@, right.vals@) =~= kvs.skip(tt + 1));
                assert(!right.is_leaf());
                assert(right.entries() == interleave(css.skip(tt + 1), kvs.skip(tt + 1)));
                assert((k, v) == kvs[tt]);
                assert(self.entries() + seq![(k, v)] + right.entries() =~= old(self).entries());
                // well-formedness of the two halves
                assert(self.wf()) by {
                    assert(forall|j: int|
                        0 <= j < self.children@.len() ==> #[trigger] self.children@[j] == oc[j]);
                    assert(forall|j: int|
                        0 <= j < self.keys@.len() ==> #[trigger] self.keys@[j] == ok[j]);
                }
                assert(right.wf()) by {
                    assert(forall|j: int|
                        0 <= j < right.children@.len() ==> #[trigger] right.children@[j] == oc[j
                            + tt + 1]);
                    assert(forall|j: int|
                        0 <= j < right.keys@.len() ==> #[trigger] right.keys@[j] == ok[j + tt
                            + 1]);
                }
                assert(self.height() == old(self).height()) by {
                    assert(self.children@[0] == oc[0]);
                }
                assert(right.height() == old(self).height()) by {
                    assert(right.children@[0] == oc[tt + 1]);
                    assert(oc[tt + 1].height() + 1 == old(self).height());
                }
            }
            // the promoted key separates the halves, by sortedness
            let whole = old(self).entries();
            let nl = self.entries().len() as int;
            assert(kv_below(self.entries(), k)) by {
                assert(forall|t: int| 0 <= t < nl ==> #[trigger] self.entries()[t] == whole[t]);
                assert(whole[nl] == (k, v));
            }
            assert(kv_above(right.entries(), k)) by {
                assert(forall|t: int|
                    0 <= t < right.entries().len() ==> #[trigger] right.entries()[t] == whole[nl
                        + 1 + t]);
                assert(whole[nl] == (k, v));
            }
        }
        (k, v, right)
    }
}

impl<V> Node<V> {
    /// Insert a fresh pair into a leaf at scan position `idx`, splitting
    /// first when the leaf is full; on a split, the new pair lands in
    /// whichever half its position falls into.
    #[verifier::rlimit(100)]
    #[verifier::spinoff_prover]
    fn insert_pair(&mut self, idx: usize, key: usize, value: V) -> (r: InsertResult<V>)
        requires
            old(self).wf(),
            old(self).is_leaf(),
            idx <= old(self).keys@.len(),
            forall|j: int| 0 <= j < idx ==> old(self).keys@[j] < key,
            idx < old(self).keys@.len() ==> key < old(self).keys@[idx as int],
        ensures
            final(self).wf(),
            final(self).height() == old(self).height(),
            match r {
                InsertResult::Fit => {
                    &&& final(self).entries() == kv_insert(old(self).entries(), key, value)
                    &&& final(self).keys@.len() == old(self).keys@.len() + 1
                },
                InsertResult::Split(pk, pv, right) => {
                    &&& final(self).entries() + seq![(pk, pv)] + right.entries() == kv_insert(
                        old(self).entries(),
                        key,
                        value,
                    )
                    &&& right.wf()
                    &&& right.height() == old(self).height()
                    &&& T <= final(self).keys@.len() <= T + 1
                    &&& T - 2 <= right.keys@.len() <= T - 1
                    &&& kv_below(final(self).entries(), pk)
                    &&& kv_above(right.entries(), pk)
                },
            },
    {
        proof {
            lemma_kv_insert_at(old(self).entries(), key, value, idx as int);
        }
        if self.keys.len() < 2 * T - 1 {
            self.keys.insert(idx, key);
            self.vals.insert(idx, value);
            proof {
                assert(self.entries() =~= old(self).entries().insert(idx as int, (key, value)));
                assert(self.wf()) by {
                    assert(forall|j: int|
                        0 <= j < idx ==> #[trigger] self.keys@[j] == old(self).keys@[j]);
                    assert(forall|j: int|
                        idx < j < self.keys@.len() ==> #[trigger] self.keys@[j] == old(
                            self,
                        ).keys@[j - 1]);
                }
            }
            InsertResult::Fit
        } else {
            let (pk, pv, mut right) = self.split();
            let ghost left0 = *self;
            let ghost right0 = right;
            let ghost whole = old(self).entries();
            proof {
                old(self).lemma_entries_sorted();
                lemma_kv_insert_sorted(whole, key, value);
            }
            if idx <= T {
                self.keys.insert(idx, key);
                self.vals.insert(idx, value);
                proof {
                    assert(key < pk) by {
                        if idx < T {
                            assert(old(self).keys@[idx as int] <= old(self).keys@[T as int]);
                        }
                    }
                    assert(self.entries() =~= left0.entries().insert(idx as int, (key, value)));
                    lemma_kv_insert_at(left0.entries(), key, value, idx as int);
                    assert(forall|j: int|
                        0 <= j < idx ==> (#[trigger] left0.entries()[j]).0 == old(self).keys@[j]);
                    assert(idx < T ==> left0.entries()[idx as int].0 == old(self).keys@[idx as int]);
                    assert(self.entries() == kv_insert(left0.entries(), key, value));
                    assert(kv_above(seq![(pk, pv)] + right.entries(), key));
                    lemma_kv_insert_concat_right(
                        left0.entries(),
                        seq![(pk, pv)] + right.entries(),
                        key,
                        value,
                    );
                    assert(left0.entries() + (seq![(pk, pv)] + right.entries()) =~= whole);
                    assert(self.entries() + seq![(pk, pv)] + right.entries() =~= kv_insert(
                        left0.entries(),
                        key,
                        value,
                    ) + (seq![(pk, pv)] + right.entries()));
                    assert(self.wf()) by {
                        assert(forall|j: int|
                            0 <= j < idx ==> #[trigger] self.keys@[j] == old(self).keys@[j]);
                        assert(forall|j: int|
                            idx < j < self.keys@.len() ==> #[trigger] self.keys@[j] == old(
                                self,
                            ).keys@[j - 1]);
                    }
                    lemma_kv_insert_below(left0.entries(), key, value, pk);
                }
                InsertResult::Split(pk, pv, right)
            } else {
                right.keys.insert(idx - T - 1, key);
                right.vals.insert(idx - T - 1, value);
                proof {
                    assert(pk < key) by {
                        assert(old(self).keys@[T as int] < key);
                    }
                    assert(right.entries() =~= right0.entries().insert(
                        idx - T - 1,
                        (key, value),
                    ));
                    lemma_kv_insert_at(right0.entries(), key, value, idx - T - 1);
                    assert(forall|j: int|
                        0 <= j < idx - T - 1 ==> (#[trigger] right0.entries()[j]).0 == old(
                            self,
                        ).keys@[j + T + 1]);
                    assert(idx - T - 1 < right0.keys@.len() ==> right0.entries()[idx - T - 1].0
                        == old(self).keys@[idx as int]);
                    assert(right.entries() == kv_insert(right0.entries(), key, value));
                    assert(kv_below(left0.entries() + seq![(pk, pv)], key)) by {
                        assert(forall|t: int|
                            0 <= t < left0.entries().len() ==> (#[trigger] left0.entries()[t]).0
                                < pk);
                    }
                    lemma_kv_insert_concat_left(
                        left0.entries() + seq![(pk, pv)],
                        right0.entries(),
                        key,
                        value,
                    );
                    assert((left0.entries() + seq![(pk, pv)]) + right0.entries() =~= whole);
                    assert(left0.entries() + seq![(pk, pv)] + right.entries() =~= (left0.entries()
                        + seq![(pk, pv)]) + kv_insert(right0.entries(), key, value));
                    assert(right.wf()) by {
                        assert(forall|j: int|
                            0 <= j < idx - T - 1 ==> #[trigger] right.keys@[j] == right0.keys@[j]);
                        assert(forall|j: int|
                            idx - T - 1 < j < right.keys@.len() ==> #[trigger] right.keys@[j]
                                == right0.keys@[j - 1]);
                        assert(forall|j: int|
                            0 <= j < right0.keys@.len() ==> #[trigger] right0.keys@[j] == old(
                                self,
                            ).keys@[j + T + 1]);
                    }
                    lemma_kv_insert_above(right0.entries(), key, value, pk);
                }
                InsertResult::Split(pk, pv, right)
            }
        }
    }
}

impl<V> Node<V> {
    /// Push a promoted pair and its right-sibling edge into an internal
    /// node with spare capacity, just after child `idx`.
    #[verifier::rlimit(100)]
    #[verifier::spinoff_prover]
    fn insert_edge_fit(&mut self, idx: usize, k: usize, v: V, rc: Node<V>) -> (r: InsertResult<V>)
        requires
            old(self).wf(),
            !old(self).is_leaf(),
            idx < old(self).children@.len(),
            old(self).keys@.len() < 2 * T - 1,
            rc.wf(),
            rc.height() + 1 == old(self).height(),
            rc.keys@.len() + 2 >= T,
            kv_below(old(self).children@[idx as int].entries(), k),
            kv_above(rc.entries(), k),
            idx < old(self).keys@.len() ==> k < old(self).keys@[idx as int] && kv_below(
                rc.entries(),
                old(self).keys@[idx as int],
            ),
            idx > 0 ==> k > old(self).keys@[idx - 1],
        ensures
            final(self).wf(),
            final(self).height() == old(self).height(),
            final(self).entries() == old(self).spliced(idx as int, k, v, rc),
            final(self).keys@.len() == old(self).keys@.len() + 1,
            r == InsertResult::<V>::Fit,
    {
        let ghost css = old(self).child_entry_seqs(0);
        let ghost kvs = kv_seq(old(self).keys@, old(self).vals@);
        let ghost cl = old(self).children@[idx as int].entries();
        let ghost rce = rc.entries();
        proof {
            lemma_child_entry_seqs(*old(self), 0);
        }
        self.keys.insert(idx, k);
        self.vals.insert(idx, v);
        self.children.insert(idx + 1, rc);
        proof {
            lemma_child_entry_seqs(*self, 0);
            assert(self.child_entry_seqs(0) =~= css.update(idx as int, cl).insert(idx + 1, rce))
                by {
                assert(forall|j: int|
                    0 <= j <= idx ==> #[trigger] self.children@[j] == old(self).children@[j]);
                assert(forall|j: int|
                    idx + 1 < j < self.children@.len() ==> #[trigger] self.children@[j] == old(
                        self,
                    ).children@[j - 1]);
            }
            assert(kv_seq(self.keys@, self.vals@) =~= kvs.insert(idx as int, (k, v)));
            lemma_interleave_insert_pair(css, kvs, idx as int, cl, rce, (k, v));
            assert(!self.is_leaf());
            assert(self.entries() =~= old(self).spliced(idx as int, k, v, rc));
            assert(self.wf()) by {
                assert(forall|j: int|
                    0 <= j < idx ==> #[trigger] self.keys@[j] == old(self).keys@[j]);
                assert(forall|j: int|
                    idx < j < self.keys@.len() ==> #[trigger] self.keys@[j] == old(self).keys@[j
                        - 1]);
                assert(keys_sorted(self.keys@)) by {
                    assert(forall|j: int| 0 <= j < idx ==> old(self).keys@[j] < k);
                    assert(forall|j: int|
                        idx <= j < old(self).keys@.len() ==> k < old(self).keys@[j]);
                }
            }
            assert(self.height() == old(self).height()) by {
                assert(self.children@[0] == old(self).children@[0]);
            }
        }
        InsertResult::Fit
    }

    /// Push a promoted pair and its right-sibling edge into an internal
    /// node just after child `idx`, splitting first when the node is full;
    /// on a split, the triple lands in whichever half position `idx` falls
    /// into.
    #[verifier::rlimit(100)]
    #[verifier::spinoff_prover]
    fn insert_edge(&mut self, idx: usize, k: usize, v: V, rc: Node<V>) -> (r: InsertResult<V>)
        requires
            old(self).wf(),
            !old(self).is_leaf(),
            idx < old(self).children@.len(),
            rc.wf(),
            rc.height() + 1 == old(self).height(),
            rc.keys@.len() + 2 >= T,
            kv_below(old(self).children@[idx as int].entries(), k),
            kv_above(rc.entries(), k),
            idx < old(self).keys@.len() ==> k < old(self).keys@[idx as int] && kv_below(
                rc.entries(),
                old(self).keys@[idx as int],
            ),
            idx > 0 ==> k > old(self).keys@[idx - 1],
            seq_sorted(old(self).spliced(idx as int, k, v, rc)),
        ensures
            final(self).wf(),
            final(self).height() == old(self).height(),
            match r {
                InsertResult::Fit => {
                    &&& final(self).entries() == old(self).spliced(idx as int, k, v, rc)
                    &&& final(self).keys@.len() == old(self).keys@.len() + 1
                },
                InsertResult::Split(pk, pv, right) => {
                    &&& final(self).entries() + seq![(pk, pv)] + right.entries() == old(
                        self,
                    ).spliced(idx as int, k, v, rc)
                    &&& right.wf()
                    &&& right.height() == old(self).height()
                    &&& T <= final(self).keys@.len() <= T + 1
                    &&& T - 2 <= right.keys@.len() <= T - 1
                    &&& kv_below(final(self).entries(), pk)
                    &&& kv_above(right.entries(), pk)
                },
            },
    {
        let ghost css = old(self).child_entry_seqs(0);
        let ghost kvs = kv_seq(old(self).keys@, old(self).vals@);
        let ghost cl = old(self).children@[idx as int].entries();
        let ghost rce = rc.entries();
        let ghost target = old(self).spliced(idx as int, k, v, rc);
        proof {
            lemma_child_entry_seqs(*old(self), 0);
        }
        if self.keys.len() < 2 * T - 1 {
            self.insert_edge_fit(idx, k, v, rc)
        } else {
            let (pk, pv, mut right) = self.split();
            let ghost left0 = *self;
            let ghost right0 = right;
            proof {
                assert(left0.child_entry_seqs(0) =~= css.take(T as int + 1)) by {
                    lemma_child_entry_seqs(left0, 0);
                    assert(forall|j: int|
                        0 <= j < T + 1 ==> #[trigger] left0.children@[j] == old(
                            self,
                        ).children@[j]);
                }
                assert(kv_seq(left0.keys@, left0.vals@) =~= kvs.take(T as int));
                assert(right0.child_entry_seqs(0) =~= css.skip(T as int + 1)) by {
                    lemma_child_entry_seqs(right0, 0);
                    assert(forall|j: int|
                        0 <= j < right0.children@.len() ==> #[trigger] right0.children@[j] == old(
                            self,
                        ).children@[j + T + 1]);
                }
                assert(kv_seq(right0.keys@, right0.vals@) =~= kvs.skip(T as int + 1));
                assert(!left0.is_leaf() && !right0.is_leaf());
                assert(left0.entries() == interleave(css.take(T as int + 1), kvs.take(T as int)));
                assert(right0.entries() == interleave(
                    css.skip(T as int + 1),
                    kvs.skip(T as int + 1),
                ));
            }
            if idx <= T {
                proof {
                    let tt = T as int;
                    let cssl = css.take(tt + 1);
                    let kvsl = kvs.take(tt);
                    // context for pushing the triple into the left half
                    assert(left0.children@[idx as int] == old(self).children@[idx as int]);
                    assert(idx < left0.keys@.len() ==> left0.keys@[idx as int] == old(
                        self,
                    ).keys@[idx as int]);
                    assert(idx > 0 ==> left0.keys@[idx - 1] == old(self).keys@[idx - 1]);
                    // the prefixes around child idx agree between node and left half
                    assert(inter_prefix(cssl, kvsl, idx as int) == inter_prefix(
                        css,
                        kvs,
                        idx as int,
                    )) by {
                        assert(cssl.take(idx as int) =~= css.take(idx as int));
                        assert(kvsl.take(idx as int) =~= kvs.take(idx as int));
                    }
                    // the node suffix carries the promoted pair and the right half
                    assert(inter_suffix(css, kvs, idx as int) == inter_suffix(
                        cssl,
                        kvsl,
                        idx as int,
                    ) + seq![(pk, pv)] + right0.entries()) by {
                        if idx < T {
                            let aa = css.skip(idx + 1);
                            let bb = kvs.skip(idx + 1);
                            lemma_interleave_split_kv(aa, bb, tt - idx - 1);
                            assert(aa.take(tt - idx) =~= cssl.skip(idx + 1));
                            assert(bb.take(tt - idx - 1) =~= kvsl.skip(idx + 1));
                            assert(aa.skip(tt - idx) =~= css.skip(tt + 1));
                            assert(bb.skip(tt - idx) =~= kvs.skip(tt + 1));
                            assert(bb[tt - idx - 1] == kvs[tt]);
                            assert(kvs[tt] == (pk, pv));
                            assert(kvsl[idx as int] == kvs[idx as int]);
                            assert(inter_suffix(css, kvs, idx as int) =~= inter_suffix(
                                cssl,
                                kvsl,
                                idx as int,
                            ) + seq![(pk, pv)] + right0.entries());
                        } else {
                            assert(idx == T);
                            assert(inter_suffix(cssl, kvsl, idx as int) =~= Seq::<
                                (usize, V),
                            >::empty());
                            assert(kvs[tt] == (pk, pv));
                            assert(inter_suffix(css, kvs, idx as int) =~= inter_suffix(
                                cssl,
                                kvsl,
                                idx as int,
                            ) + seq![(pk, pv)] + right0.entries());
                        }
                    }
                }
                self.insert_edge_fit(idx, k, v, rc);
                proof {
                    assert(self.entries() == left0.spliced(idx as int, k, v, rc));
                    assert(self.entries() + seq![(pk, pv)] + right.entries() =~= target);
                    // the promoted key separates the finished halves
                    let nl = self.entries().len() as int;
                    assert(kv_below(self.entries(), pk)) by {
                        assert(forall|t: int|
                            0 <= t < nl ==> #[trigger] self.entries()[t] == target[t]);
                        assert(target[nl] == (pk, pv));
                    }
                    assert(kv_above(right.entries(), pk)) by {
                        assert(forall|t: int|
                            0 <= t < right.entries().len() ==> #[trigger] right.entries()[t]
                                == target[nl + 1 + t]);
                        assert(target[nl] == (pk, pv));
                    }
                }
                InsertResult::Split(pk, pv, right)
            } else {
                proof {
                    let tt = T as int;
                    let j0 = idx - T - 1;
                    let cssr = css.skip(tt + 1);
                    let kvsr = kvs.skip(tt + 1);
                    // context for pushing the triple into the right half
                    assert(right0.children@[j0 as int] == old(self).children@[idx as int]);
                    assert(j0 < right0.keys@.len() ==> right0.keys@[j0 as int] == old(
                        self,
                    ).keys@[idx as int]);
                    assert(j0 > 0 ==> right0.keys@[j0 - 1] == old(self).keys@[idx - 1]);
                    assert(j0 == 0 ==> k > old(self).keys@[T as int]);
                }
                let ghost j0: int = idx as int - T as int - 1;
                right.insert_edge_fit(idx - T - 1, k, v, rc);
                proof {
                    let tt = T as int;
                    let cssr = css.skip(tt + 1);
                    let kvsr = kvs.skip(tt + 1);
                    assert(right.entries() == right0.spliced(j0, k, v, rc));
                    // the node prefix carries the left half and the promoted pair
                    assert(inter_prefix(css, kvs, idx as int) == left0.entries() + seq![(pk, pv)]
                        + inter_prefix(cssr, kvsr, j0)) by {
                        let aa = css.take(idx as int);
                        let bb = kvs.take(idx as int);
                        lemma_interleave_split_kv(aa, bb, tt);
                        assert(aa.take(tt + 1) =~= css.take(tt + 1));
                        assert(bb.take(tt) =~= kvs.take(tt));
                        assert(aa.skip(tt + 1) =~= cssr.take(j0));
                        assert(bb.skip(tt + 1) =~= kvsr.take(j0));
                        assert(bb[tt] == kvs[tt]);
                        assert(kvs[tt] == (pk, pv));
                        assert(inter_prefix(css, kvs, idx as int) =~= left0.entries() + seq![
                            (pk, pv),
                        ] + inter_prefix(cssr, kvsr, j0));
                    }
                    // the suffixes around child idx agree between node and right half
                    assert(inter_suffix(css, kvs, idx as int) == inter_suffix(cssr, kvsr, j0))
                        by {
                        if idx < kvs.len() {
                            assert(kvsr[j0] == kvs[idx as int]);
                            assert(cssr.skip(j0 + 1) =~= css.skip(idx + 1));
                            assert(kvsr.skip(j0 + 1) =~= kvs.skip(idx + 1));
                        }
                    }
                    assert(left0.entries() + seq![(pk, pv)] + right.entries() =~= target);
                    // the promoted key separates the finished halves
                    let nl = left0.entries().len() as int;
                    assert(kv_below(self.entries(), pk)) by {
                        assert(forall|t: int|
                            0 <= t < nl ==> #[trigger] self.entries()[t] == target[t]);
                        assert(target[nl] == (pk, pv));
                    }
                    assert(kv_above(right.entries(), pk)) by {
                        assert(forall|t: int|
                            0 <= t < right.entries().len() ==> #[trigger] right.entries()[t]
                                == target[nl + 1 + t]);
                        assert(target[nl] == (pk, pv));
                    }
                }
                InsertResult::Split(pk, pv, right)
            }
        }
    }
}


impl<V> Node<V> {
    /// Search-and-insert over a subtree: descend to the key's position,
    /// replace the value on an exact match (at any level), insert at the
    /// leaf otherwise, and hand any split upward as the recursion unwinds.
    /// Returns the replaced value, if any, and how the subtree changed.
    #[verifier::rlimit(100)]
    #[verifier::spinoff_prover]
    pub(crate) fn node_insert(&mut self, key: usize, value: V) -> (r: (Option<V>, InsertResult<
        V,
    >))
        requires
            old(self).wf(),
        ensures
            final(self).wf(),
            final(self).height() == old(self).height(),
            r.0 == kv_lookup(old(self).entries(), key),
            match r.1 {
                InsertResult::Fit => {
                    &&& final(self).entries() == kv_insert(old(self).entries(), key, value)
                    &&& final(self).keys@.len() >= old(self).keys@.len()
                },
                InsertResult::Split(pk, pv, right) => {
                    &&& final(self).entries() + seq![(pk, pv)] + right.entries() == kv_insert(
                        old(self).entries(),
                        key,
                        value,
                    )
                    &&& right.wf()
                    &&& right.height() == old(self).height()
                    &&& T <= final(self).keys@.len() <= T + 1
                    &&& T - 2 <= right.keys@.len() <= T - 1
                    &&& kv_below(final(self).entries(), pk)
                    &&& kv_above(right.entries(), pk)
                },
            },
        decreases old(self).height(),
    {
        let ghost e0 = old(self).entries();
        proof {
            old(self).lemma_entries_sorted();
        }
        let (idx, found) = search_linear(&self.keys, key);
        if found {
            let old_v = self.vals.remove(idx);
            self.vals.insert(idx, value);
            proof {
                assert(self.vals@ =~= old(self).vals@.update(idx as int, value));
                assert(self.wf());
                let css = old(self).child_entry_seqs(0);
                let kvs = kv_seq(old(self).keys@, old(self).vals@);
                if old(self).is_leaf() {
                    assert(self.entries() =~= e0.update(idx as int, (key, value)));
                    assert(forall|j: int| 0 <= j < idx ==> (#[trigger] e0[j]).0 < key);
                    lemma_kv_insert_at(e0, key, value, idx as int);
                    lemma_kv_lookup_at(e0, key, idx as int);
                    assert(old_v == e0[idx as int].1);
                } else {
                    lemma_child_entry_seqs(*old(self), 0);
                    lemma_child_entry_seqs(*self, 0);
                    let kvs2 = kv_seq(self.keys@, self.vals@);
                    assert(self.child_entry_seqs(0) =~= css);
                    assert(kvs2 =~= kvs.update(idx as int, (key, value)));
                    lemma_interleave_split_kv(css, kvs, idx as int);
                    lemma_interleave_split_kv(css, kvs2, idx as int);
                    assert(css.take(idx + 1) =~= css.take(idx + 1));
                    assert(kvs2.take(idx as int) =~= kvs.take(idx as int));
                    assert(kvs2.skip(idx + 1) =~= kvs.skip(idx + 1));
                    let a = interleave(css.take(idx + 1), kvs.take(idx as int));
                    let b = interleave(css.skip(idx + 1), kvs.skip(idx + 1));
                    assert(e0 == a + seq![kvs[idx as int]] + b);
                    assert(self.entries() == a + seq![(key, value)] + b);
                    let pos = a.len() as int;
                    assert(kv_below(a, key)) by {
                        assert forall|j: int|
                            0 <= j < css.take(idx + 1).len() implies kv_below(
                            #[trigger] css.take(idx + 1)[j],
                            key,
                        ) by {
                            assert(css.take(idx + 1)[j] == old(self).children@[j].entries());
                            if j < idx {
                                assert(old(self).keys@[j] < key);
                                assert(kv_below(
                                    old(self).children@[j].entries(),
                                    old(self).keys@[j],
                                ));
                            } else {
                                assert(j == idx);
                                assert(kv_below(
                                    old(self).children@[j].entries(),
                                    old(self).keys@[idx as int],
                                ));
                            }
                        }
                        assert(kv_below(kvs.take(idx as int), key));
                        lemma_interleave_below(css.take(idx + 1), kvs.take(idx as int), key);
                    }
                    assert(e0[pos] == kvs[idx as int]);
                    assert(forall|j: int| 0 <= j < pos ==> (#[trigger] e0[j]).0 < key) by {
                        assert(forall|j: int| 0 <= j < pos ==> e0[j] == a[j]);
                    }
                    lemma_kv_insert_at(e0, key, value, pos);
                    lemma_kv_lookup_at(e0, key, pos);
                    assert(self.entries() =~= e0.update(pos, (key, value)));
                    assert(old_v == e0[pos].1);
                }
            }
            (Some(old_v), InsertResult::Fit)
        } else if self.children.len() == 0 {
            proof {
                assert(forall|j: int| 0 <= j < idx ==> (#[trigger] e0[j]).0 < key);
                lemma_kv_lookup_at(e0, key, idx as int);
            }
            let r1 = self.insert_pair(idx, key, value);
            (None, r1)
        } else {
            let ghost css = old(self).child_entry_seqs(0);
            let ghost kvs = kv_seq(old(self).keys@, old(self).vals@);
            let ghost c0 = old(self).children@[idx as int].entries();
            let ghost pre = inter_prefix(css, kvs, idx as int);
            let ghost suf = inter_suffix(css, kvs, idx as int);
            proof {
                old(self).lemma_descend(key, idx as int);
                lemma_child_entry_seqs(*old(self), 0);
                assert(old(self).children@[idx as int].wf());
                assert(old(self).children@[idx as int].height() < old(self).height());
            }
            let child = vstd::std_specs::vec::vec_index_mut(&mut self.children, idx);
            let (prev, res) = child.node_insert(key, value);
            proof {
                assert(prev == kv_lookup(e0, key));
                lemma_kv_insert_concat_left(pre, c0 + suf, key, value);
                lemma_kv_insert_concat_right(c0, suf, key, value);
                assert(e0 =~= pre + (c0 + suf));
                assert(kv_insert(e0, key, value) =~= pre + kv_insert(c0, key, value) + suf);
            }
            match res {
                InsertResult::Fit => {
                    proof {
                        let nc = self.children@[idx as int];
                        assert(self.children@ =~= old(self).children@.update(idx as int, nc));
                        lemma_child_entry_seqs(*self, 0);
                        assert(self.child_entry_seqs(0) =~= css.update(
                            idx as int,
                            nc.entries(),
                        )) by {
                            assert(forall|j: int|
                                0 <= j < self.children@.len() && j != idx
                                    ==> #[trigger] self.children@[j] == old(self).children@[j]);
                        }
                        assert(kv_seq(self.keys@, self.vals@) =~= kvs);
                        lemma_interleave_update_child(css, kvs, idx as int, nc.entries());
                        assert(!self.is_leaf());
                        assert(self.entries() =~= kv_insert(e0, key, value));
                        assert(self.wf()) by {
                            if idx < old(self).keys@.len() {
                                lemma_kv_insert_below(
                                    c0,
                                    key,
                                    value,
                                    old(self).keys@[idx as int],
                                );
                            }
                            if idx > 0 {
                                lemma_kv_insert_above(c0, key, value, old(self).keys@[idx - 1]);
                            }
                        }
                        assert(self.height() == old(self).height()) by {
                            assert(self.children@[0].height() + 1 == old(self).height());
                        }
                    }
                    (prev, InsertResult::Fit)
                },
                InsertResult::Split(k, v, rc) => {
                    let ghost cl = self.children@[idx as int].entries();
                    let ghost kic = kv_insert(c0, key, value);
                    proof {
                        let nc = self.children@[idx as int];
                        assert(self.children@ =~= old(self).children@.update(idx as int, nc));
                        assert(cl + seq![(k, v)] + rc.entries() == kic);
                        if idx < old(self).keys@.len() {
                            lemma_kv_insert_below(c0, key, value, old(self).keys@[idx as int]);
                        }
                        if idx > 0 {
                            lemma_kv_insert_above(c0, key, value, old(self).keys@[idx - 1]);
                        }
                        // segment bounds of the child split, from the bounds on the whole
                        assert(forall|t: int|
                            0 <= t < cl.len() ==> (#[trigger] cl[t]) == kic[t]);
                        assert((k, v) == kic[cl.len() as int]);
                        assert(forall|t: int|
                            0 <= t < rc.entries().len() ==> (#[trigger] rc.entries()[t])
                                == kic[cl.len() + 1 + t]);
                        assert(self.wf());
                        assert(self.height() == old(self).height()) by {
                            assert(self.children@[0].height() + 1 == old(self).height());
                        }
                        assert(rc.height() + 1 == self.height());
                        // the spliced shape equals the inserted whole, hence sorted
                        lemma_child_entry_seqs(*self, 0);
                        let css2 = self.child_entry_seqs(0);
                        assert(css2 =~= css.update(idx as int, cl)) by {
                            assert(forall|j: int|
                                0 <= j < self.children@.len() && j != idx
                                    ==> #[trigger] self.children@[j] == old(self).children@[j]);
                        }
                        assert(kv_seq(self.keys@, self.vals@) =~= kvs);
                        assert(inter_prefix(css2, kvs, idx as int) == pre) by {
                            assert(css2.take(idx as int) =~= css.take(idx as int));
                        }
                        assert(inter_suffix(css2, kvs, idx as int) == suf) by {
                            assert(css2.skip(idx + 1) =~= css.skip(idx + 1));
                        }
                        assert(self.spliced(idx as int, k, v, rc) =~= kv_insert(e0, key, value));
                        lemma_kv_insert_sorted(e0, key, value);
                    }
                    let r2 = self.insert_edge(idx, k, v, rc);
                    proof {
                        assert(match r2 {
                            InsertResult::Fit => final(self).entries() == kv_insert(
                                e0,
                                key,
                                value,
                            ),
                            InsertResult::Split(pk, pv, right) => final(self).entries() + seq![
                                (pk, pv),
                            ] + right.entries() == kv_insert(e0, key, value),
                        });
                    }
                    (prev, r2)
                },
            }
        }
    }
}

/// Linear scan of a sorted key batch: the index of the first key that is
/// `>= key`, and whether it is an exact match.
pub(crate) fn search_linear(keys: &Vec<usize>, key: usize) -> (r: (usize, bool))
    requires
        keys_sorted(keys@),
    ensures
        r.0 <= keys@.len(),
        forall|i: int| 0 <= i < r.0 ==> keys@[i] < key,
        r.0 < keys@.len() ==> key <= keys@[r.0 as int],
        r.1 == (r.0 < keys@.len() && keys@[r.0 as int] == key),
{
    let n = keys.len();
    let mut i: usize = 0;
    while i < n
        invariant
            i <= n,
            n == keys@.len(),
            keys_sorted(keys@),
            forall|j: int| 0 <= j < i ==> keys@[j] < key,
        decreases n - i,
    {
        let k = keys[i];
        if k >= key {
            return (i, k == key);
        }
        i += 1;
    }
    (n, false)
}


/// Each child batch plus one separator keeps the interleaving at least as
/// long as the separator sequence, and as long as the first batch.
pub proof fn lemma_interleave_len<V>(css: Seq<Seq<(usize, V)>>, kvs: Seq<(usize, V)>)
    requires
        css.len() == kvs.len() + 1,
    ensures
        interleave(css, kvs).len() >= kvs.len() + css[0].len(),
    decreases css.len(),
{
    if kvs.len() == 0 {
        assert(css.skip(1) =~= Seq::<Seq<(usize, V)>>::empty());
        lemma_interleave_empty(kvs);
        assert(interleave(css, kvs) =~= css[0]);
    } else {
        lemma_interleave_len(css.skip(1), kvs.skip(1));
    }
}

impl<V> Node<V> {
    /// Field views usable in public contracts.
    pub open(crate) spec fn spec_keys(self) -> Seq<usize> {
        self.keys@
    }

    pub open(crate) spec fn spec_vals(self) -> Seq<V> {
        self.vals@
    }

    /// The `i`-th child, for public contracts of the navigation layer.
    pub open(crate) spec fn child(self, i: int) -> Node<V> {
        self.children@[i]
    }

    /// A subtree holds at least as many entries as its own slots, and at
    /// least as many as its height.
    pub(crate) proof fn lemma_entries_len(self)
        requires
            self.wf(),
        ensures
            self.entries().len() >= self.height(),
            self.entries().len() >= self.keys@.len(),
        decreases self,
    {
        if self.is_leaf() {
            assert(self.entries().len() == self.keys@.len());
        } else {
            let css = self.child_entry_seqs(0);
            let kvs = kv_seq(self.keys@, self.vals@);
            lemma_child_entry_seqs(self, 0);
            lemma_interleave_len(css, kvs);
            assert(css[0] == self.children@[0].entries());
            self.children@[0].lemma_entries_len();
            assert(self.children@[0].height() + 1 == self.height());
        }
    }

    /// The key stored at slot `idx` is found by a lookup over the whole
    /// subtree, yielding the parallel value.
    pub(crate) proof fn lemma_found_lookup(self, idx: int)
        requires
            self.wf(),
            0 <= idx < self.keys@.len(),
        ensures
            kv_lookup(self.entries(), self.keys@[idx]) == Some(self.vals@[idx]),
            kv_contains(self.entries(), self.keys@[idx]),
    {
        let key = self.keys@[idx];
        self.lemma_entries_sorted();
        if self.is_leaf() {
            let e = self.entries();
            assert(forall|j: int| 0 <= j < idx ==> (#[trigger] e[j]).0 < key);
            assert(e[idx] == (key, self.vals@[idx]));
            lemma_kv_lookup_at(e, key, idx);
            lemma_kv_lookup_contains(e, key);
        } else {
            let css = self.child_entry_seqs(0);
            let kvs = kv_seq(self.keys@, self.vals@);
            lemma_child_entry_seqs(self, 0);
            lemma_interleave_split_kv(css, kvs, idx);
            let a = interleave(css.take(idx + 1), kvs.take(idx));
            let b = interleave(css.skip(idx + 1), kvs.skip(idx + 1));
            let e = self.entries();
            assert(e == a + seq![kvs[idx]] + b);
            let pos = a.len() as int;
            assert(kv_below(a, key)) by {
                assert forall|j: int|
                    0 <= j < css.take(idx + 1).len() implies kv_below(
                    #[trigger] css.take(idx + 1)[j],
                    key,
                ) by {
                    assert(css.take(idx + 1)[j] == self.children@[j].entries());
                    if j < idx {
                        assert(self.keys@[j] < key);
                        assert(kv_below(self.children@[j].entries(), self.keys@[j]));
                    } else {
                        assert(j == idx);
                        assert(kv_below(self.children@[j].entries(), key));
                    }
                }
                assert(kv_below(kvs.take(idx), key));
                lemma_interleave_below(css.take(idx + 1), kvs.take(idx), key);
            }
            assert(forall|j: int| 0 <= j < pos ==> (#[trigger] e[j]).0 < key) by {
                assert(forall|j: int| 0 <= j < pos ==> e[j] == a[j]);
            }
            assert(e[pos] == (key, self.vals@[idx]));
            lemma_kv_lookup_at(e, key, pos);
            lemma_kv_lookup_contains(e, key);
        }
    }
}

/// Owner of the whole tree: the top-level node plus the tree's current
/// height (0 for a single leaf).
pub struct Root<V> {
    pub(crate) node: Node<V>,
    pub(crate) height: usize,
}

impl<V> Root<V> {
    /// The root owns a well-formed subtree and caches its height.
    pub open(crate) spec fn wf(self) -> bool {
        &&& self.node.wf()
        &&& self.height == self.node.height()
    }

    /// In-order entries of the whole tree.
    pub open(crate) spec fn entry_seq(self) -> Seq<(usize, V)> {
        self.node.entry_seq()
    }

    pub open(crate) spec fn spec_height(self) -> nat {
        self.node.height()
    }

    /// A fresh root: a single empty leaf at height 0.
    pub fn new_leaf() -> (r: Self)
        ensures
            r.wf(),
            r.entry_seq() == Seq::<(usize, V)>::empty(),
            r.spec_height() == 0,
    {
        let node = Node { keys: Vec::new(), vals: Vec::new(), children: Vec::new() };
        proof {
            assert(node.entries() =~= Seq::<(usize, V)>::empty());
        }
        Root { node, height: 0 }
    }

    /// A read-only view of the top node.
    pub fn as_ref<'a>(&'a self) -> (r: NodeRef<'a, V>)
        requires
            self.wf(),
        ensures
            r.wf(),
            r.entry_seq() == self.entry_seq(),
            r.spec_height() == self.spec_height(),
    {
        NodeRef { node: &self.node, height: self.height }
    }

    /// Grow the tree by one level: a new internal root holds the old top
    /// node, the promoted pair and the fresh right sibling, and the old
    /// top node's linkage is re-established under the new root.
    pub(crate) fn enlarge(&mut self, key: usize, val: V, edge: Node<V>)
        requires
            old(self).wf(),
            old(self).node.keys@.len() + 2 >= T,
            edge.wf(),
            edge.keys@.len() + 2 >= T,
            edge.height() == old(self).spec_height(),
            kv_below(old(self).entry_seq(), key),
            kv_above(edge.entries(), key),
            old(self).entry_seq().len() < usize::MAX,
        ensures
            final(self).wf(),
            final(self).spec_height() == old(self).spec_height() + 1,
            final(self).entry_seq() == old(self).entry_seq() + seq![(key, val)] + edge.entries(),
    {
        proof {
            old(self).node.lemma_entries_len();
        }
        let mut top = Node { keys: Vec::new(), vals: Vec::new(), children: Vec::new() };
        core::mem::swap(&mut top, &mut self.node);
        let ghost old_top = top;
        let mut keys: Vec<usize> = Vec::new();
        keys.push(key);
        let mut vals: Vec<V> = Vec::new();
        vals.push(val);
        let mut children: Vec<Node<V>> = Vec::new();
        children.push(top);
        children.push(edge);
        let new_top = Node { keys, vals, children };
        proof {
            lemma_child_entry_seqs(new_top, 0);
            let css = new_top.child_entry_seqs(0);
            let kvs = kv_seq(new_top.keys@, new_top.vals@);
            assert(css =~= seq![old_top.entries(), edge.entries()]);
            assert(kvs =~= seq![(key, val)]);
            assert(css.skip(1) =~= seq![edge.entries()]);
            assert(kvs.skip(1) =~= Seq::<(usize, V)>::empty());
            assert(seq![edge.entries()].skip(1) =~= Seq::<Seq<(usize, V)>>::empty());
            lemma_interleave_empty(Seq::<(usize, V)>::empty());
            assert(interleave(seq![edge.entries()], Seq::<(usize, V)>::empty())
                == edge.entries() + interleave(
                Seq::<Seq<(usize, V)>>::empty(),
                Seq::<(usize, V)>::empty(),
            ));
            assert(!new_top.is_leaf());
            assert(new_top.entries() =~= old_top.entries() + seq![(key, val)] + edge.entries());
            assert(new_top.wf()) by {
                assert(forall|i: int|
                    0 <= i < new_top.children@.len() ==> (#[trigger] new_top.children@[i]).wf());
                assert(new_top.children@[0].height() + 1 == new_top.height());
                assert(new_top.children@[1].height() + 1 == new_top.height());
            }
        }
        self.node = new_top;
        self.height = self.height + 1;
    }
}

/// A read-only view of one node, the navigation layer's handle on node
/// storage: it carries the node's cached height alongside the reference.
pub struct NodeRef<'a, V> {
    pub(crate) node: &'a Node<V>,
    pub(crate) height: usize,
}

/// Outcome of resolving an either-kind view into its concrete node kind.
pub enum ForceResult<L, I> {
    Leaf(L),
    Internal(I),
}

impl<'a, V> NodeRef<'a, V> {
    pub open(crate) spec fn spec_node(self) -> Node<V> {
        *self.node
    }

    /// The view points at a well-formed subtree and carries its height.
    pub open(crate) spec fn wf(self) -> bool {
        &&& self.spec_node().wf()
        &&& self.height == self.spec_node().height()
    }

    pub open(crate) spec fn entry_seq(self) -> Seq<(usize, V)> {
        self.spec_node().entry_seq()
    }

    pub open(crate) spec fn spec_height(self) -> nat {
        self.spec_node().height()
    }

    pub open(crate) spec fn is_leaf(self) -> bool {
        self.spec_node().is_leaf()
    }

    pub open(crate) spec fn spec_keys(self) -> Seq<usize> {
        self.spec_node().spec_keys()
    }

    pub open(crate) spec fn spec_vals(self) -> Seq<V> {
        self.spec_node().spec_vals()
    }

    /// Number of key-value pairs stored in this node.
    pub fn len(&self) -> (r: usize)
        ensures
            r == self.spec_keys().len(),
    {
        self.node.keys.len()
    }

    /// Fixed slot capacity of every node.
    pub fn capacity(&self) -> (r: usize)
        ensures
            r == 2 * T - 1,
    {
        2 * T - 1
    }

    /// Cached height of this node's subtree.
    pub fn height(&self) -> (r: usize)
        requires
            self.wf(),
        ensures
            r == self.spec_height(),
    {
        self.height
    }

    /// A second view of the same node.
    pub fn reborrow(&self) -> (r: NodeRef<'a, V>)
        ensures
            r == *self,
    {
        NodeRef { node: self.node, height: self.height }
    }

    /// The node's keys, in ascending order.
    pub fn keys(&self) -> (r: &'a [usize])
        ensures
            r@ == self.spec_keys(),
    {
        self.node.keys.as_slice()
    }

    /// The node's values, parallel to `keys`.
    pub fn vals(&self) -> (r: &'a [V])
        ensures
            r@ == self.spec_vals(),
    {
        self.node.vals.as_slice()
    }

    /// Resolve this either-kind view into the concrete leaf or internal
    /// case, for exhaustive handling.
    pub fn force(self) -> (r: ForceResult<NodeRef<'a, V>, NodeRef<'a, V>>)
        ensures
            match r {
                ForceResult::Leaf(l) => self.is_leaf() && l == self,
                ForceResult::Internal(i) => !self.is_leaf() && i == self,
            },
    {
        if self.node.children.len() == 0 {
            ForceResult::Leaf(NodeRef { node: self.node, height: self.height })
        } else {
            ForceResult::Internal(NodeRef { node: self.node, height: self.height })
        }
    }

    /// The edge before the first key-value slot.
    pub fn first_edge(self) -> (h: Handle<'a, V>)
        ensures
            h.spec_noderef() == self,
            h.spec_idx() == 0,
    {
        Handle { node: self, idx: 0 }
    }

    /// The edge past the last key-value slot.
    pub fn last_edge(self) -> (h: Handle<'a, V>)
        ensures
            h.spec_noderef() == self,
            h.spec_idx() == self.spec_keys().len(),
    {
        let idx = self.node.keys.len();
        Handle { node: self, idx }
    }
}

/// A transient positional locator within one node view: position `idx`
/// read either as a key-value slot or as an edge between slots.
pub struct Handle<'a, V> {
    pub(crate) node: NodeRef<'a, V>,
    pub(crate) idx: usize,
}

impl<'a, V> Handle<'a, V> {
    pub open(crate) spec fn spec_noderef(self) -> NodeRef<'a, V> {
        self.node
    }

    pub open(crate) spec fn spec_idx(self) -> nat {
        self.idx as nat
    }

    /// A handle at position `idx` of `node`.
    pub fn new(node: NodeRef<'a, V>, idx: usize) -> (h: Self)
        requires
            idx <= node.spec_keys().len(),
        ensures
            h.spec_noderef() == node,
            h.spec_idx() == idx,
    {
        Handle { node, idx }
    }

    /// The view this handle points into.
    pub fn into_node(self) -> (r: NodeRef<'a, V>)
        ensures
            r == self.spec_noderef(),
    {
        self.node
    }

    /// From an edge, the key-value slot at its right, or the handle back
    /// unchanged when the edge is the node's last.
    pub fn right_kv(self) -> (r: Result<Handle<'a, V>, Handle<'a, V>>)
        ensures
            match r {
                Ok(h) => h == self && self.spec_idx() < self.spec_noderef().spec_keys().len(),
                Err(h) => h == self && self.spec_idx() >= self.spec_noderef().spec_keys().len(),
            },
    {
        if self.idx < self.node.node.keys.len() {
            Ok(self)
        } else {
            Err(self)
        }
    }

    /// From an edge, the key-value slot at its left, or the handle back
    /// unchanged when the edge is the node's first.
    pub fn left_kv(self) -> (r: Result<Handle<'a, V>, Handle<'a, V>>)
        ensures
            match r {
                Ok(h) => h.spec_noderef() == self.spec_noderef() && self.spec_idx() > 0
                    && h.spec_idx() + 1 == self.spec_idx(),
                Err(h) => h == self && self.spec_idx() == 0,
            },
    {
        if self.idx > 0 {
            let idx = self.idx - 1;
            Ok(Handle { node: self.node, idx })
        } else {
            Err(self)
        }
    }

    /// The edge at the left of this key-value slot.
    pub fn left_edge(self) -> (h: Handle<'a, V>)
        ensures
            h == self,
    {
        self
    }

    /// The edge at the right of this key-value slot.
    pub fn right_edge(self) -> (h: Handle<'a, V>)
        requires
            self.spec_noderef().wf(),
            self.spec_idx() < self.spec_noderef().spec_keys().len(),
        ensures
            h.spec_noderef() == self.spec_noderef(),
            h.spec_idx() == self.spec_idx() + 1,
    {
        let idx = self.idx + 1;
        Handle { node: self.node, idx }
    }

    /// Read the key-value pair at this slot.
    pub fn into_kv(self) -> (r: (&'a usize, &'a V))
        requires
            self.spec_noderef().wf(),
            self.spec_idx() < self.spec_noderef().spec_keys().len(),
        ensures
            *r.0 == self.spec_noderef().spec_keys()[self.spec_idx() as int],
            *r.1 == self.spec_noderef().spec_vals()[self.spec_idx() as int],
    {
        let k = vstd::std_specs::vec::vec_index(&self.node.node.keys, self.idx);
        let v = vstd::std_specs::vec::vec_index(&self.node.node.vals, self.idx);
        (k, v)
    }

    /// Resolve the underlying node kind, keeping the position.
    pub fn force(self) -> (r: ForceResult<Handle<'a, V>, Handle<'a, V>>)
        ensures
            match r {
                ForceResult::Leaf(l) => self.spec_noderef().is_leaf() && l == self,
                ForceResult::Internal(i) => !self.spec_noderef().is_leaf() && i == self,
            },
    {
        if self.node.node.children.len() == 0 {
            ForceResult::Leaf(self)
        } else {
            ForceResult::Internal(self)
        }
    }

    /// From an edge of an internal node, the child that the edge leads to.
    pub fn descend(self) -> (r: NodeRef<'a, V>)
        requires
            self.spec_noderef().wf(),
            !self.spec_noderef().is_leaf(),
            self.spec_idx() <= self.spec_noderef().spec_keys().len(),
        ensures
            r.wf(),
            r.spec_node() == self.spec_noderef().spec_node().child(self.spec_idx() as int),
            r.spec_height() + 1 == self.spec_noderef().spec_height(),
    {
        let child = vstd::std_specs::vec::vec_index(&self.node.node.children, self.idx);
        let height = self.node.height - 1;
        NodeRef { node: child, height }
    }
}


impl<V> Node<V> {
    /// Replacing the value in one slot rewrites the entry at that key and
    /// nothing else.
    pub(crate) proof fn lemma_replace_value(self, n1: Node<V>, idx: int, x: V)
        requires
            self.wf(),
            0 <= idx < self.keys@.len(),
            n1.keys@ == self.keys@,
            n1.vals@ == self.vals@.update(idx, x),
            n1.children@ == self.children@,
        ensures
            n1.wf(),
            n1.height() == self.height(),
            n1.entries() == kv_insert(self.entries(), self.keys@[idx], x),
            kv_lookup(self.entries(), self.keys@[idx]) == Some(self.vals@[idx]),
    {
        let key = self.keys@[idx];
        let e0 = self.entries();
        self.lemma_entries_sorted();
        assert(n1.wf());
        if self.is_leaf() {
            assert(n1.entries() =~= e0.update(idx, (key, x)));
            assert(forall|j: int| 0 <= j < idx ==> (#[trigger] e0[j]).0 < key);
            lemma_kv_insert_at(e0, key, x, idx);
            lemma_kv_lookup_at(e0, key, idx);
        } else {
            let css = self.child_entry_seqs(0);
            let kvs = kv_seq(self.keys@, self.vals@);
            lemma_child_entry_seqs(self, 0);
            lemma_child_entry_seqs(n1, 0);
            let kvs2 = kv_seq(n1.keys@, n1.vals@);
            assert(n1.child_entry_seqs(0) =~= css);
            assert(kvs2 =~= kvs.update(idx, (key, x)));
            lemma_interleave_split_kv(css, kvs, idx);
            lemma_interleave_split_kv(css, kvs2, idx);
            assert(kvs2.take(idx) =~= kvs.take(idx));
            assert(kvs2.skip(idx + 1) =~= kvs.skip(idx + 1));
            let a = interleave(css.take(idx + 1), kvs.take(idx));
            let b = interleave(css.skip(idx + 1), kvs.skip(idx + 1));
            assert(e0 == a + seq![kvs[idx]] + b);
            assert(n1.entries() == a + seq![(key, x)] + b);
            let pos = a.len() as int;
            assert(kv_below(a, key)) by {
                assert forall|j: int|
                    0 <= j < css.take(idx + 1).len() implies kv_below(
                    #[trigger] css.take(idx + 1)[j],
                    key,
                ) by {
                    assert(css.take(idx + 1)[j] == self.children@[j].entries());
                    if j < idx {
                        assert(self.keys@[j] < key);
                        assert(kv_below(self.children@[j].entries(), self.keys@[j]));
                    } else {
                        assert(j == idx);
                        assert(kv_below(self.children@[j].entries(), key));
                    }
                }
                assert(kv_below(kvs.take(idx), key));
                lemma_interleave_below(css.take(idx + 1), kvs.take(idx), key);
            }
            assert(e0[pos] == kvs[idx]);
            assert(forall|j: int| 0 <= j < pos ==> (#[trigger] e0[j]).0 < key) by {
                assert(forall|j: int| 0 <= j < pos ==> e0[j] == a[j]);
            }
            lemma_kv_insert_at(e0, key, x, pos);
            lemma_kv_lookup_at(e0, key, pos);
            assert(n1.entries() =~= e0.update(pos, (key, x)));
        }
    }

    /// Replacing child `idx` with one whose entries carry a rewritten value
    /// under `key` rewrites the same entry of the whole subtree.
    pub(crate) proof fn lemma_replace_child(self, n1: Node<V>, idx: int, key: usize, x: V)
        requires
            self.wf(),
            !self.is_leaf(),
            0 <= idx < self.children@.len(),
            forall|j: int| 0 <= j < idx ==> self.keys@[j] < key,
            idx < self.keys@.len() ==> key < self.keys@[idx],
            n1.keys@ == self.keys@,
            n1.vals@ == self.vals@,
            n1.children@ == self.children@.update(idx, n1.children@[idx]),
            n1.children@.len() == self.children@.len(),
            n1.children@[idx].wf(),
            n1.children@[idx].height() == self.children@[idx].height(),
            n1.children@[idx].keys@.len() == self.children@[idx].keys@.len(),
            n1.children@[idx].entries() == kv_insert(
                self.children@[idx].entries(),
                key,
                x,
            ),
        ensures
            n1.wf(),
            n1.height() == self.height(),
            n1.entries() == kv_insert(self.entries(), key, x),
    {
        let css = self.child_entry_seqs(0);
        let kvs = kv_seq(self.keys@, self.vals@);
        let c0 = self.children@[idx].entries();
        self.lemma_descend(key, idx);
        lemma_child_entry_seqs(self, 0);
        lemma_child_entry_seqs(n1, 0);
        let pre = inter_prefix(css, kvs, idx);
        let suf = inter_suffix(css, kvs, idx);
        lemma_kv_insert_concat_left(pre, c0 + suf, key, x);
        lemma_kv_insert_concat_right(c0, suf, key, x);
        assert(self.entries() =~= pre + (c0 + suf));
        assert(kv_insert(self.entries(), key, x) =~= pre + kv_insert(c0, key, x) + suf);
        assert(n1.child_entry_seqs(0) =~= css.update(idx, n1.children@[idx].entries())) by {
            assert(forall|j: int|
                0 <= j < n1.children@.len() && j != idx ==> #[trigger] n1.children@[j]
                    == self.children@[j]);
        }
        assert(kv_seq(n1.keys@, n1.vals@) =~= kvs);
        lemma_interleave_update_child(css, kvs, idx, n1.children@[idx].entries());
        assert(!n1.is_leaf());
        assert(n1.entries() =~= kv_insert(self.entries(), key, x));
        assert(n1.wf()) by {
            if idx < self.keys@.len() {
                lemma_kv_insert_below(c0, key, x, self.keys@[idx]);
            }
            if idx > 0 {
                lemma_kv_insert_above(c0, key, x, self.keys@[idx - 1]);
            }
        }
        assert(n1.height() == self.height()) by {
            assert(n1.children@[0].height() + 1 == self.height());
        }
    }

    /// Replacing child `idx` with one listing the same entries leaves the
    /// subtree's entries unchanged.
    pub(crate) proof fn lemma_child_same(self, n1: Node<V>, idx: int)
        requires
            self.wf(),
            !self.is_leaf(),
            0 <= idx < self.children@.len(),
            n1.keys@ == self.keys@,
            n1.vals@ == self.vals@,
            n1.children@ == self.children@.update(idx, n1.children@[idx]),
            n1.children@.len() == self.children@.len(),
            n1.children@[idx].wf(),
            n1.children@[idx].height() == self.children@[idx].height(),
            n1.children@[idx].keys@.len() == self.children@[idx].keys@.len(),
            n1.children@[idx].entries() == self.children@[idx].entries(),
        ensures
            n1.wf(),
            n1.height() == self.height(),
            n1.entries() == self.entries(),
    {
        let css = self.child_entry_seqs(0);
        let kvs = kv_seq(self.keys@, self.vals@);
        lemma_child_entry_seqs(self, 0);
        lemma_child_entry_seqs(n1, 0);
        lemma_interleave_split_child(css, kvs, idx);
        assert(n1.child_entry_seqs(0) =~= css.update(idx, n1.children@[idx].entries())) by {
            assert(forall|j: int|
                0 <= j < n1.children@.len() && j != idx ==> #[trigger] n1.children@[j]
                    == self.children@[j]);
        }
        assert(css.update(idx, n1.children@[idx].entries()) =~= css);
        assert(kv_seq(n1.keys@, n1.vals@) =~= kvs);
        assert(!n1.is_leaf());
        assert(n1.entries() == self.entries());
        assert(n1.wf());
        assert(n1.height() == self.height()) by {
            assert(n1.children@[0].height() + 1 == self.height());
        }
    }

    /// In-place access to the value stored under `key`, if any: the caller
    /// may overwrite it through the returned reference, and the subtree
    /// then lists the new value under `key` and is otherwise unchanged.
    #[verifier::rlimit(100)]
    #[verifier::spinoff_prover]
    pub(crate) fn get_value_mut(&mut self, key: usize) -> (r: Option<&mut V>)
        requires
            old(self).wf(),
        ensures
            final(self).wf(),
            final(self).height() == old(self).height(),
            final(self).keys@ == old(self).keys@,
            match r {
                Some(v) => {
                    &&& kv_lookup(old(self).entries(), key) == Some(*v)
                    &&& final(self).entries() == kv_insert(old(self).entries(), key, *final(v))
                },
                None => {
                    &&& kv_lookup(old(self).entries(), key) is None
                    &&& final(self).entries() == old(self).entries()
                },
            },
        decreases old(self).height(),
    {
        let ghost e0 = old(self).entries();
        proof {
            old(self).lemma_entries_sorted();
        }
        let (idx, found) = search_linear(&self.keys, key);
        if found {
            let v = vstd::std_specs::vec::vec_index_mut(&mut self.vals, idx);
            proof {
                old(self).lemma_replace_value(after_borrow(*self), idx as int, *final(v));
            }
            Some(v)
        } else if self.children.len() == 0 {
            proof {
                assert(forall|j: int| 0 <= j < idx ==> (#[trigger] e0[j]).0 < key);
                lemma_kv_lookup_at(e0, key, idx as int);
            }
            None
        } else {
            proof {
                old(self).lemma_descend(key, idx as int);
                assert(old(self).children@[idx as int].wf());
                assert(old(self).children@[idx as int].height() < old(self).height());
            }
            let child = vstd::std_specs::vec::vec_index_mut(&mut self.children, idx);
            let r = child.get_value_mut(key);
            match r {
                Some(v) => {
                    proof {
                        old(self).lemma_replace_child(
                            after_borrow(*self),
                            idx as int,
                            key,
                            *final(v),
                        );
                    }
                    Some(v)
                },
                None => {
                    proof {
                        old(self).lemma_child_same(after_borrow(*self), idx as int);
                    }
                    None
                },
            }
        }
    }
}


/// A reference pair sequence read as a value pair sequence.
pub open spec fn deref_pairs<V>(s: Seq<(usize, &V)>) -> Seq<(usize, V)> {
    Seq::new(s.len(), |i: int| (s[i].0, *s[i].1))
}

impl<V> Node<V> {
    /// Append in-order references to every pair of the subtree to `out`.
    #[verifier::loop_isolation(false)]
    pub(crate) fn collect_refs<'a>(&'a self, out: &mut Vec<(usize, &'a V)>)
        requires
            self.wf(),
        ensures
            deref_pairs(final(out)@) == deref_pairs(old(out)@) + self.entries(),
        decreases self.height(),
    {
        let ghost base = deref_pairs(old(out)@);
        let ghost css = self.child_entry_seqs(0);
        let ghost kvs = kv_seq(self.keys@, self.vals@);
        proof {
            lemma_child_entry_seqs(*self, 0);
        }
        if self.children.len() == 0 {
            let n = self.keys.len();
            let mut i: usize = 0;
            proof {
                assert(deref_pairs(out@) =~= base + kv_seq(self.keys@, self.vals@).take(0));
            }
            while i < n
                invariant
                    i <= n,
                    n == self.keys@.len(),
                    self.wf(),
                    self.is_leaf(),
                    deref_pairs(out@) == base + kv_seq(self.keys@, self.vals@).take(i as int),
                decreases n - i,
            {
                let k = self.keys[i];
                let v = vstd::std_specs::vec::vec_index(&self.vals, i);
                let ghost pre = out@;
                out.push((k, v));
                proof {
                    assert(out@ =~= pre.push((k, v)));
                    assert(k == self.keys@[i as int]);
                    assert(*v == self.vals@[i as int]);
                    assert(deref_pairs(out@).len() == base.len() + i + 1);
                    assert(forall|j: int|
                        0 <= j < pre.len() ==> #[trigger] deref_pairs(out@)[j] == deref_pairs(
                            pre,
                        )[j]);
                    assert(deref_pairs(out@)[pre.len() as int] == (k, *v));
                    assert(deref_pairs(out@) =~= base + kv_seq(self.keys@, self.vals@).take(i
                        + 1));
                }
                i += 1;
            }
            proof {
                assert(kv_seq(self.keys@, self.vals@).take(n as int) =~= self.entries());
            }
        } else {
            let n = self.children.len();
            let mut i: usize = 0;
            proof {
                assert(css.take(0) =~= Seq::<Seq<(usize, V)>>::empty());
                assert(kvs.take(0) =~= Seq::<(usize, V)>::empty());
                lemma_interleave_empty(kvs.take(0));
                assert(deref_pairs(out@) =~= base + interleave(css.take(0), kvs.take(0)));
            }
            while i < n
                invariant
                    i <= n,
                    n == self.children@.len(),
                    self.wf(),
                    !self.is_leaf(),
                    css == self.child_entry_seqs(0),
                    kvs == kv_seq(self.keys@, self.vals@),
                    css.len() == n,
                    kvs.len() + 1 == n,
                    forall|j: int|
                        0 <= j < n ==> css[j] == (#[trigger] self.children@[j]).entries(),
                    i < n ==> deref_pairs(out@) == base + interleave(
                        css.take(i as int),
                        kvs.take(i as int),
                    ),
                    i == n ==> deref_pairs(out@) == base + interleave(css, kvs),
                decreases n - i,
            {
                let child = vstd::std_specs::vec::vec_index(&self.children, i);
                let ghost before = deref_pairs(out@);
                proof {
                    assert(self.children@[i as int].wf());
                    assert(self.children@[i as int].height() < self.height());
                }
                child.collect_refs(out);
                if i < self.keys.len() {
                    let k = self.keys[i];
                    let v = vstd::std_specs::vec::vec_index(&self.vals, i);
                    out.push((k, v));
                    proof {
                        assert(deref_pairs(out@) =~= before + css[i as int] + seq![
                            kvs[i as int],
                        ]);
                        assert(css.take(i + 1) =~= css.take(i as int).push(css[i as int]));
                        assert(kvs.take(i + 1) =~= kvs.take(i as int).push(kvs[i as int]));
                        lemma_interleave_push_pair(
                            css.take(i as int),
                            kvs.take(i as int),
                            css[i as int],
                            kvs[i as int],
                        );
                        assert(deref_pairs(out@) =~= base + interleave(
                            css.take(i + 1),
                            kvs.take(i + 1),
                        ));
                    }
                } else {
                    proof {
                        assert(i + 1 == n);
                        assert(deref_pairs(out@) =~= before + css[i as int]);
                        assert(css =~= css.take(i as int).push(css[i as int]));
                        assert(kvs =~= kvs.take(i as int));
                        lemma_interleave_push_child(
                            css.take(i as int),
                            kvs.take(i as int),
                            css[i as int],
                        );
                        assert(deref_pairs(out@) =~= base + interleave(css, kvs));
                    }
                }
                i += 1;
            }
            proof {
                assert(self.entries() == interleave(css, kvs));
            }
        }
    }

    /// Move every pair of the subtree into `out`, in order, draining the
    /// subtree's storage.
    #[verifier::loop_isolation(false)]
    pub(crate) fn collect_owned(&mut self, out: &mut Vec<(usize, V)>)
        requires
            old(self).wf(),
        ensures
            final(out)@ == old(out)@ + old(self).entries(),
        decreases old(self).height(),
    {
        let ghost base = old(out)@;
        let ghost css = old(self).child_entry_seqs(0);
        let ghost kvs = kv_seq(old(self).keys@, old(self).vals@);
        let ghost orig = *old(self);
        proof {
            lemma_child_entry_seqs(*old(self), 0);
        }
        if self.children.len() == 0 {
            let ghost okeys = orig.keys@;
            let ghost ovals = orig.vals@;
            let n0 = self.keys.len();
            let mut i: usize = 0;
            proof {
                assert(self.keys@ =~= okeys.skip(0));
                assert(self.vals@ =~= ovals.skip(0));
                assert(out@ =~= base + kv_seq(okeys, ovals).take(0));
            }
            while i < n0
                invariant
                    i <= n0,
                    n0 == okeys.len(),
                    okeys.len() == ovals.len(),
                    self.keys@ == okeys.skip(i as int),
                    self.vals@ == ovals.skip(i as int),
                    out@ == base + kv_seq(okeys, ovals).take(i as int),
                decreases n0 - i,
            {
                let k = self.keys.remove(0);
                let v = self.vals.remove(0);
                out.push((k, v));
                proof {
                    assert(okeys.skip(i as int)[0] == okeys[i as int]);
                    assert(ovals.skip(i as int)[0] == ovals[i as int]);
                    assert(self.keys@ =~= okeys.skip(i + 1));
                    assert(self.vals@ =~= ovals.skip(i + 1));
                    assert(out@ =~= base + kv_seq(okeys, ovals).take(i + 1));
                }
                i += 1;
            }
            proof {
                assert(kv_seq(okeys, ovals).take(okeys.len() as int) =~= orig.entries());
            }
        } else {
            let ghost okeys = orig.keys@;
            let ghost ovals = orig.vals@;
            let n = self.children.len();
            let mut i: usize = 0;
            proof {
                assert(self.children@ =~= orig.children@.skip(0));
                assert(self.keys@ =~= okeys.skip(0));
                assert(self.vals@ =~= ovals.skip(0));
                assert(css.take(0) =~= Seq::<Seq<(usize, V)>>::empty());
                assert(kvs.take(0) =~= Seq::<(usize, V)>::empty());
                lemma_interleave_empty(kvs.take(0));
                assert(out@ =~= base + interleave(css.take(0), kvs.take(0)));
            }
            while i < n
                invariant
                    i <= n,
                    n == css.len(),
                    kvs.len() + 1 == n,
                    kvs == kv_seq(okeys, ovals),
                    okeys.len() == ovals.len(),
                    okeys.len() + 1 == n,
                    self.children@ == orig.children@.skip(i as int),
                    orig.children@.len() == n,
                    orig.wf(),
                    i < n ==> self.keys@ == okeys.skip(i as int) && self.vals@ == ovals.skip(
                        i as int,
                    ),
                    forall|j: int|
                        0 <= j < n ==> css[j] == (#[trigger] orig.children@[j]).entries(),
                    i < n ==> out@ == base + interleave(css.take(i as int), kvs.take(i as int)),
                    i == n ==> out@ == base + interleave(css, kvs),
                decreases n - i,
            {
                let mut c = self.children.remove(0);
                let ghost before = out@;
                proof {
                    assert(orig.children@.skip(i as int)[0] == orig.children@[i as int]);
                    assert(c == orig.children@[i as int]);
                    assert(self.children@ =~= orig.children@.skip(i + 1));
                    assert((orig.children@[i as int]).wf());
                    assert((orig.children@[i as int]).height() < orig.height());
                    assert(c.height() < old(self).height());
                }
                c.collect_owned(out);
                if self.keys.len() > 0 {
                    let k = self.keys.remove(0);
                    let v = self.vals.remove(0);
                    out.push((k, v));
                    proof {
                        assert(okeys.skip(i as int)[0] == okeys[i as int]);
                        assert(ovals.skip(i as int)[0] == ovals[i as int]);
                        assert(self.keys@ =~= okeys.skip(i + 1));
                        assert(self.vals@ =~= ovals.skip(i + 1));
                        assert(out@ =~= before + css[i as int] + seq![kvs[i as int]]);
                        assert(css.take(i + 1) =~= css.take(i as int).push(css[i as int]));
                        assert(kvs.take(i + 1) =~= kvs.take(i as int).push(kvs[i as int]));
                        lemma_interleave_push_pair(
                            css.take(i as int),
                            kvs.take(i as int),
                            css[i as int],
                            kvs[i as int],
                        );
                        assert(out@ =~= base + interleave(css.take(i + 1), kvs.take(i + 1)));
                    }
                } else {
                    proof {
                        assert(self.keys@.len() == 0);
                        assert(i + 1 == n);
                        assert(out@ =~= before + css[i as int]);
                        assert(css =~= css.take(i as int).push(css[i as int]));
                        assert(kvs =~= kvs.take(i as int));
                        lemma_interleave_push_child(
                            css.take(i as int),
                            kvs.take(i as int),
                            css[i as int],
                        );
                        assert(out@ =~= base + interleave(css, kvs));
                    }
                }
                i += 1;
            }
            proof {
                assert(orig.entries() == interleave(css, kvs));
            }
        }
    }
}


/// Inserting twice under one key keeps only the second value.
pub proof fn lemma_kv_insert_twice<V>(s: Seq<(usize, V)>, key: usize, v1: V, v2: V)
    ensures
        kv_insert(kv_insert(s, key, v1), key, v2) == kv_insert(s, key, v2),
    decreases s.len(),
{
    if s.len() == 0 {
        assert(kv_insert(s, key, v1) =~= seq![(key, v1)]);
        assert(seq![(key, v1)].skip(1) =~= Seq::<(usize, V)>::empty());
        assert(kv_insert(kv_insert(s, key, v1), key, v2) =~= kv_insert(s, key, v2));
    } else if key < s[0].0 {
        assert((seq![(key, v1)] + s).skip(1) =~= s);
        assert(kv_insert(kv_insert(s, key, v1), key, v2) =~= kv_insert(s, key, v2));
    } else if key == s[0].0 {
        assert((seq![(key, v1)] + s.skip(1)).skip(1) =~= s.skip(1));
        assert(kv_insert(kv_insert(s, key, v1), key, v2) =~= kv_insert(s, key, v2));
    } else {
        lemma_kv_insert_twice(s.skip(1), key, v1, v2);
        assert((seq![s[0]] + kv_insert(s.skip(1), key, v1)).skip(1) =~= kv_insert(
            s.skip(1),
            key,
            v1,
        ));
        assert(kv_insert(kv_insert(s, key, v1), key, v2) =~= kv_insert(s, key, v2));
    }
}


impl<V> Node<V> {
    /// Every leaf of the subtree sits exactly `d` levels below it.
    pub(crate) open spec fn leaves_at(self, d: int) -> bool
        decreases self, self.children@.len() + 1,
    {
        if self.is_leaf() {
            d == 0
        } else {
            self.children_leaves_at(0, d - 1)
        }
    }

    /// Every leaf under children `i..` sits `d` levels below them.
    pub(crate) open spec fn children_leaves_at(self, i: int, d: int) -> bool
        decreases self, self.children@.len() - i,
    {
        if 0 <= i < self.children@.len() {
            self.children@[i].leaves_at(d) && self.children_leaves_at(i + 1, d)
        } else {
            true
        }
    }

    /// Every node strictly below the subtree's top holds between `T - 2`
    /// and `2 * T - 1` keys.
    pub(crate) open spec fn occupancy_ok(self) -> bool
        decreases self, self.children@.len() + 1,
    {
        self.children_occupancy_ok(0)
    }

    /// The occupancy bound for children `i..` and everything below them.
    pub(crate) open spec fn children_occupancy_ok(self, i: int) -> bool
        decreases self, self.children@.len() - i,
    {
        if 0 <= i < self.children@.len() {
            &&& T - 2 <= self.children@[i].keys@.len() <= 2 * T - 1
            &&& self.children@[i].occupancy_ok()
            &&& self.children_occupancy_ok(i + 1)
        } else {
            true
        }
    }

    /// A well-formed subtree is balanced: every leaf sits at depth equal
    /// to the subtree's height, and every node below the top keeps its
    /// key count within the occupancy bounds.
    pub(crate) proof fn lemma_balanced(self)
        requires
            self.wf(),
        ensures
            self.leaves_at(self.height() as int),
            self.occupancy_ok(),
        decreases self, self.children@.len() + 2,
    {
        if !self.is_leaf() {
            self.lemma_children_balanced(0);
        }
    }

    /// Helper induction over the child range for `lemma_balanced`.
    pub(crate) proof fn lemma_children_balanced(self, i: int)
        requires
            self.wf(),
            0 <= i <= self.children@.len(),
        ensures
            self.children_leaves_at(i, self.height() as int - 1),
            self.children_occupancy_ok(i),
        decreases self, self.children@.len() - i,
    {
        if i < self.children@.len() {
            self.children@[i].lemma_balanced();
            assert(self.children@[i].height() + 1 == self.height());
            self.lemma_children_balanced(i + 1);
        }
    }
}



/// Dropping the first pair of a sorted sequence removes exactly its key
/// from the denoted map.
pub proof fn lemma_map_of_skip<V>(s: Seq<(usize, V)>)
    requires
        seq_sorted(s),
        s.len() > 0,
    ensures
        map_of(s.skip(1)) == map_of(s).remove(s[0].0),
{
    let k = s[0].0;
    assert(!kv_contains(s.skip(1), k)) by {
        if kv_contains(s.skip(1), k) {
            let j = choose|j: int| 0 <= j < s.skip(1).len() && s.skip(1)[j].0 == k;
            assert(s[0].0 < s[j + 1].0);
        }
    }
    assert forall|q: usize| #![auto]
        map_of(s.skip(1)).dom().contains(q) == map_of(s).remove(k).dom().contains(q) by {
        lemma_map_of_props(s.skip(1), q);
        lemma_map_of_props(s, q);
        if q != k {
            assert(kv_contains(s.skip(1), q) == kv_contains(s, q)) by {
                if kv_contains(s, q) {
                    let j = choose|j: int| 0 <= j < s.len() && s[j].0 == q;
                    assert(s.skip(1)[j - 1].0 == q);
                }
                if kv_contains(s.skip(1), q) {
                    let j = choose|j: int| 0 <= j < s.skip(1).len() && s.skip(1)[j].0 == q;
                    assert(s[j + 1].0 == q);
                }
            }
        }
    }
    assert forall|q: usize| #![auto]
        map_of(s.skip(1)).dom().contains(q) implies map_of(s.skip(1))[q] == map_of(s).remove(
        k,
    )[q] by {
        lemma_map_of_props(s.skip(1), q);
        lemma_map_of_props(s, q);
        assert(q != k);
        assert(kv_contains(s, q)) by {
            let j = choose|j: int| 0 <= j < s.skip(1).len() && s.skip(1)[j].0 == q;
            assert(s[j + 1].0 == q);
        }
        assert(kv_lookup(s, q) == kv_lookup(s.skip(1), q));
    }
    assert(map_of(s.skip(1)) =~= map_of(s).remove(k));
}

/// Two sorted pair sequences denoting the same map are the same sequence:
/// the iteration order of a map is canonical.
pub proof fn lemma_sorted_unique<V>(s1: Seq<(usize, V)>, s2: Seq<(usize, V)>)
    requires
        seq_sorted(s1),
        seq_sorted(s2),
        map_of(s1) == map_of(s2),
    ensures
        s1 == s2,
    decreases s1.len(),
{
    lemma_map_of_len(s1);
    lemma_map_of_len(s2);
    if s1.len() == 0 {
        assert(s1 =~= s2);
    } else {
        let k1 = s1[0].0;
        let k2 = s2[0].0;
        lemma_map_of_props(s1, k1);
        lemma_map_of_props(s2, k1);
        lemma_map_of_props(s1, k2);
        lemma_map_of_props(s2, k2);
        assert(kv_contains(s1, k1)) by {
            assert(s1[0].0 == k1);
        }
        assert(kv_contains(s2, k2)) by {
            assert(s2[0].0 == k2);
        }
        assert(k2 <= k1) by {
            let j = choose|j: int| 0 <= j < s2.len() && s2[j].0 == k1;
            assert(j > 0 ==> s2[0].0 < s2[j].0);
        }
        assert(k1 <= k2) by {
            let j = choose|j: int| 0 <= j < s1.len() && s1[j].0 == k2;
            assert(j > 0 ==> s1[0].0 < s1[j].0);
        }
        assert(s1[0] == s2[0]) by {
            assert(kv_lookup(s1, k1) == Some(s1[0].1));
            assert(kv_lookup(s2, k1) == Some(s2[0].1));
        }
        assert(seq_sorted(s1.skip(1)));
        assert(seq_sorted(s2.skip(1)));
        lemma_map_of_skip(s1);
        lemma_map_of_skip(s2);
        assert(map_of(s1.skip(1)) == map_of(s2.skip(1)));
        lemma_sorted_unique(s1.skip(1), s2.skip(1));
        assert forall|j: int| 0 <= j < s1.len() implies s1[j] == s2[j] by {
            if j > 0 {
                assert(s1.skip(1)[j - 1] == s1[j]);
                assert(s2.skip(1)[j - 1] == s2[j]);
            }
        }
        assert(s1 =~= s2);
    }
}

} // verus!
