//! Scenario checks: hand-checked single-key flows, bulk random
//! permutations reproduced in sorted order, structural bounds of the tree,
//! the entry API, and the iterators.

use btree_rewrite::BTreeMap;
use btree_rewrite::map::Entry;
use btree_rewrite::node::ForceResult;
use btree_rewrite::node::Handle;
use btree_rewrite::node::NodeRef;
use rand::seq::SliceRandom;
use rand::thread_rng;

#[test]
fn test_single_key_flow() {
    let mut map = BTreeMap::new();
    assert_eq!(map.insert(1, "a"), None);
    assert_eq!(map.get(&1), Some(&"a"));
    assert_eq!(map.insert(1, "b"), Some("a"));
    assert_eq!(map.get(&1), Some(&"b"));
}

#[test]
fn test_absent_key() {
    let mut map = BTreeMap::new();
    map.insert(3, 30);
    map.insert(7, 70);
    assert_eq!(map.get(&5), None);
    assert!(!map.contains_key(&5));
}

#[test]
fn test_random_permutation_iter() {
    let n: usize = 100_000;
    let mut keys: Vec<usize> = (0..n).collect();
    keys.shuffle(&mut thread_rng());

    let mut map = BTreeMap::new();
    for &k in &keys {
        map.insert(k, 2 * k);
    }
    assert_eq!(map.len(), n);

    // iteration reproduces the keys in ascending order, with no
    // duplicates and no omissions
    let mut iter = map.iter();
    for expect in 0..n {
        let (k, v) = iter.next().unwrap();
        assert_eq!(k, expect);
        assert_eq!(*v, 2 * expect);
    }
    assert!(iter.next().is_none());
}

fn check_occupancy(node: NodeRef<'_, usize>, is_root: bool) {
    let len = node.len();
    if !is_root {
        assert!(len >= 5);
        assert!(len <= 11);
    }
    // keys within a node are strictly ascending
    let keys = node.keys();
    for w in keys.windows(2) {
        assert!(w[0] < w[1]);
    }
    if let ForceResult::Internal(n) = node.force() {
        let mut i: usize = 0;
        while i <= n.len() {
            let child = Handle::new(n.reborrow(), i).descend();
            check_occupancy(child, false);
            i += 1;
        }
    }
}

#[test]
fn test_node_occupancy_bounds() {
    let mut map = BTreeMap::new();
    for i in 0..1000 {
        map.insert(i, i);
    }
    check_occupancy(map.root_node(), true);
}

#[test]
fn test_len_counts_distinct_keys() {
    let mut map = BTreeMap::new();
    for k in [5usize, 1, 5, 3, 1, 5] {
        map.insert(k, 0);
    }
    assert_eq!(map.len(), 3);
    assert!(!map.is_empty());
}

#[test]
fn test_clear_and_empty() {
    let mut map = BTreeMap::new();
    assert!(map.is_empty());
    for i in 0..100 {
        map.insert(i, i);
    }
    assert!(!map.is_empty());
    map.clear();
    assert!(map.is_empty());
    assert_eq!(map.len(), 0);
    assert_eq!(map.get(&4), None);
    map.insert(4, 44);
    assert_eq!(map.get(&4), Some(&44));
}

#[test]
fn test_with_b() {
    let mut map = BTreeMap::with_b(17);
    assert!(map.is_empty());
    map.insert(9, 9);
    assert_eq!(map.len(), 1);
}

#[test]
fn test_get_mut() {
    let mut map = BTreeMap::new();
    for i in 0..500 {
        map.insert(i, 10 * i);
    }
    if let Some(v) = map.get_mut(&123) {
        assert_eq!(*v, 1230);
        *v = 7;
    }
    assert_eq!(map.get(&123), Some(&7));
    assert_eq!(map.get_mut(&1000), None);
    assert_eq!(map.len(), 500);
}

#[test]
fn test_entry_counting() {
    // the classic counting idiom through the entry API
    let mut count: BTreeMap<usize> = BTreeMap::new();
    let letters = [0usize, 1, 0, 2, 0, 1];
    for &x in &letters {
        *count.entry(x).or_insert(0) += 1;
    }
    assert_eq!(count.get(&0), Some(&3));
    assert_eq!(count.get(&1), Some(&2));
    assert_eq!(count.get(&2), Some(&1));
    assert_eq!(count.len(), 3);
}

#[test]
fn test_entry_equivalence() {
    // entry(k).or_insert(v) leaves the same observable map state as
    // "get_mut when present, else insert"
    let ops = [
        (4usize, 40usize),
        (2, 20),
        (4, 41),
        (9, 90),
        (2, 21),
        (7, 70),
    ];

    let mut via_entry = BTreeMap::new();
    for &(k, v) in &ops {
        let slot = via_entry.entry(k).or_insert(v);
        *slot += 1;
    }

    let mut manual = BTreeMap::new();
    for &(k, v) in &ops {
        if manual.contains_key(&k) {
            let slot = manual.get_mut(&k).unwrap();
            *slot += 1;
        } else {
            manual.insert(k, v + 1);
        }
    }

    assert_eq!(via_entry.len(), manual.len());
    let mut it1 = via_entry.iter();
    let mut it2 = manual.iter();
    loop {
        match (it1.next(), it2.next()) {
            (None, None) => break,
            (a, b) => assert_eq!(a, b),
        }
    }
}

#[test]
fn test_entry_occupied() {
    let mut map = BTreeMap::new();
    map.insert(8, 80);
    match map.entry(8) {
        Entry::Occupied(mut e) => {
            assert_eq!(*e.get(), 80);
            *e.get_mut() = 81;
            assert_eq!(*e.get(), 81);
            let old = e.insert(82);
            assert_eq!(old, 81);
            let slot = e.into_mut();
            assert_eq!(*slot, 82);
            *slot = 83;
        },
        Entry::Vacant(_) => panic!("key 8 must be occupied"),
    }
    assert_eq!(map.get(&8), Some(&83));
    assert_eq!(map.len(), 1);
}

#[test]
fn test_entry_vacant_insert() {
    let mut map: BTreeMap<usize> = BTreeMap::new();
    map.insert(1, 10);
    match map.entry(2) {
        Entry::Vacant(e) => {
            assert_eq!(e.key, 2);
            let slot = e.insert(20);
            assert_eq!(*slot, 20);
            *slot = 21;
        },
        Entry::Occupied(_) => panic!("key 2 must be vacant"),
    }
    assert_eq!(map.get(&2), Some(&21));
    assert_eq!(map.len(), 2);
}

#[test]
fn test_or_insert_with() {
    let mut map: BTreeMap<usize> = BTreeMap::new();
    map.insert(5, 50);
    let v = map.entry(5).or_insert_with(|| 99);
    assert_eq!(*v, 50);
    let v = map.entry(6).or_insert_with(|| 60);
    assert_eq!(*v, 60);
    assert_eq!(map.len(), 2);
}

#[test]
fn test_into_iter_sorted() {
    let mut map = BTreeMap::new();
    for &k in &[9usize, 3, 7, 1, 5] {
        map.insert(k, k + 100);
    }
    let mut it = map.into_iter();
    for expect in [1usize, 3, 5, 7, 9] {
        assert_eq!(it.next(), Some((expect, expect + 100)));
    }
    assert_eq!(it.next(), None);
}

#[test]
fn test_iter_restartable() {
    let mut map = BTreeMap::new();
    for i in 0..50 {
        map.insert(i, i);
    }
    let mut a = map.iter();
    let first = a.next().unwrap();
    assert_eq!((first.0, *first.1), (0, 0));
    // a fresh traversal starts from the beginning again
    let mut b = map.iter();
    let again = b.next().unwrap();
    assert_eq!((again.0, *again.1), (0, 0));
    let mut n: usize = 1;
    while b.next().is_some() {
        n += 1;
    }
    assert_eq!(n, 50);
}

#[test]
fn test_split_pivot_shape() {
    // a full leaf splits at pivot slot 6: the pivot pair is promoted, the
    // left half keeps six keys, the right sibling keeps four, and the new
    // key lands in whichever half its position falls into
    let mut map = BTreeMap::new();
    for k in [0usize, 2, 4, 6, 8, 10, 12, 14, 16, 18, 20] {
        map.insert(k, k);
    }
    map.insert(1, 1);
    let root = map.root_node();
    match root.force() {
        ForceResult::Internal(n) => {
            assert_eq!(n.keys(), &[12]);
            let left = Handle::new(n.reborrow(), 0).descend();
            assert_eq!(left.keys(), &[0, 1, 2, 4, 6, 8, 10]);
            let right = Handle::new(n.reborrow(), 1).descend();
            assert_eq!(right.keys(), &[14, 16, 18, 20]);
        },
        ForceResult::Leaf(_) => panic!("twelve keys do not fit in one leaf"),
    }
}
