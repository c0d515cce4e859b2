//! Checks of the navigation layer and the search engine: node views,
//! positional handles, and the descent that drives every lookup.

use btree_rewrite::BTreeMap;
use btree_rewrite::node::ForceResult;
use btree_rewrite::node::Handle;
use btree_rewrite::node::Root;
use btree_rewrite::search::SearchResult;
use btree_rewrite::search::search_node;
use btree_rewrite::search::search_tree;

#[test]
fn test_new_leaf_root() {
    let root: Root<usize> = Root::new_leaf();
    let view = root.as_ref();
    assert_eq!(view.height(), 0);
    assert_eq!(view.len(), 0);
    assert_eq!(view.capacity(), 11);
    assert!(view.keys().is_empty());
    match view.force() {
        ForceResult::Leaf(_) => {},
        ForceResult::Internal(_) => panic!("an empty root must be a leaf"),
    }
}

#[test]
fn test_node_view_getters() {
    let mut map = BTreeMap::new();
    for i in 0..5 {
        map.insert(i, 10 * i);
    }
    // five entries fit in the root leaf
    let view = map.root_node();
    assert_eq!(view.height(), 0);
    assert_eq!(view.len(), 5);
    assert_eq!(view.keys(), &[0, 1, 2, 3, 4]);
    assert_eq!(view.vals(), &[0, 10, 20, 30, 40]);
    let copy = view.reborrow();
    assert_eq!(copy.len(), 5);
}

#[test]
fn test_handle_positions() {
    let mut map = BTreeMap::new();
    for i in 0..5 {
        map.insert(i, i);
    }
    let view = map.root_node();

    let first = view.reborrow().first_edge();
    match first.right_kv() {
        Ok(kv) => {
            let (k, v) = kv.into_kv();
            assert_eq!((*k, *v), (0, 0));
        },
        Err(_) => panic!("a populated node has a first pair"),
    }

    let last = view.reborrow().last_edge();
    match last.left_kv() {
        Ok(kv) => {
            let (k, v) = kv.into_kv();
            assert_eq!((*k, *v), (4, 4));
        },
        Err(_) => panic!("a populated node has a last pair"),
    }

    let kv = Handle::new(view.reborrow(), 2);
    let (k, _) = kv.into_kv();
    assert_eq!(*k, 2);
    let edge = Handle::new(view.reborrow(), 2).right_edge();
    match edge.right_kv() {
        Ok(kv) => {
            let (k, _) = kv.into_kv();
            assert_eq!(*k, 3);
        },
        Err(_) => panic!("position 3 still holds a pair"),
    }
    let node_back = Handle::new(view, 0).into_node();
    assert_eq!(node_back.len(), 5);
}

#[test]
fn test_search_node_positions() {
    let mut map = BTreeMap::new();
    for &k in &[10usize, 20, 30] {
        map.insert(k, k);
    }
    let view = map.root_node();
    match search_node(view.reborrow(), &20) {
        SearchResult::Found(_) => {},
        SearchResult::GoDown(_) => panic!("key 20 is stored"),
    }
    match search_node(view, &25) {
        SearchResult::Found(_) => panic!("key 25 is absent"),
        SearchResult::GoDown(h) => {
            // the edge between 20 and 30 is position 2
            let n = h.into_node();
            assert_eq!(n.len(), 3);
        },
    }
}

#[test]
fn test_search_tree_deep() {
    let mut map = BTreeMap::new();
    for i in 0..500 {
        map.insert(i, 3 * i);
    }
    let view = map.root_node();
    assert!(view.height() > 0);
    match search_tree(view.reborrow(), &321) {
        SearchResult::Found(h) => {
            let (k, v) = h.into_kv();
            assert_eq!((*k, *v), (321, 963));
        },
        SearchResult::GoDown(_) => panic!("key 321 is stored"),
    }
    match search_tree(view, &1000) {
        SearchResult::Found(_) => panic!("key 1000 is absent"),
        SearchResult::GoDown(h) => {
            // the descent bottoms out at a leaf edge
            match h.force() {
                ForceResult::Leaf(_) => {},
                ForceResult::Internal(_) => panic!("the final edge must sit in a leaf"),
            }
        },
    }
}

#[test]
fn test_descend_levels() {
    let mut map = BTreeMap::new();
    for i in 0..500 {
        map.insert(i, i);
    }
    let view = map.root_node();
    let h = view.height();
    match view.force() {
        ForceResult::Internal(n) => {
            let child = n.first_edge().descend();
            assert_eq!(child.height() + 1, h);
        },
        ForceResult::Leaf(_) => panic!("500 keys cannot fit in one leaf"),
    }
}
