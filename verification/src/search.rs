//! The search engine: a linear scan within one node, and the repeated
//! descent that drives every lookup in the tree.

use vstd::prelude::*;

use crate::node::ForceResult;
use crate::node::Handle;
use crate::node::NodeRef;
use crate::node::kv_lookup;

verus! {

/// Where a key search came to rest: an exact match at a key-value slot, or
/// the edge to descend through (at a leaf: the insertion point).
pub enum SearchResult<'a, V> {
    Found(Handle<'a, V>),
    GoDown(Handle<'a, V>),
}

/// Scan one node's sorted keys left to right and stop at the first key
/// `>= key`: an exact match reports `Found` at that slot, anything else
/// reports `GoDown` at that edge.
pub fn search_node<'a, V>(node: NodeRef<'a, V>, key: &usize) -> (r: SearchResult<'a, V>)
    requires
        node.wf(),
    ensures
        match r {
            SearchResult::Found(h) => {
                &&& h.spec_noderef() == node
                &&& h.spec_idx() < node.spec_keys().len()
                &&& node.spec_keys()[h.spec_idx() as int] == *key
            },
            SearchResult::GoDown(h) => {
                &&& h.spec_noderef() == node
                &&& h.spec_idx() <= node.spec_keys().len()
                &&& forall|j: int| 0 <= j < h.spec_idx() ==> node.spec_keys()[j] < *key
                &&& h.spec_idx() < node.spec_keys().len() ==> *key < node.spec_keys()[h.spec_idx() as int]
            },
        },
{
    let (idx, found) = crate::node::search_linear(&node.node.keys, *key);
    if found {
        SearchResult::Found(Handle::new(node, idx))
    } else {
        SearchResult::GoDown(Handle::new(node, idx))
    }
}

/// Walk down from `node`: descend at every internal `GoDown` edge, stop at
/// an exact match anywhere, or at the leaf edge where the key would sit.
pub fn search_tree<'a, V>(node: NodeRef<'a, V>, key: &usize) -> (r: SearchResult<'a, V>)
    requires
        node.wf(),
    ensures
        match r {
            SearchResult::Found(h) => {
                &&& h.spec_noderef().wf()
                &&& h.spec_idx() < h.spec_noderef().spec_keys().len()
                &&& h.spec_noderef().spec_keys()[h.spec_idx() as int] == *key
                &&& kv_lookup(node.entry_seq(), *key) == Some(
                    h.spec_noderef().spec_vals()[h.spec_idx() as int],
                )
            },
            SearchResult::GoDown(h) => {
                &&& h.spec_noderef().wf()
                &&& h.spec_noderef().is_leaf()
                &&& h.spec_idx() <= h.spec_noderef().spec_keys().len()
                &&& kv_lookup(node.entry_seq(), *key) is None
            },
        },
{
    let mut cur = node;
    loop
        invariant
            cur.wf(),
            kv_lookup(cur.entry_seq(), *key) == kv_lookup(node.entry_seq(), *key),
        decreases cur.spec_height(),
    {
        let ghost cur_node = cur.spec_node();
        match search_node(cur.reborrow(), key) {
            SearchResult::Found(h) => {
                proof {
                    cur_node.lemma_found_lookup(h.spec_idx() as int);
                }
                return SearchResult::Found(h);
            },
            SearchResult::GoDown(h) => {
                match h.force() {
                    ForceResult::Leaf(leaf) => {
                        proof {
                            cur_node.lemma_entries_sorted();
                            let e = cur_node.entries();
                            assert(forall|j: int|
                                0 <= j < leaf.spec_idx() ==> (#[trigger] e[j]).0 < *key);
                            crate::node::lemma_kv_lookup_at(e, *key, leaf.spec_idx() as int);
                        }
                        return SearchResult::GoDown(leaf);
                    },
                    ForceResult::Internal(internal) => {
                        proof {
                            cur_node.lemma_descend(*key, internal.spec_idx() as int);
                        }
                        cur = internal.descend();
                    },
                }
            },
        }
    }
}

} // verus!
