//! Nodes of the composition tree and the shape every tree keeps.

use vstd::prelude::*;
use crate::store::key_valid;

verus! {

/// A composable in the composition tree.
pub struct Node {
    /// Key of the parent node, `None` for the root.
    pub parent: Option<u64>,
    /// Keys of the child nodes, in the order they were created.
    pub children: Vec<u64>,
    /// Position of this node among the children its parent composes.
    pub child_idx: usize,
    /// Type identifier of the composable held by this node.
    pub data_id: u64,
}

/// The predicate "is not `key`".
pub open spec fn not_key(key: u64) -> spec_fn(u64) -> bool {
    |c: u64| c != key
}

/// `children` without any occurrence of `key`.
pub open spec fn without(children: Seq<u64>, key: u64) -> Seq<u64> {
    children.filter(not_key(key))
}

/// The shape of a composition tree: every child link has a matching parent
/// link and the other way round, and no node lists a child twice.
pub open spec fn tree_wf(m: Map<u64, Node>) -> bool {
    &&& m.dom().finite()
    &&& forall|k: u64| #[trigger] m.contains_key(k) ==> key_valid(k)
    &&& forall|k: u64, i: int|
        #![trigger m[k].children@[i]]
        m.contains_key(k) && 0 <= i < m[k].children@.len() ==> {
            let c = m[k].children@[i];
            m.contains_key(c) && m[c].parent == Some(k)
        }
    &&& forall|k: u64|
        #![trigger m[k].parent]
        m.contains_key(k) && m[k].parent is Some ==> {
            let p = m[k].parent->0;
            m.contains_key(p) && m[p].children@.contains(k)
        }
    &&& forall|k: u64| #[trigger] m.contains_key(k) ==> m[k].children@.no_duplicates()
}

/// The nodes removed between `old_m` and `new_m` are exactly `key` and its
/// descendants: every removed node other than `key` has a removed parent, and
/// no child of a removed node is left.
pub open spec fn removes_subtree(old_m: Map<u64, Node>, new_m: Map<u64, Node>, key: u64) -> bool {
    &&& new_m.dom().subset_of(old_m.dom())
    &&& !new_m.contains_key(key)
    &&& forall|n: u64|
        #![trigger old_m[n]]
        old_m.contains_key(n) && !new_m.contains_key(n) && n != key ==> {
            &&& old_m[n].parent is Some
            &&& old_m.contains_key(old_m[n].parent->0)
            &&& !new_m.contains_key(old_m[n].parent->0)
        }
    &&& forall|n: u64, i: int|
        #![trigger old_m[n].children@[i], new_m.contains_key(n)]
        old_m.contains_key(n) && !new_m.contains_key(n) && 0 <= i < old_m[n].children@.len()
            ==> !new_m.contains_key(old_m[n].children@[i])
}

} // verus!
