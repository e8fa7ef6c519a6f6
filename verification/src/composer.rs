//! Composer for composable content: the composition tree, the scopes of its
//! nodes, the queue of nodes to compose and the queue of value updates.

use vstd::prelude::*;
use vstd::std_specs::cmp::PartialEqSpec;
use std::collections::HashMap;
use crossbeam_queue::SegQueue;
use crate::node::{Node, tree_wf, without, not_key, removes_subtree};
use crate::scope::{ScopeData, ScopeView};
use crate::store::{
    NodeSlots, key_valid, node_slots, queued_keys, slots_new, slots_insert, slots_remove, slots_get,
    slots_set, queue_new, queue_push, queue_pop,
};

verus! {

broadcast use vstd::std_specs::hash::group_hash_axioms;

/// What a queued update stores in its slot.
pub enum UpdateOp<V, F> {
    /// Store this value.
    Assign(V),
    /// Store what this function returns for the slot's value at that time.
    Apply(F),
}

/// A queued write to a hook slot, applied after the composition.
pub struct PendingUpdate<V, F> {
    /// Key of the scope that owns the slot.
    pub scope: u64,
    /// Hook slot to write.
    pub slot: usize,
    /// What to store.
    pub op: UpdateOp<V, F>,
    /// Whether the owning scope is queued to be composed again after the write.
    pub recompose: bool,
}

/// The part of a composer that updates change: the scopes and the queue of
/// nodes to compose.
pub struct UpdateState<V> {
    /// Scopes by node key.
    pub scopes: Map<u64, ScopeView<V>>,
    /// Nodes queued to be composed.
    pub pending: Seq<u64>,
}

/// `pending` with `key` appended, unless it is queued already.
pub open spec fn queued(pending: Seq<u64>, key: u64) -> Seq<u64> {
    if pending.contains(key) {
        pending
    } else {
        pending.push(key)
    }
}

/// Whether an update's slot exists; updates of other slots are skipped.
pub open spec fn update_applies<V, F>(st: UpdateState<V>, u: PendingUpdate<V, F>) -> bool {
    st.scopes.contains_key(u.scope) && u.slot < st.scopes[u.scope].hooks.len()
}

/// Whether `r` is a value that the update `u` may store in state `st`.
pub open spec fn update_result<V, F: FnOnce(&V) -> V>(st: UpdateState<V>, u: PendingUpdate<V, F>, r: V) -> bool {
    update_applies(st, u) ==> match u.op {
        UpdateOp::Assign(v) => r == v,
        UpdateOp::Apply(f) => f.ensures((&st.scopes[u.scope].hooks[u.slot as int].value,), r),
    }
}

/// The state after applying the update `u`, which stores `r`.
pub open spec fn apply_update<V, F>(st: UpdateState<V>, u: PendingUpdate<V, F>, r: V) -> UpdateState<V> {
    if update_applies(st, u) {
        UpdateState {
            scopes: st.scopes.insert(u.scope, st.scopes[u.scope].write(u.slot as int, r)),
            pending: if u.recompose { queued(st.pending, u.scope) } else { st.pending },
        }
    } else {
        st
    }
}

/// The state after applying the updates `us` in order, the `i`-th storing `rs[i]`.
pub open spec fn apply_updates<V, F>(st: UpdateState<V>, us: Seq<PendingUpdate<V, F>>, rs: Seq<V>) -> UpdateState<V>
    decreases us.len(),
{
    if us.len() == 0 {
        st
    } else {
        apply_update(apply_updates(st, us.drop_last(), rs.drop_last()), us.last(), rs.last())
    }
}

/// Whether `rs` are values that the updates `us`, applied in order from `st`,
/// may store.
pub open spec fn update_results<V, F: FnOnce(&V) -> V>(st: UpdateState<V>, us: Seq<PendingUpdate<V, F>>, rs: Seq<V>) -> bool
    decreases us.len(),
{
    &&& us.len() == rs.len()
    &&& us.len() > 0 ==> {
        &&& update_results(st, us.drop_last(), rs.drop_last())
        &&& update_result(apply_updates(st, us.drop_last(), rs.drop_last()), us.last(), rs.last())
    }
}

/// Composer for composable content.
pub struct Composer<V, F> {
    nodes: NodeSlots,
    scopes: HashMap<u64, ScopeData<V>>,
    pending: Vec<u64>,
    updates: Vec<PendingUpdate<V, F>>,
    tasks: SegQueue<u64>,
    dropped: Vec<V>,
    is_initial: bool,
    root: u64,
}

/// `children` without `key`, as a new vector.
fn children_without(children: &Vec<u64>, key: u64) -> (r: Vec<u64>)
    ensures
        r@ == without(children@, key),
{
    let mut r: Vec<u64> = Vec::new();
    let mut i: usize = 0;
    while i < children.len()
        invariant
            i <= children@.len(),
            r@ == without(children@.take(i as int), key),
        decreases children@.len() - i,
    {
        let c = children[i];
        proof {
            let p = not_key(key);
            children@.take(i as int).lemma_filter_push(c, p);
            assert(children@.take(i + 1) =~= children@.take(i as int).push(c));
        }
        if c != key {
            r.push(c);
        }
        i = i + 1;
    }
    proof {
        assert(children@.take(i as int) =~= children@);
    }
    r
}

/// Copy of a vector of keys.
fn copy_keys(v: &Vec<u64>) -> (r: Vec<u64>)
    ensures
        r@ == v@,
{
    let mut r: Vec<u64> = Vec::new();
    let mut i: usize = 0;
    while i < v.len()
        invariant
            i <= v@.len(),
            r@ == v@.take(i as int),
        decreases v@.len() - i,
    {
        r.push(v[i]);
        proof {
            assert(v@.take(i + 1) =~= v@.take(i as int).push(v@[i as int]));
        }
        i = i + 1;
    }
    proof {
        assert(v@.take(i as int) =~= v@);
    }
    r
}

/// Removing every occurrence of a key keeps a sequence free of duplicates,
/// and keeps exactly the other elements.
pub proof fn lemma_without(s: Seq<u64>, key: u64)
    requires
        s.no_duplicates(),
    ensures
        without(s, key).no_duplicates(),
        forall|x: u64| without(s, key).contains(x) <==> (s.contains(x) && x != key),
    decreases s.len(),
{
    let p = not_key(key);
    if s.len() == 0 {
        assert(without(s, key) =~= Seq::<u64>::empty());
    } else {
        let d = s.drop_last();
        assert(d.no_duplicates()) by {
            assert forall|i: int, j: int| 0 <= i < d.len() && 0 <= j < d.len() && i != j
                implies d[i] != d[j] by {
                assert(d[i] == s[i] && d[j] == s[j]);
            }
        }
        lemma_without(d, key);
        assert(s =~= d.push(s.last()));
        d.lemma_filter_push(s.last(), p);
        assert(!d.contains(s.last())) by {
            if d.contains(s.last()) {
                let i = choose|i: int| 0 <= i < d.len() && d[i] == s.last();
                assert(s[i] == s[s.len() - 1]);
            }
        }
        let w = without(d, key);
        let e = s.last();
        assert(without(s, key) == if p(e) { w.push(e) } else { w });
        assert forall|x: u64| without(s, key).contains(x) <==> (s.contains(x) && x != key) by {
            if s.contains(x) && x != key {
                let i = choose|i: int| 0 <= i < s.len() && s[i] == x;
                if i < s.len() - 1 {
                    assert(d[i] == x);
                    assert(d.contains(x));
                    assert(w.contains(x));
                    let j = choose|j: int| 0 <= j < w.len() && w[j] == x;
                    if p(e) {
                        assert(w.push(e)[j] == x);
                    }
                } else {
                    assert(w.push(e)[w.len() as int] == x);
                }
            }
            if without(s, key).contains(x) {
                if p(e) && x == e {
                    assert(s[s.len() - 1] == x);
                } else {
                    if p(e) {
                        let j = choose|j: int| 0 <= j < w.push(e).len() && w.push(e)[j] == x;
                        assert(j < w.len());
                        assert(w[j] == x);
                    }
                    assert(w.contains(x));
                    assert(d.contains(x));
                    let i = choose|i: int| 0 <= i < d.len() && d[i] == x;
                    assert(s[i] == x);
                }
            }
        }
        if p(s.last()) {
            let w = without(d, key);
            assert(without(s, key) =~= w.push(s.last()));
            assert forall|i: int, j: int|
                0 <= i < w.push(s.last()).len() && 0 <= j < w.push(s.last()).len() && i != j
                implies w.push(s.last())[i] != w.push(s.last())[j] by {
                if i < w.len() && j < w.len() {
                } else if i == w.len() {
                    assert(w.contains(w[j]));
                } else {
                    assert(w.contains(w[i]));
                }
            }
        }
    }
}

/// The keys of a scope map, each once.
fn scope_keys<V>(scopes: &HashMap<u64, ScopeData<V>>) -> (r: Vec<u64>)
    ensures
        r@.no_duplicates(),
        r@.to_set() == scopes@.dom(),
{
    let mut r: Vec<u64> = Vec::new();
    for k in it: scopes.keys()
        invariant
            r@.len() == it.index(),
            it.seq().len() == scopes@.dom().len(),
            it.seq().no_duplicates(),
            it.seq().unref().to_set() == scopes@.dom(),
            forall|j: int| 0 <= j < it.index() ==> r@[j] == *#[trigger] it.seq()[j],
            forall|j: int| 0 <= j < r@.len() ==> scopes@.dom().contains(#[trigger] r@[j]),
            r@.no_duplicates(),
    {
        proof {
            let j0 = it.index();
            assert(it.seq().unref().to_set().contains(*it.seq()[j0]));
            assert(it.seq().unref()[j0] == *it.seq()[j0]);
            assert forall|a: int| 0 <= a < j0 implies r@[a] != *it.seq()[j0] by {
                assert(r@[a] == *it.seq()[a]);
                assert(it.seq()[a] != it.seq()[j0]);
            }
        }
        r.push(*k);
    }
    proof {
        r@.unique_seq_to_set();
        vstd::seq_lib::seq_to_set_is_finite(r@);
        assert(r@.to_set().subset_of(scopes@.dom())) by {
            assert forall|x: u64| r@.to_set().contains(x) implies scopes@.dom().contains(x) by {
                let j = choose|j: int| 0 <= j < r@.len() && r@[j] == x;
            }
        }
        vstd::set_lib::lemma_subset_equality(r@.to_set(), scopes@.dom());
    }
    r
}

/// Groups of values joined last group first.
spec fn flatten_rev<V>(gs: Seq<Seq<V>>) -> Seq<V>
    decreases gs.len(),
{
    if gs.len() == 0 {
        Seq::empty()
    } else {
        gs.last() + flatten_rev(gs.drop_last())
    }
}

/// Append the groups to `dst`, last group first.
fn append_reversed<V>(dst: &mut Vec<V>, groups: Vec<Vec<V>>)
    ensures
        final(dst)@ == old(dst)@ + flatten_rev(groups@.map_values(|g: Vec<V>| g@)),
{
    let ghost gs = groups@.map_values(|g: Vec<V>| g@);
    let mut groups = groups;
    while groups.len() > 0
        invariant
            old(dst)@ + flatten_rev(gs) == dst@ + flatten_rev(groups@.map_values(|g: Vec<V>| g@)),
        decreases groups@.len(),
    {
        let ghost before = groups@.map_values(|g: Vec<V>| g@);
        let ghost d0 = dst@;
        let mut g = groups.pop().unwrap();
        let ghost gv = g@;
        dst.append(&mut g);
        proof {
            assert(before.drop_last() =~= groups@.map_values(|g: Vec<V>| g@));
            assert(before.last() == gv);
            let rest = flatten_rev(before.drop_last());
            assert(d0 + (gv + rest) =~= (d0 + gv) + rest);
        }
    }
    proof {
        assert(groups@.map_values(|g: Vec<V>| g@) =~= Seq::<Seq<V>>::empty());
        assert(dst@ + Seq::<V>::empty() =~= dst@);
    }
}

impl<V, F> Composer<V, F> {
    /// Nodes of the composition tree, by key.
    pub closed spec fn nodes(&self) -> Map<u64, Node> {
        node_slots(self.nodes)
    }

    /// Whether a scope is stored for `k`.
    pub closed spec fn has_scope(&self, k: u64) -> bool {
        self.scopes@.contains_key(k)
    }

    /// Scope of the node `k`.
    pub closed spec fn scope(&self, k: u64) -> ScopeView<V> {
        self.scopes@[k]@
    }

    /// Key of the root node.
    pub closed spec fn root(&self) -> u64 {
        self.root
    }

    /// Nodes queued to be composed, in queue order.
    pub closed spec fn pending(&self) -> Seq<u64> {
        self.pending@
    }

    /// Updates queued for after the composition, in queue order.
    pub closed spec fn updates(&self) -> Seq<PendingUpdate<V, F>> {
        self.updates@
    }

    /// Keys of the tasks ready to be polled, in queue order.
    pub closed spec fn tasks(&self) -> Seq<u64> {
        queued_keys(self.tasks)
    }

    /// Drop functions of dropped scopes not yet handed out, in drop order.
    pub closed spec fn dropped(&self) -> Seq<V> {
        self.dropped@
    }

    /// The drop functions of the scopes of `order`, scope by scope.
    pub open spec fn dropped_fns(self, order: Seq<u64>) -> Seq<V>
        decreases order.len(),
    {
        if order.len() == 0 {
            Seq::empty()
        } else {
            self.dropped_fns(order.drop_last()) + self.scope(order.last()).drop_fns()
        }
    }

    /// Whether the first composition has not happened yet.
    pub closed spec fn is_initial(&self) -> bool {
        self.is_initial
    }

    /// A well-formed composer: a well-shaped tree rooted at `root`, with one
    /// well-formed scope per node.
    pub closed spec fn wf(&self) -> bool {
        &&& tree_wf(self.nodes())
        &&& self.scopes@.dom() == self.nodes().dom()
        &&& forall|k: u64| #[trigger] self.scopes@.contains_key(k) ==> self.scopes@[k]@.key == k
            && self.scopes@[k]@.wf()
        &&& self.nodes().contains_key(self.root)
        &&& self.nodes()[self.root].parent is None
    }

    /// `other` is `self` with a new child `key` of `parent`, holding a
    /// composable of type `data_id` at position `child_idx`, whose scope
    /// starts with the contexts that `parent` passes on.
    pub open spec fn child_added(self, other: Self, parent: u64, key: u64, data_id: u64, child_idx: usize) -> bool {
        &&& self.child_added_beside(other, parent, key, data_id, child_idx)
        &&& other.scope(parent) == self.scope(parent)
    }

    /// As [`Composer::child_added`], leaving the scope of `parent` aside.
    pub open spec fn child_added_beside(self, other: Self, parent: u64, key: u64, data_id: u64, child_idx: usize) -> bool {
        &&& !self.nodes().contains_key(key)
        &&& other.dropped() == self.dropped()
        &&& other.nodes().dom() == self.nodes().dom().insert(key)
        &&& other.nodes()[key].parent == Some(parent)
        &&& other.nodes()[key].children@.len() == 0
        &&& other.nodes()[key].child_idx == child_idx
        &&& other.nodes()[key].data_id == data_id
        &&& other.nodes()[parent].children@ == self.nodes()[parent].children@.push(key)
        &&& other.nodes()[parent].parent == self.nodes()[parent].parent
        &&& other.nodes()[parent].child_idx == self.nodes()[parent].child_idx
        &&& other.nodes()[parent].data_id == self.nodes()[parent].data_id
        &&& forall|n: u64| n != key && n != parent && self.nodes().contains_key(n)
            ==> #[trigger] other.nodes()[n] == self.nodes()[n]
        &&& other.scope(key) == ScopeView::<V>::fresh(key, self.scope(parent).contexts_for_child())
        &&& forall|n: u64| n != key && n != parent && self.nodes().contains_key(n)
            ==> #[trigger] other.scope(n) == self.scope(n)
    }

    /// `other` is `self` without the node `key` and its descendants, with
    /// `key` removed from its parent's children; the scopes of the other
    /// nodes are unchanged. The drop functions of the removed scopes are
    /// queued scope by scope, every node after all of its descendants and
    /// `key` last.
    pub open spec fn subtree_dropped(self, other: Self, key: u64) -> bool {
        &&& removes_subtree(self.nodes(), other.nodes(), key)
        &&& forall|n: u64| #[trigger] other.nodes().contains_key(n) ==> {
            if Some(n) == self.nodes()[key].parent {
                &&& other.nodes()[n].children@ == without(self.nodes()[n].children@, key)
                &&& other.nodes()[n].parent == self.nodes()[n].parent
                &&& other.nodes()[n].child_idx == self.nodes()[n].child_idx
                &&& other.nodes()[n].data_id == self.nodes()[n].data_id
            } else {
                other.nodes()[n] == self.nodes()[n]
            }
        }
        &&& forall|n: u64| #[trigger] other.nodes().contains_key(n) ==> other.scope(n) == self.scope(n)
        &&& exists|order: Seq<u64>| {
            &&& order.no_duplicates()
            &&& order.to_set() == self.nodes().dom().difference(other.nodes().dom())
            &&& order.len() > 0 && order.last() == key
            &&& forall|i: int|
                #![trigger order[i]]
                0 <= i < order.len() && order[i] != key ==> exists|j: int|
                    i < j < order.len() && #[trigger] order[j] == self.nodes()[order[i]].parent->0
            &&& #[trigger] other.dropped() == self.dropped() + self.dropped_fns(order)
        }
    }

    /// The queues of updates and tasks, the root and the first-composition flag
    /// are the same in `self` and `other`.
    pub open spec fn same_runtime(self, other: Self) -> bool {
        &&& other.root() == self.root()
        &&& other.updates() == self.updates()
        &&& other.tasks() == self.tasks()
        &&& other.is_initial() == self.is_initial()
    }

    /// Create a new composer whose root node holds a composable of type `data_id`.
    pub fn new(data_id: u64) -> (c: Self)
        ensures
            c.wf(),
            c.nodes().dom() == set![c.root()],
            c.nodes()[c.root()].parent is None,
            c.nodes()[c.root()].children@.len() == 0,
            c.nodes()[c.root()].data_id == data_id,
            c.scope(c.root()) == ScopeView::<V>::fresh(c.root(), Map::empty()),
            c.pending().len() == 0,
            c.updates().len() == 0,
            c.tasks().len() == 0,
            c.dropped().len() == 0,
            c.is_initial(),
    {
        let mut nodes = slots_new();
        let root = slots_insert(
            &mut nodes,
            Node { parent: None, children: Vec::new(), child_idx: 0, data_id },
        );
        let mut scopes: HashMap<u64, ScopeData<V>> = HashMap::new();
        scopes.insert(root, ScopeData::new(root, HashMap::new()));
        let c = Composer {
            nodes,
            scopes,
            pending: Vec::new(),
            updates: Vec::new(),
            tasks: queue_new(),
            dropped: Vec::new(),
            is_initial: true,
            root,
        };
        proof {
            assert(c.nodes().dom() =~= set![root]);
            assert(c.scopes@.dom() =~= c.nodes().dom());
        }
        c
    }

    /// Key of the root node.
    pub fn root_key(&self) -> (k: u64)
        ensures
            k == self.root(),
    {
        self.root
    }

    /// Add a new child node under `parent`, holding a composable of type
    /// `data_id` at position `child_idx`. The child's scope starts with the
    /// contexts that `parent` passes on.
    pub fn insert_child(&mut self, parent: u64, data_id: u64, child_idx: usize) -> (key: u64)
        requires
            old(self).wf(),
            old(self).nodes().contains_key(parent),
            old(self).nodes().dom().len() < u32::MAX - 1,
        ensures
            final(self).wf(),
            old(self).child_added(*final(self), parent, key, data_id, child_idx),
            final(self).root() == old(self).root(),
            final(self).pending() == old(self).pending(),
            final(self).updates() == old(self).updates(),
            final(self).tasks() == old(self).tasks(),
            final(self).is_initial() == old(self).is_initial(),
    {
        let ghost old_nodes = self.nodes();
        let (children, pparent, pidx, pdata) = match slots_get(&self.nodes, parent) {
            Some(pnode) => (copy_keys(&pnode.children), pnode.parent, pnode.child_idx, pnode.data_id),
            None => {
                assert(false);
                (Vec::new(), None, 0, 0)
            },
        };
        let key = slots_insert(
            &mut self.nodes,
            Node { parent: Some(parent), children: Vec::new(), child_idx, data_id },
        );
        let ghost mid_nodes = self.nodes();
        let mut children = children;
        children.push(key);
        let present = slots_set(
            &mut self.nodes,
            parent,
            Node { parent: pparent, children, child_idx: pidx, data_id: pdata },
        );
        assert(present);
        let child_scope = match self.scopes.get(&parent) {
            Some(ps) => ps.child(key),
            None => {
                assert(false);
                ScopeData::new(key, HashMap::new())
            },
        };
        self.scopes.insert(key, child_scope);
        proof {
            let m = self.nodes();
            assert(m.dom() =~= old_nodes.dom().insert(key));
            assert(self.scopes@.dom() =~= m.dom());
            assert(old_nodes[parent].children@.no_duplicates());
            assert(!old_nodes[parent].children@.contains(key)) by {
                if old_nodes[parent].children@.contains(key) {
                    let i = choose|i: int| 0 <= i < old_nodes[parent].children@.len()
                        && old_nodes[parent].children@[i] == key;
                    assert(old_nodes.contains_key(old_nodes[parent].children@[i]));
                }
            }
            assert forall|k: u64, i: int|
                #![trigger m[k].children@[i]]
                m.contains_key(k) && 0 <= i < m[k].children@.len() implies {
                    let c = m[k].children@[i];
                    m.contains_key(c) && m[c].parent == Some(k)
                } by {
                if k == parent {
                    if i < old_nodes[parent].children@.len() {
                        assert(m[k].children@[i] == old_nodes[parent].children@[i]);
                    }
                } else if k != key {
                    assert(m[k] == old_nodes[k]);
                    assert(old_nodes[k].children@[i] != key);
                }
            }
            assert forall|p: u64, x: u64|
                old_nodes.contains_key(p) && #[trigger] old_nodes[p].children@.contains(x)
                implies #[trigger] m[p].children@.contains(x) by {
                let j = choose|j: int| 0 <= j < old_nodes[p].children@.len()
                    && old_nodes[p].children@[j] == x;
                if p == parent {
                    assert(m[p].children@[j] == x);
                } else {
                    assert(m[p] == old_nodes[p]);
                }
            }
            assert forall|k: u64| #![trigger m[k].parent] m.contains_key(k) && m[k].parent is Some implies {
                let p = m[k].parent->0;
                m.contains_key(p) && m[p].children@.contains(k)
            } by {
                if k == key {
                    let s = m[parent].children@;
                    assert(s[s.len() - 1] == key);
                    assert(s.contains(key));
                } else {
                    if k != parent {
                        assert(m[k] == old_nodes[k]);
                    }
                    let p = old_nodes[k].parent->0;
                    assert(old_nodes[p].children@.contains(k));
                    assert(m[p].children@.contains(k));
                }
            }
            assert forall|k: u64| #[trigger] m.contains_key(k) implies m[k].children@.no_duplicates() by {
                if k == parent {
                    let s = m[k].children@;
                    assert forall|i: int, j: int| 0 <= i < s.len() && 0 <= j < s.len() && i != j
                        implies s[i] != s[j] by {
                        let o = old_nodes[parent].children@;
                        if i < o.len() && j < o.len() {
                            assert(s[i] == o[i] && s[j] == o[j]);
                        } else if i == o.len() {
                            assert(o.contains(s[j]));
                        } else {
                            assert(o.contains(s[i]));
                        }
                    }
                } else if k != key {
                    assert(m[k] == old_nodes[k]);
                }
            }
            assert forall|k: u64| #[trigger] self.scopes@.contains_key(k) implies self.scopes@[k]@.key == k
                && self.scopes@[k]@.wf() by {
            }
        }
        key
    }

    /// Remove the node `key` and all its descendants from the tree, together
    /// with their scopes, and remove `key` from its parent's children.
    pub fn drop_node(&mut self, key: u64)
        requires
            old(self).wf(),
            old(self).nodes().contains_key(key),
            key != old(self).root(),
        ensures
            final(self).wf(),
            old(self).subtree_dropped(*final(self), key),
            final(self).root() == old(self).root(),
            final(self).pending() == old(self).pending(),
            final(self).updates() == old(self).updates(),
            final(self).tasks() == old(self).tasks(),
            final(self).is_initial() == old(self).is_initial(),
    {
        let ghost old_nodes = self.nodes();
        let ghost old_scopes = self.scopes@;
        let parent = match slots_get(&self.nodes, key) {
            Some(n) => n.parent,
            None => None,
        };
        // Detach `key` from its parent.
        if let Some(p) = parent {
            let (children, pparent, pidx, pdata) = match slots_get(&self.nodes, p) {
                Some(pn) => (children_without(&pn.children, key), pn.parent, pn.child_idx, pn.data_id),
                None => {
                    assert(false);
                    (Vec::new(), None, 0, 0)
                },
            };
            slots_set(&mut self.nodes, p, Node { parent: pparent, children, child_idx: pidx, data_id: pdata });
        }
        let ghost base = self.nodes();
        proof {
            assert(base.dom() =~= old_nodes.dom());
            if let Some(p) = parent {
                lemma_without(old_nodes[p].children@, key);
            }
        }
        // Remove the subtree, one node at a time.
        let mut stack: Vec<u64> = Vec::new();
        stack.push(key);
        assert(stack@[0] == key);
        let ghost mut order: Seq<u64> = Seq::empty();
        // Drop functions of the removed scopes, in removal order.
        let mut groups: Vec<Vec<V>> = Vec::new();
        loop
            invariant
                order.no_duplicates(),
                order.len() > 0 ==> order[0] == key,
                // A removed node other than `key` is removed after its parent.
                forall|i: int|
                    #![trigger order[i]]
                    0 <= i < order.len() && order[i] != key ==> exists|j: int|
                        0 <= j < i && #[trigger] order[j] == old_nodes[order[i]].parent->0,
                groups@.len() == order.len(),
                forall|i: int| 0 <= i < order.len() ==> #[trigger] groups@[i]@ == old(self).scope(order[i]).drop_fns(),
                forall|i: int| 0 <= i < order.len() ==> old_nodes.contains_key(#[trigger] order[i])
                    && !self.nodes().contains_key(order[i]),
                forall|n: u64|
                    #![trigger old_nodes.contains_key(n), self.nodes().contains_key(n)]
                    old_nodes.contains_key(n) && !self.nodes().contains_key(n) ==> order.contains(n),
                self.dropped@ == old(self).dropped@,
                forall|n: u64| #[trigger] old_scopes.contains_key(n) ==> old_scopes[n]@.wf()
                    && old(self).scope(n) == old_scopes[n]@,
                old_scopes.dom() == old_nodes.dom(),
                forall|i: int| 0 <= i < stack@.len() ==> key_valid(#[trigger] stack@[i]),
                tree_wf(old_nodes),
                old_nodes.contains_key(key),
                old_nodes[key].parent == parent,
                base.dom() == old_nodes.dom(),
                forall|n: u64| #[trigger] base.contains_key(n) && Some(n) != parent ==> base[n] == old_nodes[n],
                parent is Some ==> base[parent->0].children@ == without(old_nodes[parent->0].children@, key),
                parent is Some ==> base[parent->0].parent == old_nodes[parent->0].parent,
                parent is Some ==> base[parent->0].child_idx == old_nodes[parent->0].child_idx,
                parent is Some ==> base[parent->0].data_id == old_nodes[parent->0].data_id,
                self.nodes().dom().subset_of(base.dom()),
                self.nodes().dom().finite(),
                forall|n: u64| #[trigger] self.nodes().contains_key(n) ==> self.nodes()[n] == base[n],
                self.scopes@.dom() == self.nodes().dom(),
                forall|n: u64| #[trigger] self.scopes@.contains_key(n) ==> self.scopes@[n] == old_scopes[n],
                !self.nodes().contains_key(key) || stack@.contains(key),
                // Every removed node is `key` or has a removed parent.
                forall|n: u64|
                    #![trigger old_nodes[n]]
                    old_nodes.contains_key(n) && !self.nodes().contains_key(n) && n != key ==> {
                        &&& old_nodes[n].parent is Some
                        &&& old_nodes.contains_key(old_nodes[n].parent->0)
                        &&& !self.nodes().contains_key(old_nodes[n].parent->0)
                    },
                // Every child of a removed node is removed or waits on the stack.
                forall|n: u64, i: int|
                    #![trigger old_nodes[n].children@[i], self.nodes().contains_key(n)]
                    old_nodes.contains_key(n) && !self.nodes().contains_key(n) && 0 <= i
                        < old_nodes[n].children@.len() ==> !self.nodes().contains_key(
                        old_nodes[n].children@[i],
                    ) || stack@.contains(old_nodes[n].children@[i]),
                // Every node on the stack is `key` or a child of a removed node.
                forall|i: int|
                    #![trigger stack@[i]]
                    0 <= i < stack@.len() && stack@[i] != key ==> {
                        &&& old_nodes.contains_key(stack@[i])
                        &&& old_nodes[stack@[i]].parent is Some
                        &&& !self.nodes().contains_key(old_nodes[stack@[i]].parent->0)
                        &&& old_nodes.contains_key(old_nodes[stack@[i]].parent->0)
                    },
                self.root == old(self).root,
                self.pending@ == old(self).pending@,
                self.updates@ == old(self).updates@,
                queued_keys(self.tasks) == queued_keys(old(self).tasks),
                self.is_initial == old(self).is_initial,
            ensures
                stack@.len() == 0,
            decreases self.nodes().dom().len(), stack@.len(),
        {
            let ghost prev = self.nodes();
            let ghost prev_stack = stack@;
            let x = match stack.pop() {
                Some(x) => x,
                None => break,
            };
            proof {
                assert(prev_stack =~= stack@.push(x));
                assert(key_valid(prev_stack[prev_stack.len() - 1]));
            }
            match slots_remove(&mut self.nodes, x) {
                Some(node) => {
                    let ghost order0 = order;
                    let ghost nodes0 = prev;
                    let ghost groups0 = groups@;
                    proof {
                        assert(nodes0.contains_key(x));
                        assert(self.scopes@.contains_key(x));
                        assert(old_scopes.contains_key(x));
                        if x != key {
                            assert(prev_stack[prev_stack.len() - 1] == x);
                            let p = old_nodes[x].parent->0;
                            assert(old_nodes.contains_key(p) && !nodes0.contains_key(p));
                            assert(order0.contains(p));
                        }
                        if order0.len() == 0 {
                            assert(nodes0 == base);
                            assert(x == key) by {
                                if x != key {
                                    let p = old_nodes[x].parent->0;
                                    assert(!nodes0.contains_key(p));
                                }
                            }
                        }
                    }
                    match self.scopes.remove(&x) {
                        Some(sd) => {
                            assert(sd == old_scopes[x]);
                            groups.push(sd.into_drop_fns());
                        },
                        None => {
                            assert(false);
                        },
                    }
                    proof {
                        order = order.push(x);
                        assert(order.drop_last() =~= order0);
                        assert(order.last() == x);
                        assert forall|i: int| 0 <= i < order.len() implies #[trigger] groups@[i]@ == old(self).scope(order[i]).drop_fns() by {
                            if i < order0.len() {
                                assert(groups@[i] == groups0[i]);
                                assert(order[i] == order0[i]);
                            }
                        }
                        assert forall|i: int|
                            #![trigger order[i]]
                            0 <= i < order.len() && order[i] != key implies exists|j: int|
                                0 <= j < i && #[trigger] order[j] == old_nodes[order[i]].parent->0 by {
                            if i < order0.len() {
                                assert(order[i] == order0[i]);
                                let j = choose|j: int| 0 <= j < i && #[trigger] order0[j] == old_nodes[order0[i]].parent->0;
                                assert(order[j] == order0[j]);
                            } else {
                                let p = old_nodes[x].parent->0;
                                let j = choose|j: int| 0 <= j < order0.len() && order0[j] == p;
                                assert(order[j] == order0[j]);
                            }
                        }
                        assert forall|a: int, b: int| 0 <= a < order.len() && 0 <= b < order.len() && a != b
                            implies order[a] != order[b] by {
                            if a == order0.len() {
                                assert(!self.nodes().contains_key(order0[b]));
                                assert(!nodes0.contains_key(order0[b]));
                            } else if b == order0.len() {
                                assert(!nodes0.contains_key(order0[a]));
                            } else {
                                assert(order[a] == order0[a] && order[b] == order0[b]);
                            }
                        }
                        assert forall|i: int| 0 <= i < order.len() implies old_nodes.contains_key(#[trigger] order[i])
                            && !self.nodes().contains_key(order[i]) by {
                            if i < order0.len() {
                                assert(order[i] == order0[i]);
                            }
                        }
                        assert forall|n: u64|
                            #![trigger old_nodes.contains_key(n), self.nodes().contains_key(n)]
                            old_nodes.contains_key(n) && !self.nodes().contains_key(n) implies order.contains(n) by {
                            if n == x {
                                assert(order[order0.len() as int] == x);
                            } else {
                                assert(!nodes0.contains_key(n));
                                assert(order0.contains(n));
                                let i = choose|i: int| 0 <= i < order0.len() && order0[i] == n;
                                assert(order[i] == n);
                            }
                        }
                    }
                    proof {
                        if parent is Some && x == parent->0 {
                            lemma_without(old_nodes[x].children@, key);
                        }
                        assert forall|j: int| 0 <= j < node.children@.len() implies
                            old_nodes.contains_key(#[trigger] node.children@[j])
                            && old_nodes[node.children@[j]].parent == Some(x)
                            && old_nodes[x].children@.contains(node.children@[j]) by {
                            if parent is Some && x == parent->0 {
                                assert(without(old_nodes[x].children@, key).contains(node.children@[j]));
                            } else {
                                assert(node == old_nodes[x]);
                            }
                            let c = node.children@[j];
                            assert(old_nodes[x].children@.contains(c));
                            let jj = choose|jj: int| 0 <= jj < old_nodes[x].children@.len()
                                && old_nodes[x].children@[jj] == c;
                            assert(old_nodes[x].children@[jj] == c);
                        }
                    }
                    let mut i: usize = 0;
                    let ghost mid_stack = stack@;
                    while i < node.children.len()
                        invariant
                            i <= node.children@.len(),
                            node == base[x],
                            base.contains_key(x),
                            tree_wf(old_nodes),
                            stack@.len() == mid_stack.len() + i,
                            forall|j: int| 0 <= j < mid_stack.len() ==> stack@[j] == mid_stack[j],
                            forall|j: int| 0 <= j < i ==> stack@[mid_stack.len() + j] == node.children@[j],
                            forall|j: int| 0 <= j < stack@.len() ==> key_valid(#[trigger] stack@[j]),
                            forall|j: int| 0 <= j < node.children@.len() ==> old_nodes.contains_key(
                                #[trigger] node.children@[j],
                            ) && old_nodes[node.children@[j]].parent == Some(x),
                            forall|j: int| 0 <= j < node.children@.len() ==> key_valid(
                                #[trigger] node.children@[j],
                            ),
                        decreases node.children@.len() - i,
                    {
                        stack.push(node.children[i]);
                        i = i + 1;
                    }
                    proof {
                        assert(self.nodes().dom().len() < prev.dom().len()) by {
                            assert(prev.dom().contains(x));
                            assert(self.nodes().dom() =~= prev.dom().remove(x));
                        }
                        assert(self.scopes@.dom() =~= self.nodes().dom());
                        // Children of `x` are on the stack now.
                        assert forall|j: int| 0 <= j < old_nodes[x].children@.len()
                            implies stack@.contains(#[trigger] old_nodes[x].children@[j])
                            || !self.nodes().contains_key(old_nodes[x].children@[j]) by {
                            let c = old_nodes[x].children@[j];
                            if parent is Some && x == parent->0 {
                                lemma_without(old_nodes[x].children@, key);
                                if c != key {
                                    assert(without(old_nodes[x].children@, key).contains(c));
                                    let jj = choose|jj: int| 0 <= jj < node.children@.len()
                                        && node.children@[jj] == c;
                                    assert(stack@[mid_stack.len() + jj] == c);
                                } else {
                                    // `key` is removed or still on the stack.
                                    if self.nodes().contains_key(key) {
                                        assert(prev_stack.contains(key));
                                        let q = choose|q: int| 0 <= q < prev_stack.len() && prev_stack[q] == key;
                                        if q < mid_stack.len() {
                                            assert(stack@[q] == key);
                                        }
                                    }
                                }
                            } else {
                                assert(node == old_nodes[x]);
                                assert(stack@[mid_stack.len() + j] == c);
                            }
                        }
                        assert forall|n: u64, i: int|
                            #![trigger old_nodes[n].children@[i], self.nodes().contains_key(n)]
                            old_nodes.contains_key(n) && !self.nodes().contains_key(n) && 0 <= i
                                < old_nodes[n].children@.len() implies !self.nodes().contains_key(
                                old_nodes[n].children@[i],
                            ) || stack@.contains(old_nodes[n].children@[i]) by {
                            let c = old_nodes[n].children@[i];
                            if n != x && self.nodes().contains_key(c) {
                                assert(prev.contains_key(c));
                                assert(!prev.contains_key(n));
                                assert(prev_stack.contains(c));
                                let q = choose|q: int| 0 <= q < prev_stack.len() && prev_stack[q] == c;
                                if q < mid_stack.len() {
                                    assert(stack@[q] == c);
                                } else {
                                    assert(c == x);
                                }
                            }
                        }
                        assert forall|q: int|
                            #![trigger stack@[q]]
                            0 <= q < stack@.len() && stack@[q] != key implies {
                                &&& old_nodes.contains_key(stack@[q])
                                &&& old_nodes[stack@[q]].parent is Some
                                &&& !self.nodes().contains_key(old_nodes[stack@[q]].parent->0)
                                &&& old_nodes.contains_key(old_nodes[stack@[q]].parent->0)
                            } by {
                            if q < mid_stack.len() {
                                assert(stack@[q] == prev_stack[q]);
                            } else {
                                let j = q - mid_stack.len();
                                assert(stack@[q] == node.children@[j]);
                            }
                        }
                        if self.nodes().contains_key(key) {
                            assert(prev_stack.contains(key));
                            let q = choose|q: int| 0 <= q < prev_stack.len() && prev_stack[q] == key;
                            if q < mid_stack.len() {
                                assert(stack@[q] == key);
                            }
                        }
                    }
                },
                None => {},
            }
        }
        proof {
            let m = self.nodes();
            assert(self.scopes@.dom() =~= m.dom());
            assert forall|n: u64| #[trigger] order.to_set().contains(n) == old_nodes.dom().difference(m.dom()).contains(n) by {
                if order.contains(n) {
                    let i = choose|i: int| 0 <= i < order.len() && order[i] == n;
                    assert(old_nodes.contains_key(order[i]) && !m.contains_key(order[i]));
                }
                if old_nodes.contains_key(n) && !m.contains_key(n) {
                    assert(order.contains(n));
                }
            }
            assert(order.to_set() =~= old_nodes.dom().difference(m.dom()));
            if let Some(p) = parent {
                lemma_without(old_nodes[p].children@, key);
            }
            assert forall|k: u64, i: int|
                #![trigger m[k].children@[i]]
                m.contains_key(k) && 0 <= i < m[k].children@.len() implies {
                    let c = m[k].children@[i];
                    m.contains_key(c) && m[c].parent == Some(k)
                } by {
                let c = m[k].children@[i];
                assert(m[k] == base[k]);
                if parent is Some && k == parent->0 {
                    assert(without(old_nodes[k].children@, key).contains(c));
                } else {
                    assert(base[k] == old_nodes[k]);
                    assert(old_nodes[k].children@[i] == c);
                }
                assert(old_nodes[k].children@.contains(c));
                let j = choose|j: int| 0 <= j < old_nodes[k].children@.len() && old_nodes[k].children@[j] == c;
                assert(old_nodes[k].children@[j] == c);
                assert(old_nodes.contains_key(c) && old_nodes[c].parent == Some(k));
                if !m.contains_key(c) {
                    if c == key {
                        assert(parent == Some(k));
                    } else {
                        assert(!m.contains_key(old_nodes[c].parent->0));
                    }
                }
                assert(m[c] == base[c]);
            }
            assert forall|k: u64| #![trigger m[k].parent] m.contains_key(k) && m[k].parent is Some implies {
                let q = m[k].parent->0;
                m.contains_key(q) && m[q].children@.contains(k)
            } by {
                assert(m[k] == base[k]);
                assert(m[k].parent == old_nodes[k].parent);
                let q = old_nodes[k].parent->0;
                assert(old_nodes[q].children@.contains(k));
                let j = choose|j: int| 0 <= j < old_nodes[q].children@.len() && old_nodes[q].children@[j] == k;
                assert(old_nodes[q].children@[j] == k);
                if !m.contains_key(q) {
                    assert(!m.contains_key(old_nodes[q].children@[j]) || stack@.contains(old_nodes[q].children@[j]));
                }
                assert(m[q] == base[q]);
                if parent is Some && q == parent->0 {
                    assert(k != key);
                    assert(without(old_nodes[q].children@, key).contains(k));
                }
            }
            assert forall|k: u64| #[trigger] m.contains_key(k) implies m[k].children@.no_duplicates() by {
                assert(m[k] == base[k]);
            }
            assert forall|k: u64| #[trigger] self.scopes@.contains_key(k) implies self.scopes@[k]@.key == k
                && self.scopes@[k]@.wf() by {
                assert(old_scopes.contains_key(k));
            }
            assert forall|n: u64, i: int|
                #![trigger old_nodes[n].children@[i], m.contains_key(n)]
                old_nodes.contains_key(n) && !m.contains_key(n) && 0 <= i < old_nodes[n].children@.len()
                implies !m.contains_key(old_nodes[n].children@[i]) by {
            }
        }
        // Hand out the drop functions children first: the reverse of the
        // removal order, in which every node comes after its parent.
        let ghost gs = groups@.map_values(|g: Vec<V>| g@);
        append_reversed(&mut self.dropped, groups);
        proof {
            let rorder = order.reverse();
            let n = order.len();
            old(self).lemma_dropped_fns_reverse(order, gs);
            assert(order.len() > 0) by {
                assert(old_nodes.dom().difference(self.nodes().dom()).contains(key));
                assert(order.to_set().contains(key));
            }
            assert forall|i: int| 0 <= i < n implies #[trigger] rorder[i] == order[n - 1 - i] by {}
            assert(rorder.no_duplicates()) by {
                assert forall|a: int, b: int| 0 <= a < n && 0 <= b < n && a != b implies rorder[a] != rorder[b] by {
                    assert(rorder[a] == order[n - 1 - a] && rorder[b] == order[n - 1 - b]);
                }
            }
            assert(rorder.to_set() =~= order.to_set()) by {
                assert forall|x: u64| rorder.to_set().contains(x) implies order.to_set().contains(x) by {
                    let i = choose|i: int| 0 <= i < n && rorder[i] == x;
                    assert(order[n - 1 - i] == x);
                }
                assert forall|x: u64| order.to_set().contains(x) implies rorder.to_set().contains(x) by {
                    let i = choose|i: int| 0 <= i < n && order[i] == x;
                    assert(rorder[n - 1 - i] == x);
                }
            }
            assert(rorder.last() == key) by {
                assert(rorder[n - 1] == order[0]);
            }
            assert forall|i: int|
                #![trigger rorder[i]]
                0 <= i < n && rorder[i] != key implies exists|j: int|
                    i < j < n && #[trigger] rorder[j] == old_nodes[rorder[i]].parent->0 by {
                let oi = n - 1 - i;
                assert(order[oi] == rorder[i]);
                let oj = choose|oj: int| 0 <= oj < oi && #[trigger] order[oj] == old_nodes[order[oi]].parent->0;
                assert(rorder[n - 1 - oj] == order[oj]);
            }
            assert(self.dropped() == old(self).dropped() + old(self).dropped_fns(rorder));
        }
    }

    /// The drop functions of the scopes of `a + b` are those of `a`, then
    /// those of `b`.
    proof fn lemma_dropped_fns_add(self, a: Seq<u64>, b: Seq<u64>)
        ensures
            self.dropped_fns(a + b) == self.dropped_fns(a) + self.dropped_fns(b),
        decreases b.len(),
    {
        if b.len() == 0 {
            assert(a + b =~= a);
            assert(self.dropped_fns(a) + self.dropped_fns(b) =~= self.dropped_fns(a));
        } else {
            self.lemma_dropped_fns_add(a, b.drop_last());
            assert((a + b).drop_last() =~= a + b.drop_last());
            assert((a + b).last() == b.last());
            let fa = self.dropped_fns(a);
            let fb = self.dropped_fns(b.drop_last());
            let fl = self.scope(b.last()).drop_fns();
            assert((fa + fb) + fl =~= fa + (fb + fl));
        }
    }

    /// Groups of drop functions taken from the scopes of `order`, one per
    /// scope, flatten last group first into the drop functions of `order`
    /// reversed.
    proof fn lemma_dropped_fns_reverse(self, order: Seq<u64>, gs: Seq<Seq<V>>)
        requires
            gs.len() == order.len(),
            forall|i: int| 0 <= i < order.len() ==> #[trigger] gs[i] == self.scope(order[i]).drop_fns(),
        ensures
            flatten_rev(gs) == self.dropped_fns(order.reverse()),
        decreases order.len(),
    {
        if order.len() == 0 {
            assert(order.reverse() =~= Seq::<u64>::empty());
        } else {
            let o2 = order.drop_last();
            let g2 = gs.drop_last();
            assert forall|i: int| 0 <= i < o2.len() implies #[trigger] g2[i] == self.scope(o2[i]).drop_fns() by {
                assert(g2[i] == gs[i] && o2[i] == order[i]);
            }
            self.lemma_dropped_fns_reverse(o2, g2);
            let x = order.last();
            assert(order.reverse() =~= seq![x] + o2.reverse());
            self.lemma_dropped_fns_add(seq![x], o2.reverse());
            assert(seq![x].drop_last() =~= Seq::<u64>::empty());
            assert(seq![x].last() == x);
            assert(self.dropped_fns(Seq::<u64>::empty()) =~= Seq::<V>::empty());
            assert(Seq::<V>::empty() + self.scope(x).drop_fns() =~= self.scope(x).drop_fns());
            assert(self.dropped_fns(seq![x]) =~= self.scope(x).drop_fns());
            assert(gs.last() == self.scope(x).drop_fns());
        }
    }

    /// Everything but the scope of `key` is the same in `self` and `other`.
    pub open spec fn only_scope_changed(self, other: Self, key: u64) -> bool {
        &&& other.nodes() == self.nodes()
        &&& forall|n: u64| n != key ==> #[trigger] other.scope(n) == self.scope(n)
        &&& forall|n: u64| #[trigger] other.has_scope(n) == self.has_scope(n)
        &&& other.root() == self.root()
        &&& other.pending() == self.pending()
        &&& other.updates() == self.updates()
        &&& other.tasks() == self.tasks()
        &&& other.dropped() == self.dropped()
        &&& other.is_initial() == self.is_initial()
    }

    /// The scopes and the queue of nodes to compose.
    pub open spec fn update_state(self) -> UpdateState<V> {
        UpdateState {
            scopes: Map::new(|k: u64| self.has_scope(k), |k: u64| self.scope(k)),
            pending: self.pending(),
        }
    }

    proof fn lemma_wf_scope(&self, key: u64)
        requires
            self.wf(),
            self.nodes().contains_key(key),
        ensures
            self.has_scope(key),
            self.scope(key).key == key,
            self.scope(key).wf(),
            key_valid(key),
    {
    }

    fn take_scope(&mut self, key: u64) -> (s: ScopeData<V>)
        requires
            old(self).scopes@.contains_key(key),
        ensures
            s@ == old(self).scope(key),
            final(self).scopes@ == old(self).scopes@.remove(key),
            final(self).nodes == old(self).nodes,
            final(self).pending == old(self).pending,
            final(self).updates == old(self).updates,
            final(self).tasks == old(self).tasks,
            final(self).dropped == old(self).dropped,
            final(self).is_initial == old(self).is_initial,
            final(self).root == old(self).root,
    {
        match self.scopes.remove(&key) {
            Some(s) => s,
            None => {
                assert(false);
                ScopeData::new(key, HashMap::new())
            },
        }
    }

    fn put_scope(&mut self, key: u64, s: ScopeData<V>)
        ensures
            final(self).scopes@ == old(self).scopes@.insert(key, s),
            final(self).nodes == old(self).nodes,
            final(self).pending == old(self).pending,
            final(self).updates == old(self).updates,
            final(self).tasks == old(self).tasks,
            final(self).dropped == old(self).dropped,
            final(self).is_initial == old(self).is_initial,
            final(self).root == old(self).root,
    {
        self.scopes.insert(key, s);
    }

    /// Start a composition of the node `key`: its hook calls start again from
    /// the first slot and its generation is incremented.
    pub fn begin_compose(&mut self, key: u64)
        requires
            old(self).wf(),
            old(self).nodes().contains_key(key),
            old(self).scope(key).generation < u64::MAX,
        ensures
            final(self).wf(),
            old(self).only_scope_changed(*final(self), key),
            final(self).scope(key) == old(self).scope(key).begin_compose(),
    {
        proof { self.lemma_wf_scope(key); }
        let mut s = self.take_scope(key);
        s.begin_compose();
        self.put_scope(key, s);
        proof {
            assert(self.scopes@.dom() =~= old(self).scopes@.dom());
        }
    }

    /// Use a value stored in the next hook slot of `key`.
    ///
    /// `make_value` is only called when the slot does not exist yet.
    pub fn use_ref<G: FnOnce() -> V>(&mut self, key: u64, make_value: G) -> (slot: usize)
        requires
            old(self).wf(),
            old(self).nodes().contains_key(key),
            old(self).scope(key).hook_idx < usize::MAX,
            old(self).scope(key).creates_slot() ==> make_value.requires(()),
        ensures
            final(self).wf(),
            old(self).only_scope_changed(*final(self), key),
            slot == old(self).scope(key).hook_idx,
            slot < final(self).scope(key).hooks.len(),
            old(self).scope(key).creates_slot() ==> exists|v: V|
                make_value.ensures((), v) && final(self).scope(key) == old(self).scope(key).use_ref(v),
            !old(self).scope(key).creates_slot() ==> final(self).scope(key) == old(self).scope(key).use_ref(
                old(self).scope(key).hooks[slot as int].value,
            ),
    {
        proof { self.lemma_wf_scope(key); }
        let mut s = self.take_scope(key);
        let slot = s.use_ref(make_value);
        self.put_scope(key, s);
        proof {
            assert(self.scopes@.dom() =~= old(self).scopes@.dom());
        }
        slot
    }

    /// Use a callback stored in the next hook slot of `key`: each composition
    /// stores its `f` there, so the slot holds the latest callback.
    pub fn use_callback(&mut self, key: u64, f: V) -> (slot: usize)
        requires
            old(self).wf(),
            old(self).nodes().contains_key(key),
            old(self).scope(key).hook_idx < usize::MAX,
        ensures
            final(self).wf(),
            old(self).only_scope_changed(*final(self), key),
            slot == old(self).scope(key).hook_idx,
            slot < final(self).scope(key).hooks.len(),
            final(self).scope(key) == old(self).scope(key).use_callback(f),
    {
        proof { self.lemma_wf_scope(key); }
        let mut s = self.take_scope(key);
        let slot = s.use_callback(f);
        self.put_scope(key, s);
        proof {
            assert(self.scopes@.dom() =~= old(self).scopes@.dom());
        }
        slot
    }

    /// Use a function to run when the node `key` is dropped, stored in the
    /// next hook slot of `key`: each composition stores its `f` there, so
    /// the latest one runs. Dropping the node hands it out through
    /// [`Composer::take_dropped`].
    pub fn use_drop(&mut self, key: u64, f: V) -> (slot: usize)
        requires
            old(self).wf(),
            old(self).nodes().contains_key(key),
            old(self).scope(key).hook_idx < usize::MAX,
        ensures
            final(self).wf(),
            old(self).only_scope_changed(*final(self), key),
            slot == old(self).scope(key).hook_idx,
            slot < final(self).scope(key).hooks.len(),
            final(self).scope(key) == old(self).scope(key).use_drop(f),
    {
        proof { self.lemma_wf_scope(key); }
        let mut s = self.take_scope(key);
        let slot = s.use_drop(f);
        self.put_scope(key, s);
        proof {
            assert(self.scopes@.dom() =~= old(self).scopes@.dom());
        }
        slot
    }

    /// Move to the next hook slot of `key`, which already exists.
    pub fn reuse_ref(&mut self, key: u64) -> (slot: usize)
        requires
            old(self).wf(),
            old(self).nodes().contains_key(key),
            !old(self).scope(key).creates_slot(),
        ensures
            final(self).wf(),
            old(self).only_scope_changed(*final(self), key),
            slot == old(self).scope(key).hook_idx,
            slot < final(self).scope(key).hooks.len(),
            final(self).scope(key) == old(self).scope(key).use_ref(old(self).scope(key).hooks[slot as int].value),
    {
        proof { self.lemma_wf_scope(key); }
        let mut s = self.take_scope(key);
        let slot = s.reuse_ref();
        self.put_scope(key, s);
        proof {
            assert(self.scopes@.dom() =~= old(self).scopes@.dom());
        }
        slot
    }

    /// Provide a context value of type `type_key` for the descendants of `key`,
    /// stored in the next hook slot of `key`.
    pub fn use_provider<G: FnOnce() -> V>(&mut self, key: u64, type_key: u64, make_value: G) -> (slot: usize)
        requires
            old(self).wf(),
            old(self).nodes().contains_key(key),
            old(self).scope(key).hook_idx < usize::MAX,
            old(self).scope(key).creates_slot() ==> make_value.requires(()),
        ensures
            final(self).wf(),
            old(self).only_scope_changed(*final(self), key),
            slot == old(self).scope(key).hook_idx,
            slot < final(self).scope(key).hooks.len(),
            old(self).scope(key).creates_slot() ==> exists|v: V|
                make_value.ensures((), v) && final(self).scope(key) == old(self).scope(key).use_provider(type_key, v),
            !old(self).scope(key).creates_slot() ==> final(self).scope(key) == old(self).scope(key).use_provider(
                type_key,
                old(self).scope(key).hooks[slot as int].value,
            ),
    {
        proof { self.lemma_wf_scope(key); }
        let mut s = self.take_scope(key);
        let slot = s.use_provider(type_key, make_value);
        self.put_scope(key, s);
        proof {
            assert(self.scopes@.dom() =~= old(self).scopes@.dom());
        }
        slot
    }

    /// Use the context value of type `type_key` that an ancestor of `key`
    /// provided: looked up on the first composition and kept at this call's
    /// position for later compositions.
    pub fn use_context(&mut self, key: u64, type_key: u64) -> (r: Result<crate::scope::ContextRef, crate::scope::ContextError>)
        requires
            old(self).wf(),
            old(self).nodes().contains_key(key),
            old(self).scope(key).context_idx < usize::MAX,
        ensures
            final(self).wf(),
            old(self).only_scope_changed(*final(self), key),
            (final(self).scope(key), r) == old(self).scope(key).use_context(type_key),
    {
        proof { self.lemma_wf_scope(key); }
        let mut s = self.take_scope(key);
        let r = s.use_context(type_key);
        self.put_scope(key, s);
        proof {
            assert(self.scopes@.dom() =~= old(self).scopes@.dom());
        }
        r
    }

    /// The value a context reference points to, if its scope and slot still exist.
    pub fn context_value(&self, c: crate::scope::ContextRef) -> (r: Option<&V>)
        requires
            self.wf(),
        ensures
            match r {
                Some(v) => self.has_scope(c.scope) && c.slot < self.scope(c.scope).hooks.len()
                    && *v == self.scope(c.scope).hooks[c.slot as int].value,
                None => !(self.has_scope(c.scope) && c.slot < self.scope(c.scope).hooks.len()),
            },
    {
        match self.scopes.get(&c.scope) {
            Some(s) => {
                if c.slot < s.hook_count() {
                    Some(s.hook(c.slot))
                } else {
                    None
                }
            },
            None => None,
        }
    }

    /// The value stored in a hook slot of `key`.
    pub fn hook(&self, key: u64, slot: usize) -> (v: &V)
        requires
            self.wf(),
            self.nodes().contains_key(key),
            slot < self.scope(key).hooks.len(),
        ensures
            *v == self.scope(key).hooks[slot as int].value,
    {
        proof { self.lemma_wf_scope(key); }
        match self.scopes.get(&key) {
            Some(s) => s.hook(slot),
            None => vstd::pervasive::unreached(),
        }
    }

    /// Number of hook slots of `key`.
    pub fn hook_count(&self, key: u64) -> (n: usize)
        requires
            self.wf(),
            self.nodes().contains_key(key),
        ensures
            n == self.scope(key).hooks.len(),
    {
        proof { self.lemma_wf_scope(key); }
        match self.scopes.get(&key) {
            Some(s) => s.hook_count(),
            None => 0,
        }
    }

    /// Index of the next hook call of `key`.
    pub fn hook_idx(&self, key: u64) -> (i: usize)
        requires
            self.wf(),
            self.nodes().contains_key(key),
        ensures
            i == self.scope(key).hook_idx,
    {
        proof { self.lemma_wf_scope(key); }
        match self.scopes.get(&key) {
            Some(s) => s.hook_idx(),
            None => 0,
        }
    }

    /// Generation of the scope of `key`.
    pub fn generation(&self, key: u64) -> (g: u64)
        requires
            self.wf(),
            self.nodes().contains_key(key),
        ensures
            g == self.scope(key).generation,
    {
        proof { self.lemma_wf_scope(key); }
        match self.scopes.get(&key) {
            Some(s) => s.generation(),
            None => 0,
        }
    }

    /// Immutable reference to a hook slot of `key`, tagged with the slot's generation.
    pub fn signal(&self, key: u64, slot: usize) -> (s: crate::pointer::Signal<'_, V>)
        requires
            self.wf(),
            self.nodes().contains_key(key),
            slot < self.scope(key).hooks.len(),
        ensures
            *s.value == self.scope(key).hooks[slot as int].value,
            s.generation == self.scope(key).hooks[slot as int].generation,
    {
        proof { self.lemma_wf_scope(key); }
        match self.scopes.get(&key) {
            Some(sc) => sc.signal(slot),
            None => vstd::pervasive::unreached(),
        }
    }

    /// Mutable reference to a hook slot of `key`.
    pub fn signal_mut(&self, key: u64, slot: usize) -> (m: crate::pointer::SignalMut)
        requires
            self.wf(),
            self.nodes().contains_key(key),
            slot < self.scope(key).hooks.len(),
        ensures
            m.scope_key == key,
            m.slot == slot,
            m.generation == self.scope(key).hooks[slot as int].generation,
    {
        proof { self.lemma_wf_scope(key); }
        let g = match self.scopes.get(&key) {
            Some(sc) => sc.signal(slot).generation,
            None => 0,
        };
        crate::pointer::SignalMut::new(key, slot, g)
    }

    /// The node `key`, if it exists.
    pub fn node(&self, key: u64) -> (r: Option<&Node>)
        requires
            self.wf(),
            key_valid(key),
        ensures
            match r {
                Some(n) => self.nodes().contains_key(key) && *n == self.nodes()[key],
                None => !self.nodes().contains_key(key),
            },
    {
        slots_get(&self.nodes, key)
    }

    /// Whether the node `key` exists.
    pub fn contains(&self, key: u64) -> (b: bool)
        requires
            self.wf(),
            key_valid(key),
        ensures
            b == self.nodes().contains_key(key),
    {
        slots_get(&self.nodes, key).is_some()
    }

    /// Number of nodes in the tree.
    pub fn len(&self) -> (n: usize)
        requires
            self.wf(),
        ensures
            n == self.nodes().dom().len(),
    {
        self.scopes.len()
    }

    /// Queue the node `key` to be composed, unless it is queued already.
    pub fn queue(&mut self, key: u64)
        requires
            old(self).wf(),
        ensures
            final(self).wf(),
            final(self).pending() == queued(old(self).pending(), key),
            final(self).nodes() == old(self).nodes(),
            forall|n: u64| #[trigger] final(self).scope(n) == old(self).scope(n),
            forall|n: u64| #[trigger] final(self).has_scope(n) == old(self).has_scope(n),
            final(self).root() == old(self).root(),
            final(self).updates() == old(self).updates(),
            final(self).tasks() == old(self).tasks(),
            final(self).is_initial() == old(self).is_initial(),
            final(self).dropped() == old(self).dropped(),
    {
        let mut i: usize = 0;
        let mut found = false;
        while i < self.pending.len()
            invariant
                i <= self.pending@.len(),
                found == exists|j: int| 0 <= j < i && #[trigger] self.pending@[j] == key,
            decreases self.pending@.len() - i,
        {
            if self.pending[i] == key {
                found = true;
            }
            i = i + 1;
        }
        if !found {
            self.pending.push(key);
        }
    }

    /// Set the scope of `key` as changed and queue it to be composed.
    pub fn set_changed(&mut self, key: u64)
        requires
            old(self).wf(),
            old(self).nodes().contains_key(key),
        ensures
            final(self).wf(),
            final(self).scope(key) == (ScopeView { is_changed: true, ..old(self).scope(key) }),
            forall|n: u64| n != key ==> #[trigger] final(self).scope(n) == old(self).scope(n),
            forall|n: u64| #[trigger] final(self).has_scope(n) == old(self).has_scope(n),
            final(self).pending() == queued(old(self).pending(), key),
            final(self).nodes() == old(self).nodes(),
            final(self).root() == old(self).root(),
            final(self).updates() == old(self).updates(),
            final(self).tasks() == old(self).tasks(),
            final(self).is_initial() == old(self).is_initial(),
            final(self).dropped() == old(self).dropped(),
    {
        proof { self.lemma_wf_scope(key); }
        let mut s = self.take_scope(key);
        s.set_changed();
        self.put_scope(key, s);
        proof {
            assert(self.scopes@.dom() =~= old(self).scopes@.dom());
        }
        self.queue(key);
    }

    /// Returns `true` if the scope of `key` was set as changed, and clears the flag.
    pub fn take_changed(&mut self, key: u64) -> (was: bool)
        requires
            old(self).wf(),
            old(self).nodes().contains_key(key),
        ensures
            final(self).wf(),
            old(self).only_scope_changed(*final(self), key),
            was == old(self).scope(key).is_changed,
            final(self).scope(key) == (ScopeView { is_changed: false, ..old(self).scope(key) }),
    {
        proof { self.lemma_wf_scope(key); }
        let mut s = self.take_scope(key);
        let was = s.take_changed();
        self.put_scope(key, s);
        proof {
            assert(self.scopes@.dom() =~= old(self).scopes@.dom());
        }
        was
    }

    /// Remove and return the first node queued to be composed.
    pub fn pop_pending(&mut self) -> (r: Option<u64>)
        requires
            old(self).wf(),
        ensures
            final(self).wf(),
            match r {
                Some(k) => old(self).pending().len() > 0 && k == old(self).pending()[0]
                    && final(self).pending() == old(self).pending().drop_first(),
                None => old(self).pending().len() == 0 && final(self).pending() == old(self).pending(),
            },
            final(self).nodes() == old(self).nodes(),
            forall|n: u64| #[trigger] final(self).scope(n) == old(self).scope(n),
            forall|n: u64| #[trigger] final(self).has_scope(n) == old(self).has_scope(n),
            final(self).root() == old(self).root(),
            final(self).updates() == old(self).updates(),
            final(self).tasks() == old(self).tasks(),
            final(self).is_initial() == old(self).is_initial(),
            final(self).dropped() == old(self).dropped(),
    {
        if self.pending.len() == 0 {
            None
        } else {
            let k = self.pending.remove(0);
            Some(k)
        }
    }

    /// Queue an update of the slot that `m` refers to.
    ///
    /// `recompose` queues the owning scope to be composed after the write
    /// (as `SignalMut::update` and `SignalMut::set` do; `SignalMut::with` does not).
    pub fn queue_update(&mut self, m: crate::pointer::SignalMut, op: UpdateOp<V, F>, recompose: bool)
        requires
            old(self).wf(),
        ensures
            final(self).wf(),
            final(self).updates() == old(self).updates().push(
                PendingUpdate { scope: m.scope_key, slot: m.slot, op, recompose },
            ),
            final(self).nodes() == old(self).nodes(),
            forall|n: u64| #[trigger] final(self).scope(n) == old(self).scope(n),
            forall|n: u64| #[trigger] final(self).has_scope(n) == old(self).has_scope(n),
            final(self).root() == old(self).root(),
            final(self).pending() == old(self).pending(),
            final(self).tasks() == old(self).tasks(),
            final(self).is_initial() == old(self).is_initial(),
            final(self).dropped() == old(self).dropped(),
    {
        self.updates.push(PendingUpdate { scope: m.scope_key, slot: m.slot, op, recompose });
    }

    /// Hand out the drop functions of the scopes dropped so far, in drop
    /// order, for the host to run.
    pub fn take_dropped(&mut self) -> (fns: Vec<V>)
        requires
            old(self).wf(),
        ensures
            final(self).wf(),
            fns@ == old(self).dropped(),
            final(self).dropped().len() == 0,
            final(self).nodes() == old(self).nodes(),
            forall|n: u64| #[trigger] final(self).scope(n) == old(self).scope(n),
            forall|n: u64| #[trigger] final(self).has_scope(n) == old(self).has_scope(n),
            final(self).root() == old(self).root(),
            final(self).pending() == old(self).pending(),
            final(self).updates() == old(self).updates(),
            final(self).tasks() == old(self).tasks(),
            final(self).is_initial() == old(self).is_initial(),
    {
        let mut fns: Vec<V> = Vec::new();
        std::mem::swap(&mut fns, &mut self.dropped);
        fns
    }

    /// End the composer: hand out the drop functions of the scopes dropped so
    /// far, followed by those of every scope still in the tree, scope by
    /// scope, for the host to run.
    pub fn into_drop_fns(self) -> (fns: Vec<V>)
        requires
            self.wf(),
        ensures
            exists|order: Seq<u64>| {
                &&& order.no_duplicates()
                &&& order.to_set() == self.nodes().dom()
                &&& #[trigger] fns@ == self.dropped() + self.dropped_fns(order)
            },
    {
        let ghost old_self = self;
        let Composer { scopes, dropped, .. } = self;
        let keys = scope_keys(&scopes);
        let mut scopes = scopes;
        let mut fns = dropped;
        let mut i: usize = 0;
        while i < keys.len()
            invariant
                i <= keys@.len(),
                keys@.no_duplicates(),
                keys@.to_set() == old_self.scopes@.dom(),
                scopes@ == old_self.scopes@.remove_keys(keys@.take(i as int).to_set()),
                forall|k: u64| #[trigger] old_self.scopes@.contains_key(k) ==> old_self.scopes@[k]@.wf(),
                fns@ == old_self.dropped() + old_self.dropped_fns(keys@.take(i as int)),
            decreases keys@.len() - i,
        {
            let k = keys[i];
            proof {
                assert(keys@.to_set().contains(k));
                assert(!keys@.take(i as int).contains(k)) by {
                    if keys@.take(i as int).contains(k) {
                        let j = choose|j: int| 0 <= j < i && keys@.take(i as int)[j] == k;
                        assert(keys@[j] == keys@[i as int]);
                    }
                }
                assert(scopes@.contains_key(k));
            }
            let ghost before = fns@;
            match scopes.remove(&k) {
                Some(sd) => {
                    let mut more = sd.into_drop_fns();
                    fns.append(&mut more);
                },
                None => {
                    assert(false);
                },
            }
            proof {
                let t = keys@.take(i + 1);
                assert(t.drop_last() =~= keys@.take(i as int));
                assert(t.last() == k);
                assert(old_self.dropped_fns(t) == old_self.dropped_fns(keys@.take(i as int)) + old_self.scope(k).drop_fns());
                assert(keys@.take(i + 1).to_set() =~= keys@.take(i as int).to_set().insert(k));
                assert(scopes@ =~= old_self.scopes@.remove_keys(t.to_set()));
            }
            i = i + 1;
        }
        proof {
            assert(keys@.take(i as int) =~= keys@);
            assert(keys@.to_set() == old_self.nodes().dom());
        }
        fns
    }

    /// Take every task queued to be polled, in queue order.
    pub fn take_tasks(&mut self) -> (keys: Vec<u64>)
        requires
            old(self).wf(),
        ensures
            final(self).wf(),
            keys@ == old(self).tasks(),
            final(self).tasks().len() == 0,
            final(self).nodes() == old(self).nodes(),
            forall|n: u64| #[trigger] final(self).scope(n) == old(self).scope(n),
            forall|n: u64| #[trigger] final(self).has_scope(n) == old(self).has_scope(n),
            final(self).root() == old(self).root(),
            final(self).pending() == old(self).pending(),
            final(self).updates() == old(self).updates(),
            final(self).dropped() == old(self).dropped(),
            final(self).is_initial() == old(self).is_initial(),
    {
        let mut keys: Vec<u64> = Vec::new();
        loop
            invariant
                self.wf(),
                old(self).tasks() == keys@ + self.tasks(),
                self.nodes() == old(self).nodes(),
                forall|n: u64| #[trigger] self.scope(n) == old(self).scope(n),
                forall|n: u64| #[trigger] self.has_scope(n) == old(self).has_scope(n),
                self.root() == old(self).root(),
                self.pending() == old(self).pending(),
                self.updates() == old(self).updates(),
                self.dropped() == old(self).dropped(),
                self.is_initial() == old(self).is_initial(),
            decreases self.tasks().len(),
        {
            let ghost before = self.tasks();
            match self.pop_task() {
                Some(k) => {
                    keys.push(k);
                    assert(before == seq![k] + self.tasks());
                    assert(old(self).tasks() == keys@ + self.tasks());
                },
                None => {
                    assert(keys@ + self.tasks() =~= keys@);
                    return keys;
                },
            }
        }
    }

    /// Queue a write of `value` to the slot `m` refers to, composing its
    /// scope again, unless the slot already holds an equal value.
    pub fn set_if_neq(&mut self, m: crate::pointer::SignalMut, value: V)
        where V: PartialEq,
        requires
            old(self).wf(),
            old(self).nodes().contains_key(m.scope_key),
            m.slot < old(self).scope(m.scope_key).hooks.len(),
        ensures
            final(self).wf(),
            final(self).nodes() == old(self).nodes(),
            forall|n: u64| #[trigger] final(self).scope(n) == old(self).scope(n),
            forall|n: u64| #[trigger] final(self).has_scope(n) == old(self).has_scope(n),
            final(self).root() == old(self).root(),
            final(self).pending() == old(self).pending(),
            final(self).tasks() == old(self).tasks(),
            final(self).dropped() == old(self).dropped(),
            final(self).is_initial() == old(self).is_initial(),
            final(self).updates() == old(self).updates() || final(self).updates() == old(self).updates().push(
                PendingUpdate { scope: m.scope_key, slot: m.slot, op: UpdateOp::Assign(value), recompose: true },
            ),
            V::obeys_eq_spec() ==> (final(self).updates() == old(self).updates() <==> value.eq_spec(
                &old(self).scope(m.scope_key).hooks[m.slot as int].value,
            )),
    {
        let differs = !(value == *self.hook(m.scope_key, m.slot));
        if differs {
            self.queue_update(m, UpdateOp::Assign(value), true);
            assert(self.updates().len() == old(self).updates().len() + 1);
        }
    }

    /// Queue the task `key` to be polled.
    pub fn push_task(&mut self, key: u64)
        requires
            old(self).wf(),
        ensures
            final(self).wf(),
            final(self).tasks() == old(self).tasks().push(key),
            final(self).nodes() == old(self).nodes(),
            forall|n: u64| #[trigger] final(self).scope(n) == old(self).scope(n),
            forall|n: u64| #[trigger] final(self).has_scope(n) == old(self).has_scope(n),
            final(self).root() == old(self).root(),
            final(self).pending() == old(self).pending(),
            final(self).updates() == old(self).updates(),
            final(self).is_initial() == old(self).is_initial(),
            final(self).dropped() == old(self).dropped(),
    {
        queue_push(&mut self.tasks, key);
    }

    /// Remove and return the first task queued to be polled.
    pub fn pop_task(&mut self) -> (r: Option<u64>)
        requires
            old(self).wf(),
        ensures
            final(self).wf(),
            match r {
                Some(k) => old(self).tasks().len() > 0 && k == old(self).tasks()[0]
                    && final(self).tasks() == old(self).tasks().drop_first(),
                None => old(self).tasks().len() == 0 && final(self).tasks() == old(self).tasks(),
            },
            final(self).nodes() == old(self).nodes(),
            forall|n: u64| #[trigger] final(self).scope(n) == old(self).scope(n),
            forall|n: u64| #[trigger] final(self).has_scope(n) == old(self).has_scope(n),
            final(self).root() == old(self).root(),
            final(self).pending() == old(self).pending(),
            final(self).updates() == old(self).updates(),
            final(self).is_initial() == old(self).is_initial(),
            final(self).dropped() == old(self).dropped(),
    {
        queue_pop(&mut self.tasks)
    }

    /// Apply the queued updates in queue order, then clear the queue.
    ///
    /// An update of a slot that no longer exists is skipped. Returns the
    /// number of updates that were queued.
    pub fn apply_updates(&mut self) -> (n: usize)
        where F: FnOnce(&V) -> V,
        requires
            old(self).wf(),
            forall|i: int| 0 <= i < old(self).updates().len() ==>
                (#[trigger] old(self).updates()[i].op matches UpdateOp::Apply(f) ==> forall|v: V| f.requires((&v,))),
        ensures
            final(self).wf(),
            n == old(self).updates().len(),
            final(self).updates().len() == 0,
            exists|rs: Seq<V>|
                update_results(old(self).update_state(), old(self).updates(), rs)
                && final(self).update_state() == apply_updates(old(self).update_state(), old(self).updates(), rs),
            final(self).nodes() == old(self).nodes(),
            final(self).root() == old(self).root(),
            final(self).tasks() == old(self).tasks(),
            final(self).is_initial() == old(self).is_initial(),
            final(self).dropped() == old(self).dropped(),
    {
        let ghost st0 = self.update_state();
        let ghost us = self.updates@;
        let mut queue: Vec<PendingUpdate<V, F>> = Vec::new();
        std::mem::swap(&mut queue, &mut self.updates);
        let ghost mut rs: Seq<V> = Seq::empty();
        let n = queue.len();
        let mut i: usize = 0;
        proof {
            assert(us.take(0) =~= Seq::<PendingUpdate<V, F>>::empty());
            assert(queue@ =~= us.skip(0));
            assert(self.scopes@ == old(self).scopes@);
            assert(self.update_state().scopes =~= st0.scopes);
            assert(us == old(self).updates());
        }
        while i < n
            invariant
                n == us.len(),
                i <= n,
                queue@ == us.skip(i as int),
                rs.len() == i,
                update_results(st0, us.take(i as int), rs),
                self.update_state() == apply_updates(st0, us.take(i as int), rs),
                self.wf(),
                self.updates@.len() == 0,
                self.nodes() == old(self).nodes(),
                self.root == old(self).root,
                queued_keys(self.tasks) == queued_keys(old(self).tasks),
                self.dropped@ == old(self).dropped@,
                self.is_initial == old(self).is_initial,
                forall|t: int| 0 <= t < us.len() ==>
                    (#[trigger] us[t].op matches UpdateOp::Apply(f) ==> forall|v: V| f.requires((&v,))),
            decreases n - i,
        {
            let u = queue.remove(0);
            let ghost st = self.update_state();
            proof {
                assert(u == us[i as int]);
                assert(us.take(i + 1) =~= us.take(i as int).push(u));
                assert(queue@ =~= us.skip(i + 1));
            }
            let PendingUpdate { scope, slot, op, recompose } = u;
            let applies = match self.scopes.get(&scope) {
                Some(s) => slot < s.hook_count(),
                None => false,
            };
            let ghost r_used: V;
            if applies {
                let r: V = match op {
                    UpdateOp::Assign(v) => v,
                    UpdateOp::Apply(f) => {
                        match self.scopes.get(&scope) {
                            Some(s) => f(s.hook(slot)),
                            None => vstd::pervasive::unreached(),
                        }
                    },
                };
                proof { r_used = r; }
                let ghost dom0 = self.scopes@.dom();
                let ghost before = self.scopes@;
                let mut sc = self.take_scope(scope);
                sc.write_hook(slot, r);
                self.put_scope(scope, sc);
                proof {
                    assert(self.scopes@.dom() =~= dom0);
                }
                if recompose {
                    self.queue(scope);
                }
            } else {
                proof { r_used = vstd::pervasive::arbitrary(); }
            }
            proof {
                let rs2 = rs.push(r_used);
                assert(rs2.drop_last() =~= rs);
                assert(us.take(i + 1).drop_last() =~= us.take(i as int));
                assert(us.take(i + 1).last() == u);
                assert(self.update_state().scopes =~= apply_update(st, u, r_used).scopes);
                rs = rs2;
            }
            i = i + 1;
        }
        proof {
            assert(us.take(n as int) =~= us);
        }
        n
    }

    /// Decide whether a composition runs now.
    ///
    /// The first call always composes. Later calls apply the queued updates
    /// and compose when a task was polled (`polled_tasks`), an update was
    /// applied, or a node is queued to be composed; otherwise there is
    /// nothing to do.
    pub fn try_compose(&mut self, polled_tasks: bool) -> (compose: bool)
        where F: FnOnce(&V) -> V,
        requires
            old(self).wf(),
            forall|i: int| 0 <= i < old(self).updates().len() ==>
                (#[trigger] old(self).updates()[i].op matches UpdateOp::Apply(f) ==> forall|v: V| f.requires((&v,))),
        ensures
            final(self).wf(),
            !final(self).is_initial(),
            old(self).is_initial() ==> compose && final(self).updates() == old(self).updates()
                && final(self).update_state() == old(self).update_state()
                && (forall|n: u64| #[trigger] final(self).scope(n) == old(self).scope(n))
                && (forall|n: u64| #[trigger] final(self).has_scope(n) == old(self).has_scope(n)),
            !old(self).is_initial() ==> {
                &&& final(self).updates().len() == 0
                &&& exists|rs: Seq<V>|
                    update_results(old(self).update_state(), old(self).updates(), rs)
                    && final(self).update_state() == apply_updates(old(self).update_state(), old(self).updates(), rs)
                &&& compose == (polled_tasks || old(self).updates().len() > 0 || final(self).pending().len() > 0)
            },
            final(self).nodes() == old(self).nodes(),
            final(self).root() == old(self).root(),
            final(self).tasks() == old(self).tasks(),
            final(self).dropped() == old(self).dropped(),
    {
        if self.is_initial {
            self.is_initial = false;
            proof {
                assert(self.update_state().scopes =~= old(self).update_state().scopes);
            }
            return true;
        }
        let n = self.apply_updates();
        polled_tasks || n > 0 || self.pending.len() > 0
    }

    /// Replace the contexts of the node `key` by those its parent passes on.
    pub fn inherit_contexts(&mut self, key: u64)
        requires
            old(self).wf(),
            old(self).nodes().contains_key(key),
            old(self).nodes()[key].parent is Some,
        ensures
            final(self).wf(),
            old(self).only_scope_changed(*final(self), key),
            final(self).scope(key) == (ScopeView {
                contexts: old(self).scope(old(self).nodes()[key].parent->0).contexts_for_child(),
                ..old(self).scope(key)
            }),
    {
        proof { self.lemma_wf_scope(key); }
        let parent = match slots_get(&self.nodes, key) {
            Some(n) => match n.parent {
                Some(p) => p,
                None => vstd::pervasive::unreached(),
            },
            None => vstd::pervasive::unreached(),
        };
        proof { self.lemma_wf_scope(parent); }
        let fresh: ScopeData<V> = match self.scopes.get(&parent) {
            Some(p) => p.child(key),
            None => vstd::pervasive::unreached(),
        };
        let mut s = self.take_scope(key);
        s.adopt_contexts(fresh);
        self.put_scope(key, s);
        proof {
            assert(self.scopes@.dom() =~= old(self).scopes@.dom());
        }
    }

    /// In a well-formed composer every node key is one the slot map handed out,
    /// and the root exists.
    pub proof fn lemma_wf_keys(&self)
        requires
            self.wf(),
        ensures
            forall|k: u64| #[trigger] self.nodes().contains_key(k) ==> key_valid(k),
            forall|k: u64| #[trigger] self.has_scope(k) <==> self.nodes().contains_key(k),
            self.nodes().dom().finite(),
            self.nodes().contains_key(self.root()),
            self.nodes()[self.root()].parent is None,
            tree_wf(self.nodes()),
    {
    }
}

} // verus!
