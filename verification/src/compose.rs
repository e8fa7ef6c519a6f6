//! How composables place their children in the composition tree: a fixed
//! child, an optional child, a fallible child, a dynamically-typed child,
//! a child per item, and a memoized child.

use vstd::prelude::*;
use vstd::string::*;
use vstd::std_specs::cmp::PartialEqSpec;
use crate::composer::{Composer, lemma_without, queued};
use crate::error::CatchContext;
use crate::node::without;

verus! {

/// Node and type of the child of a dynamically-typed composable.
#[derive(Clone, Copy, Debug, PartialEq, Eq, Structural)]
pub struct DynComposeState {
    /// Key of the child node.
    pub key: u64,
    /// Type identifier of the composable it holds.
    pub data_id: u64,
}

/// `pending` with each of `keys` queued in order.
pub open spec fn queued_all(pending: Seq<u64>, keys: Seq<u64>) -> Seq<u64>
    decreases keys.len(),
{
    if keys.len() == 0 {
        pending
    } else {
        queued(queued_all(pending, keys.drop_last()), keys.last())
    }
}

/// Whether item `i` had no node in the last composition.
pub open spec fn item_is_new(old_keys: Seq<Option<u64>>, i: int) -> bool {
    i >= old_keys.len() || old_keys[i] is None
}

/// The nodes created for new items among the first `n` items, in item order.
pub open spec fn new_item_keys(keys: Seq<Option<u64>>, old_keys: Seq<Option<u64>>, n: int) -> Seq<u64>
    decreases n,
{
    if n <= 0 {
        Seq::empty()
    } else if item_is_new(old_keys, n - 1) {
        new_item_keys(keys, old_keys, n - 1).push(keys[n - 1]->0)
    } else {
        new_item_keys(keys, old_keys, n - 1)
    }
}

/// `c` is the node of an item at position `n` or beyond in `old_keys`.
pub open spec fn beyond_items(old_keys: Seq<Option<u64>>, n: int, c: u64) -> bool {
    exists|t: int| n <= t < old_keys.len() && #[trigger] old_keys[t] == Some(c)
}

/// The keys held by a sequence of present keys.
pub open spec fn unwrap_keys(keys: Seq<Option<u64>>) -> Seq<u64> {
    keys.map_values(|o: Option<u64>| o->0)
}

/// Whether a memoized child is composed for `dep`, given the dependency it
/// was last composed for.
pub open spec fn memo_changed<D: PartialEq>(last: Option<D>, dep: D) -> bool {
    match last {
        Some(l) => !dep.eq_spec(&l),
        None => true,
    }
}

/// Composable made from a function of the scope it runs in.
///
/// For more see [`from_fn`].
pub struct FromFn<G> {
    /// The function giving the content.
    pub f: G,
}

/// Create a composable from a function that takes the key of its scope and
/// returns its content.
pub fn from_fn<G>(f: G) -> (r: FromFn<G>)
    ensures
        r.f == f,
{
    FromFn { f }
}

impl<G> FromFn<G> {
    /// Compose in the scope `key`: the content is what the function returns.
    pub fn compose<C>(&self, key: u64) -> (r: C)
        where G: Fn(u64) -> C,
        requires
            self.f.requires((key,)),
        ensures
            self.f.ensures((key,), r),
    {
        (self.f)(key)
    }
}

/// Length of the part of `s` before its first `<`, where generic arguments
/// start.
pub open spec fn generics_start(s: Seq<char>) -> nat
    decreases s.len(),
{
    if s.len() == 0 || s[0] == '<' {
        0
    } else {
        1 + generics_start(s.drop_first())
    }
}

/// Start of the last segment of `s`, where `s` is cut at each `::`, found
/// from the left without overlap.
pub open spec fn segment_start(s: Seq<char>) -> nat
    decreases s.len(),
{
    if s.len() < 2 {
        0
    } else if s[0] == ':' && s[1] == ':' {
        2 + segment_start(s.skip(2))
    } else {
        let k = segment_start(s.drop_first());
        if k == 0 {
            0
        } else {
            1 + k
        }
    }
}

/// The short name of a type: without generic arguments, and without the
/// module path.
pub open spec fn short_name(full_name: Seq<char>) -> Seq<char> {
    let p = full_name.take(generics_start(full_name) as int);
    p.skip(segment_start(p) as int)
}

proof fn lemma_generics_start(s: Seq<char>, i: int)
    requires
        0 <= i <= s.len(),
        forall|j: int| 0 <= j < i ==> s[j] != '<',
        i == s.len() || s[i] == '<',
    ensures
        generics_start(s) == i,
    decreases i,
{
    if i > 0 {
        let t = s.drop_first();
        assert forall|j: int| 0 <= j < i - 1 implies t[j] != '<' by {
            assert(t[j] == s[j + 1]);
        }
        if i < s.len() {
            assert(t[i - 1] == s[i]);
        }
        lemma_generics_start(t, i - 1);
    }
}

/// The name of a composable, from the name of its type: the type's short
/// name, without generic arguments and without the module path.
pub fn name(full_name: &str) -> (r: String)
    ensures
        r@ == short_name(full_name@),
{
    let n = full_name.unicode_len();
    let ghost s = full_name@;
    let mut end: usize = 0;
    while end < n && full_name.get_char(end) != '<'
        invariant
            s == full_name@,
            n == s.len(),
            end <= n,
            forall|j: int| 0 <= j < end ==> s[j] != '<',
        decreases n - end,
    {
        end = end + 1;
    }
    proof {
        lemma_generics_start(s, end as int);
    }
    let ghost p = s.take(end as int);
    let mut start: usize = 0;
    let mut i: usize = 0;
    assert(p.skip(0) =~= p);
    while end - i > 1
        invariant
            s == full_name@,
            n == s.len(),
            end <= n,
            p == s.take(end as int),
            start <= i <= end,
            segment_start(p) == if segment_start(p.skip(i as int)) == 0 {
                start as int
            } else {
                i + segment_start(p.skip(i as int))
            },
        decreases end - i,
    {
        proof {
            let t = p.skip(i as int);
            assert(t.drop_first() =~= p.skip(i + 1));
            assert(t.skip(2) =~= p.skip(i + 2));
            assert(t[0] == s[i as int] && t[1] == s[i + 1]);
        }
        if full_name.get_char(i) == ':' && full_name.get_char(i + 1) == ':' {
            i = i + 2;
            start = i;
        } else {
            i = i + 1;
        }
    }
    let r = full_name.substring_char(start, end);
    proof {
        assert(p.skip(i as int).len() < 2);
        assert(r@ =~= p.skip(start as int));
    }
    String::from_str(r)
}

impl<V, F> Composer<V, F> {
    /// The scopes are the same in `self` and `other`.
    pub open spec fn same_scopes(self, other: Self) -> bool {
        &&& forall|n: u64| #[trigger] other.scope(n) == self.scope(n)
        &&& forall|n: u64| #[trigger] other.has_scope(n) == self.has_scope(n)
    }

    /// Use the child node of `parent` at position `child_idx`: the node
    /// `cached` that an earlier composition created, or a new node holding a
    /// composable of type `data_id`.
    pub fn use_node(&mut self, parent: u64, cached: Option<u64>, data_id: u64, child_idx: usize) -> (key: u64)
        requires
            old(self).wf(),
            old(self).nodes().contains_key(parent),
            old(self).nodes().dom().len() < u32::MAX - 1,
            cached is Some ==> old(self).nodes().contains_key(cached->0)
                && old(self).nodes()[cached->0].parent == Some(parent),
        ensures
            final(self).wf(),
            final(self).nodes().contains_key(key) && final(self).nodes()[key].parent == Some(parent),
            cached is Some ==> key == cached->0 && *final(self) == *old(self),
            cached is None ==> {
                &&& old(self).child_added(*final(self), parent, key, data_id, child_idx)
                &&& final(self).pending() == old(self).pending()
                &&& old(self).same_runtime(*final(self))
            },
    {
        match cached {
            Some(k) => k,
            None => self.insert_child(parent, data_id, child_idx),
        }
    }

    /// Compose the node `key`, whose composable made a child of type `child`
    /// (`None` when it made the empty composable).
    ///
    /// The scope of `key` starts a new composition. An empty child leaves
    /// the child node of the last composition, `cached`, as it is. Otherwise
    /// the child lives in `cached`, or in a new node at position 0 the first
    /// time, and is queued to be composed. Returns the child node.
    pub fn any_compose(&mut self, key: u64, cached: Option<u64>, child: Option<u64>) -> (r: Option<u64>)
        requires
            old(self).wf(),
            old(self).nodes().contains_key(key),
            old(self).scope(key).generation < u64::MAX,
            old(self).nodes().dom().len() < u32::MAX - 1,
            cached is Some ==> old(self).nodes().contains_key(cached->0)
                && old(self).nodes()[cached->0].parent == Some(key),
        ensures
            final(self).wf(),
            old(self).same_runtime(*final(self)),
            final(self).scope(key) == old(self).scope(key).begin_compose(),
            r matches Some(k) ==> final(self).nodes().contains_key(k) && final(self).nodes()[k].parent == Some(key),
            match (child, cached) {
                (None, _) => {
                    &&& r == cached
                    &&& old(self).only_scope_changed(*final(self), key)
                },
                (Some(_), Some(k)) => {
                    &&& r == Some(k)
                    &&& final(self).nodes() == old(self).nodes()
                    &&& final(self).dropped() == old(self).dropped()
                    &&& forall|n: u64| n != key ==> #[trigger] final(self).scope(n) == old(self).scope(n)
                    &&& forall|n: u64| #[trigger] final(self).has_scope(n) == old(self).has_scope(n)
                    &&& final(self).pending() == queued(old(self).pending(), k)
                },
                (Some(d), None) => {
                    &&& r is Some
                    &&& old(self).child_added_beside(*final(self), key, r->0, d, 0)
                    &&& final(self).pending() == queued(old(self).pending(), r->0)
                },
            },
    {
        self.begin_compose(key);
        let ghost mid = *self;
        match child {
            None => cached,
            Some(data_id) => {
                let child_key = self.use_node(key, cached, data_id, 0);
                proof {
                    if cached is None {
                        assert(mid.scope(key).contexts_for_child() == old(self).scope(key).contexts_for_child());
                        assert(mid.nodes() == old(self).nodes());
                    }
                }
                self.queue(child_key);
                Some(child_key)
            },
        }
    }


    /// Compose an optional child of `parent`.
    ///
    /// `child` is the child node from the last composition and `content` the
    /// type of the content now, if any. Content that is present is queued to
    /// be composed, in a new node the first time; content that went away has
    /// its node dropped. Returns the child node now.
    pub fn compose_option(&mut self, parent: u64, child: Option<u64>, content: Option<u64>) -> (r: Option<u64>)
        requires
            old(self).wf(),
            old(self).nodes().contains_key(parent),
            old(self).nodes().dom().len() < u32::MAX - 1,
            child is Some ==> old(self).nodes().contains_key(child->0)
                && old(self).nodes()[child->0].parent == Some(parent),
        ensures
            final(self).wf(),
            old(self).same_runtime(*final(self)),
            r matches Some(k) ==> final(self).nodes().contains_key(k) && final(self).nodes()[k].parent == Some(parent),
            match (content, child) {
                (Some(_), Some(k)) => {
                    &&& r == Some(k)
                    &&& final(self).nodes() == old(self).nodes()
                    &&& final(self).dropped() == old(self).dropped()
                    &&& old(self).same_scopes(*final(self))
                    &&& final(self).pending() == queued(old(self).pending(), k)
                },
                (Some(d), None) => {
                    &&& r is Some
                    &&& old(self).child_added(*final(self), parent, r->0, d, 0)
                    &&& final(self).pending() == queued(old(self).pending(), r->0)
                },
                (None, Some(k)) => {
                    &&& r is None
                    &&& old(self).subtree_dropped(*final(self), k)
                    &&& final(self).pending() == old(self).pending()
                },
                (None, None) => r is None && *final(self) == *old(self),
            },
    {
        match content {
            Some(data_id) => {
                match child {
                    Some(k) => {
                        self.queue(k);
                        Some(k)
                    },
                    None => {
                        let k = self.insert_child(parent, data_id, 0);
                        self.queue(k);
                        Some(k)
                    },
                }
            },
            None => {
                if let Some(k) = child {
                    proof { self.lemma_wf_keys(); }
                    self.drop_node(k);
                }
                None
            },
        }
    }

    /// Compose a fallible child of `parent`.
    ///
    /// `Ok` content is composed as with [`Composer::compose_option`]. On an
    /// error the child node, if any, is dropped and no child remains; the
    /// error goes to the nearest catching ancestor `catch`, or, when there is
    /// none, to the composition's own error slot `last_error`, where the last
    /// error of a composition stays. Returns the child node now.
    pub fn compose_result<E, H: Fn(E)>(
        &mut self,
        parent: u64,
        child: Option<u64>,
        content: Result<u64, E>,
        catch: Option<&CatchContext<H>>,
        last_error: &mut Option<E>,
    ) -> (r: Option<u64>)
        requires
            old(self).wf(),
            old(self).nodes().contains_key(parent),
            old(self).nodes().dom().len() < u32::MAX - 1,
            child is Some ==> old(self).nodes().contains_key(child->0)
                && old(self).nodes()[child->0].parent == Some(parent),
            catch matches Some(c) ==> forall|e: E| c.f.requires((e,)),
        ensures
            final(self).wf(),
            old(self).same_runtime(*final(self)),
            r matches Some(k) ==> final(self).nodes().contains_key(k) && final(self).nodes()[k].parent == Some(parent),
            match content {
                Ok(d) => {
                    &&& *final(last_error) == *old(last_error)
                    &&& match child {
                        Some(k) => {
                            &&& r == Some(k)
                            &&& final(self).nodes() == old(self).nodes()
                            &&& final(self).dropped() == old(self).dropped()
                            &&& old(self).same_scopes(*final(self))
                            &&& final(self).pending() == queued(old(self).pending(), k)
                        },
                        None => {
                            &&& r is Some
                            &&& old(self).child_added(*final(self), parent, r->0, d, 0)
                            &&& final(self).pending() == queued(old(self).pending(), r->0)
                        },
                    }
                },
                Err(e) => {
                    &&& r is None
                    &&& final(self).pending() == old(self).pending()
                    &&& match child {
                        Some(k) => old(self).subtree_dropped(*final(self), k),
                        None => *final(self) == *old(self),
                    }
                    &&& match catch {
                        Some(c) => c.f.ensures((e,), ()) && *final(last_error) == *old(last_error),
                        None => *final(last_error) == Some(e),
                    }
                },
            },
    {
        match content {
            Ok(data_id) => {
                let k = match child {
                    Some(k) => {
                        self.queue(k);
                        k
                    },
                    None => {
                        let k = self.insert_child(parent, data_id, 0);
                        self.queue(k);
                        k
                    },
                };
                Some(k)
            },
            Err(e) => {
                if let Some(k) = child {
                    proof { self.lemma_wf_keys(); }
                    self.drop_node(k);
                }
                match catch {
                    Some(c) => c.handle(e),
                    None => {
                        *last_error = Some(e);
                    },
                }
                None
            },
        }
    }

    /// Compose a dynamically-typed child of `parent`.
    ///
    /// `state` is the child from the last composition and `content` the type
    /// of the content now, if any. Content of the same type is composed in
    /// the old node, which is queued and stays the state. Content of another
    /// type drops the old node and its descendants; a new node for the
    /// content is added, queued, and becomes the state. When the drop took
    /// `parent` with it, no node is added.
    pub fn dyn_compose(&mut self, parent: u64, state: Option<DynComposeState>, content: Option<u64>) -> (r: Option<DynComposeState>)
        requires
            old(self).wf(),
            old(self).nodes().contains_key(parent),
            old(self).nodes().dom().len() < u32::MAX - 1,
            state is Some ==> content is Some,
            state is Some ==> old(self).nodes().contains_key(state->0.key)
                && old(self).nodes()[state->0.key].parent == Some(parent),
        ensures
            final(self).wf(),
            old(self).same_runtime(*final(self)),
            r matches Some(s) ==> final(self).nodes().contains_key(s.key) && final(self).nodes()[s.key].parent == Some(parent),
            match (content, state) {
                (None, _) => r == state && *final(self) == *old(self),
                (Some(d), None) => {
                    &&& r is Some && r->0.data_id == d
                    &&& old(self).child_added(*final(self), parent, r->0.key, d, 0)
                    &&& final(self).pending() == queued(old(self).pending(), r->0.key)
                },
                (Some(d), Some(s)) => if s.data_id == d {
                    &&& r == Some(s)
                    &&& final(self).nodes() == old(self).nodes()
                    &&& final(self).dropped() == old(self).dropped()
                    &&& old(self).same_scopes(*final(self))
                    &&& final(self).pending() == queued(old(self).pending(), s.key)
                } else {
                    exists|mid: Self| {
                        &&& #[trigger] old(self).subtree_dropped(mid, s.key)
                        &&& mid.pending() == old(self).pending()
                        &&& if mid.nodes().contains_key(parent) {
                            &&& r is Some && r->0.data_id == d
                            &&& mid.child_added(*final(self), parent, r->0.key, d, 0)
                            &&& final(self).pending() == queued(old(self).pending(), r->0.key)
                        } else {
                            r is None && *final(self) == mid
                        }
                    }
                },
            },
    {
        let data_id = match content {
            Some(d) => d,
            None => return state,
        };
        if let Some(s) = state {
            if s.data_id == data_id {
                self.queue(s.key);
                return Some(s);
            } else {
                proof { self.lemma_wf_keys(); }
                self.drop_node(s.key);
            }
        }
        let ghost mid = *self;
        proof { self.lemma_wf_keys(); }
        assert(crate::store::key_valid(parent)) by {
            old(self).lemma_wf_keys();
        }
        if !self.contains(parent) {
            return None;
        }
        proof {
            assert(self.nodes().dom().len() < u32::MAX - 1) by {
                if let Some(s) = state {
                    if s.data_id != data_id {
                        old(self).lemma_wf_keys();
                        vstd::set_lib::lemma_len_subset(self.nodes().dom(), old(self).nodes().dom());
                    }
                }
            }
        }
        let key = self.insert_child(parent, data_id, 0);
        self.queue(key);
        Some(DynComposeState { key, data_id })
    }

    /// Compose the memoized child `key` for the dependency `dep`, given the
    /// dependency `last` it was last composed for.
    ///
    /// The child is queued to be composed on the first composition and
    /// whenever the dependency differs from the last one. Returns the
    /// dependency to remember.
    pub fn compose_memo<D: PartialEq>(&mut self, key: u64, last: Option<D>, dep: D) -> (r: Option<D>)
        requires
            old(self).wf(),
        ensures
            final(self).wf(),
            old(self).same_runtime(*final(self)),
            final(self).nodes() == old(self).nodes(),
            final(self).dropped() == old(self).dropped(),
            old(self).same_scopes(*final(self)),
            (r == Some(dep) && final(self).pending() == queued(old(self).pending(), key))
                || (r == last && last is Some && final(self).pending() == old(self).pending()),
            D::obeys_eq_spec() && memo_changed(last, dep) ==> r == Some(dep)
                && final(self).pending() == queued(old(self).pending(), key),
            D::obeys_eq_spec() && !memo_changed(last, dep) ==> r == last
                && final(self).pending() == old(self).pending(),
            last is None ==> r == Some(dep),
    {
        match last {
            Some(l) => {
                if dep != l {
                    self.queue(key);
                    Some(dep)
                } else {
                    Some(l)
                }
            },
            None => {
                self.queue(key);
                Some(dep)
            },
        }
    }

    /// `other` is `self` after dropping the nodes of the items at positions
    /// `n_items` and beyond of `old_keys`: while `parent` stays, those nodes
    /// are gone, `parent` keeps exactly its other children, and every other
    /// node and scope is unchanged.
    pub open spec fn items_trimmed(self, other: Self, parent: u64, old_keys: Seq<Option<u64>>, n_items: int) -> bool {
        &&& other.nodes().dom().subset_of(self.nodes().dom())
        &&& forall|n: u64| #[trigger] other.nodes().contains_key(n) && n != parent ==> other.nodes()[n] == self.nodes()[n]
        &&& forall|n: u64| #[trigger] other.nodes().contains_key(n) ==> other.scope(n) == self.scope(n)
        &&& other.pending() == self.pending()
        &&& self.same_runtime(other)
        &&& exists|extra: Seq<V>| #[trigger] (self.dropped() + extra) == other.dropped()
        &&& other.nodes().contains_key(parent) ==> {
            &&& other.nodes()[parent].parent == self.nodes()[parent].parent
            &&& other.nodes()[parent].child_idx == self.nodes()[parent].child_idx
            &&& other.nodes()[parent].data_id == self.nodes()[parent].data_id
            &&& forall|c: u64| #[trigger] other.nodes()[parent].children@.contains(c) <==> (
                self.nodes()[parent].children@.contains(c) && !beyond_items(old_keys, n_items, c))
            &&& forall|c: u64| self.nodes()[parent].children@.contains(c) && !beyond_items(old_keys, n_items, c)
                ==> #[trigger] other.nodes().contains_key(c)
            &&& forall|t: int| n_items <= t < old_keys.len() && (#[trigger] old_keys[t]) is Some
                ==> !other.nodes().contains_key(old_keys[t]->0)
        }
    }

    /// Compose one child of `parent` per item, for `n_items` items.
    ///
    /// `old_keys[i]` is the node of item `i` from the last composition. Items
    /// that had one keep it; the others get a new node holding a composable of
    /// type `data_id` at position `i`. Every item node then takes the contexts
    /// `parent` passes on and is queued, in item order. The nodes of items
    /// beyond `n_items` are then dropped with their descendants. Returns the
    /// node of each item.
    pub fn compose_from_iter(&mut self, parent: u64, old_keys: Vec<Option<u64>>, n_items: usize, data_id: u64) -> (keys: Vec<Option<u64>>)
        requires
            old(self).wf(),
            old(self).nodes().contains_key(parent),
            old(self).nodes().dom().len() + n_items < u32::MAX - 1,
            forall|i: int| 0 <= i < old_keys@.len() && #[trigger] old_keys@[i] is Some ==> {
                &&& old(self).nodes().contains_key(old_keys@[i]->0)
                &&& old(self).nodes()[old_keys@[i]->0].parent == Some(parent)
                &&& old_keys@[i]->0 != parent
            },
            forall|i: int, j: int|
                0 <= i < j < old_keys@.len() && (#[trigger] old_keys@[i]) is Some && (#[trigger] old_keys@[j]) is Some
                    ==> old_keys@[i] != old_keys@[j],
        ensures
            final(self).wf(),
            old(self).same_runtime(*final(self)),
            keys@.len() == n_items,
            forall|i: int| 0 <= i < n_items ==> (#[trigger] keys@[i]) is Some,
            exists|mid: Self| {
                &&& #[trigger] old(self).items_placed(mid, parent, old_keys@, n_items as int, data_id, keys@)
                &&& mid.items_trimmed(*final(self), parent, old_keys@, n_items as int)
            },
            final(self).nodes().contains_key(parent) ==> forall|i: int| 0 <= i < n_items
                ==> final(self).nodes().contains_key((#[trigger] keys@[i])->0),
    {
        let ghost old_nodes = self.nodes();
        let keys = self.place_items(parent, &old_keys, n_items, data_id);
        let ghost mid = *self;
        let mut j: usize = if n_items < old_keys.len() { n_items } else { old_keys.len() };
        proof {
            self.lemma_wf_keys();
            old(self).lemma_wf_keys();
            assert forall|c: u64| !beyond_items(#[trigger] old_keys@.take(j as int), n_items as int, c) by {}
            assert(exists|extra: Seq<V>| #[trigger] (mid.dropped() + extra) == self.dropped()) by {
                assert(mid.dropped() + Seq::<V>::empty() =~= self.dropped());
            }
        }
        while j < old_keys.len()
            invariant
                j <= old_keys@.len(),
                n_items <= j || j == old_keys@.len(),
                self.wf(),
                mid.wf(),
                keys@.len() == n_items,
                old(self).items_placed(mid, parent, old_keys@, n_items as int, data_id, keys@),
                old_nodes == old(self).nodes(),
                forall|i: int| 0 <= i < old_keys@.len() && #[trigger] old_keys@[i] is Some ==> {
                    &&& old_nodes.contains_key(old_keys@[i]->0)
                    &&& old_nodes[old_keys@[i]->0].parent == Some(parent)
                    &&& old_keys@[i]->0 != parent
                    &&& crate::store::key_valid(old_keys@[i]->0)
                },
                crate::store::key_valid(parent),
                self.nodes().dom().subset_of(mid.nodes().dom()),
                forall|n: u64| #[trigger] self.nodes().contains_key(n) && n != parent ==> self.nodes()[n] == mid.nodes()[n],
                forall|n: u64| #[trigger] self.nodes().contains_key(n) ==> self.scope(n) == mid.scope(n),
                self.pending() == mid.pending(),
                mid.same_runtime(*self),
                exists|extra: Seq<V>| #[trigger] (mid.dropped() + extra) == self.dropped(),
                self.nodes().contains_key(parent) ==> {
                    &&& self.nodes()[parent].parent == mid.nodes()[parent].parent
                    &&& self.nodes()[parent].child_idx == mid.nodes()[parent].child_idx
                    &&& self.nodes()[parent].data_id == mid.nodes()[parent].data_id
                    &&& forall|c: u64| #[trigger] self.nodes()[parent].children@.contains(c) <==> (
                        mid.nodes()[parent].children@.contains(c) && !beyond_items(old_keys@.take(j as int), n_items as int, c))
                    &&& forall|c: u64| mid.nodes()[parent].children@.contains(c) && !beyond_items(old_keys@.take(j as int), n_items as int, c)
                        ==> #[trigger] self.nodes().contains_key(c)
                    &&& forall|t: int| n_items <= t < j && (#[trigger] old_keys@[t]) is Some
                        ==> !self.nodes().contains_key(old_keys@[t]->0)
                },
            decreases old_keys@.len() - j,
        {
            let ghost before = *self;
            let ghost mut dropped_now = false;
            let ghost mut dk: u64 = 0;
            proof {
                before.lemma_wf_keys();
            }
            if let Some(k) = old_keys[j] {
                if self.contains(k) && self.contains(parent) {
                    proof {
                        assert(old_keys@[j as int] is Some);
                        assert(self.nodes()[k] == mid.nodes()[k]);
                        assert(mid.nodes()[k] == old_nodes[k]);
                    }
                    self.drop_node(k);
                    proof {
                        dropped_now = true;
                        dk = k;
                        lemma_without(before.nodes()[parent].children@, k);
                        assert(before.nodes()[k].parent == Some(parent));
                        assert(self.nodes().contains_key(parent) ==> self.nodes()[parent].children@
                            == without(before.nodes()[parent].children@, k));
                        let extra0 = choose|e: Seq<V>| #[trigger] (mid.dropped() + e) == before.dropped();
                        let order = choose|order: Seq<u64>| {
                            &&& order.no_duplicates()
                            &&& order.to_set() == before.nodes().dom().difference(self.nodes().dom())
                            &&& #[trigger] self.dropped() == before.dropped() + before.dropped_fns(order)
                        };
                        assert(mid.dropped() + (extra0 + before.dropped_fns(order)) =~= self.dropped());
                    }
                }
            }
            proof {
                self.lemma_wf_keys();
                let nj = j as int;
                assert(old_keys@.take(nj + 1) =~= old_keys@.take(nj).push(old_keys@[nj]));
                assert forall|c: u64| #![auto] beyond_items(old_keys@.take(nj + 1), n_items as int, c) <==> (
                    beyond_items(old_keys@.take(nj), n_items as int, c) || (nj >= n_items && old_keys@[nj] == Some(c))) by {
                    if beyond_items(old_keys@.take(nj + 1), n_items as int, c) {
                        let t = choose|t: int| n_items <= t < old_keys@.take(nj + 1).len() && #[trigger] old_keys@.take(nj + 1)[t] == Some(c);
                        if t < j {
                            assert(old_keys@.take(nj)[t] == Some(c));
                        }
                    }
                    if beyond_items(old_keys@.take(nj), n_items as int, c) {
                        let t = choose|t: int| n_items <= t < old_keys@.take(nj).len() && #[trigger] old_keys@.take(nj)[t] == Some(c);
                        assert(old_keys@.take(nj + 1)[t] == Some(c));
                    }
                    if nj >= n_items && old_keys@[nj] == Some(c) {
                        assert(old_keys@.take(nj + 1)[nj] == Some(c));
                    }
                }
                if self.nodes().contains_key(parent) {
                    assert(before.nodes().contains_key(parent));
                    assert forall|c: u64| #[trigger] self.nodes()[parent].children@.contains(c) <==> (
                        mid.nodes()[parent].children@.contains(c) && !beyond_items(old_keys@.take(nj + 1), n_items as int, c)) by {
                        if dropped_now {
                            assert(old_keys@[nj] == Some(dk));
                            assert(self.nodes()[parent].children@.contains(c) <==> (before.nodes()[parent].children@.contains(c) && c != dk));
                        } else if old_keys@[nj] is Some {
                            let k = old_keys@[nj]->0;
                            if before.nodes()[parent].children@.contains(k) {
                                let q = choose|q: int| 0 <= q < before.nodes()[parent].children@.len()
                                    && before.nodes()[parent].children@[q] == k;
                                assert(before.nodes()[parent].children@[q] == k);
                            }
                        }
                    }
                    assert forall|c: u64| mid.nodes()[parent].children@.contains(c) && !beyond_items(old_keys@.take(nj + 1), n_items as int, c)
                        implies #[trigger] self.nodes().contains_key(c) by {
                        assert(before.nodes().contains_key(c));
                        if dropped_now && !self.nodes().contains_key(c) {
                            assert(before.nodes()[parent].children@.contains(c));
                            let q = choose|q: int| 0 <= q < before.nodes()[parent].children@.len()
                                && before.nodes()[parent].children@[q] == c;
                            assert(before.nodes()[parent].children@[q] == c);
                            assert(before.nodes()[c].parent == Some(parent));
                        }
                    }
                    assert forall|t: int| n_items <= t < nj + 1 && (#[trigger] old_keys@[t]) is Some
                        implies !self.nodes().contains_key(old_keys@[t]->0) by {
                        if t < nj {
                            assert(!before.nodes().contains_key(old_keys@[t]->0));
                        }
                    }
                }
            }
            j = j + 1;
        }
        proof {
            assert(old_keys@.take(j as int) =~= old_keys@);
            old(self).lemma_wf_keys();
            if self.nodes().contains_key(parent) {
                assert forall|i: int| 0 <= i < n_items implies self.nodes().contains_key((#[trigger] keys@[i])->0) by {
                    let c = keys@[i]->0;
                    let oc = old_nodes[parent].children@;
                    let nk = new_item_keys(keys@, old_keys@, n_items as int);
                    if item_is_new(old_keys@, i) {
                        lemma_new_item_key_listed(keys@, old_keys@, n_items as int, i);
                        let q = choose|q: int| 0 <= q < nk.len() && nk[q] == c;
                        assert((oc + nk)[oc.len() + q] == c);
                        assert(!old_nodes.contains_key(c));
                    } else {
                        assert(keys@[i] == old_keys@[i]);
                        assert(old_keys@[i] is Some);
                        assert(old_nodes[c].parent == Some(parent));
                        assert(oc.contains(c));
                        let q = choose|q: int| 0 <= q < oc.len() && oc[q] == c;
                        assert((oc + nk)[q] == c);
                    }
                    assert(mid.nodes()[parent].children@.contains(c));
                    if beyond_items(old_keys@, n_items as int, c) {
                        let t = choose|t: int| n_items <= t < old_keys@.len() && #[trigger] old_keys@[t] == Some(c);
                        assert(old_keys@[t] is Some);
                        if !item_is_new(old_keys@, i) {
                            assert(old_keys@[i] is Some);
                        }
                    }
                }
            }
        }
        keys
    }


    /// Place one child of `parent` per item, for `n_items` items: items that
    /// had a node keep it, the others get a new node, and every item node
    /// takes the contexts `parent` passes on and is queued, in item order.
    /// `other` is `self` after placing the item nodes `keys` of `n` items
    /// under `parent`, given the nodes `old_keys` of the last composition.
    pub open spec fn items_placed(self, other: Self, parent: u64, old_keys: Seq<Option<u64>>, n: int, data_id: u64, keys: Seq<Option<u64>>) -> bool {
        &&& other.wf()
        &&& self.same_runtime(other)
        &&& other.dropped() == self.dropped()
        &&& keys.len() == n
        &&& forall|i: int| 0 <= i < n ==> (#[trigger] keys[i]) is Some
        &&& forall|i: int| 0 <= i < n && !item_is_new(old_keys, i) ==> #[trigger] keys[i] == old_keys[i]
        &&& forall|i: int| 0 <= i < n && item_is_new(old_keys, i) ==> {
                let k = (#[trigger] keys[i])->0;
                &&& !self.nodes().contains_key(k)
                &&& other.nodes()[k].parent == Some(parent)
                &&& other.nodes()[k].children@.len() == 0
                &&& other.nodes()[k].child_idx == i
                &&& other.nodes()[k].data_id == data_id
                &&& other.scope(k) == crate::scope::ScopeView::<V>::fresh(
                    k,
                    self.scope(parent).contexts_for_child(),
                )
            }
        &&& forall|i: int| 0 <= i < n && !item_is_new(old_keys, i) ==> {
                let k = (#[trigger] keys[i])->0;
                other.scope(k) == (crate::scope::ScopeView {
                    contexts: self.scope(parent).contexts_for_child(),
                    ..self.scope(k)
                })
            }
        &&& other.nodes().dom() == self.nodes().dom() + new_item_keys(keys, old_keys, n).to_set()
        &&& other.nodes()[parent].children@ == self.nodes()[parent].children@ + new_item_keys(keys, old_keys, n)
        &&& other.nodes()[parent].parent == self.nodes()[parent].parent
        &&& other.nodes()[parent].child_idx == self.nodes()[parent].child_idx
        &&& other.nodes()[parent].data_id == self.nodes()[parent].data_id
        &&& forall|k: u64| #[trigger] self.nodes().contains_key(k) && k != parent ==> other.nodes()[k] == self.nodes()[k]
        &&& forall|k: u64| #[trigger] self.nodes().contains_key(k) && !unwrap_keys(keys).contains(k)
                ==> other.scope(k) == self.scope(k)
        &&& other.pending() == queued_all(self.pending(), unwrap_keys(keys))
    }

    fn place_items(&mut self, parent: u64, old_keys: &Vec<Option<u64>>, n_items: usize, data_id: u64) -> (keys: Vec<Option<u64>>)
        requires
            old(self).wf(),
            old(self).nodes().contains_key(parent),
            old(self).nodes().dom().len() + n_items < u32::MAX - 1,
            forall|i: int| 0 <= i < old_keys@.len() && #[trigger] old_keys@[i] is Some ==> {
                &&& old(self).nodes().contains_key(old_keys@[i]->0)
                &&& old(self).nodes()[old_keys@[i]->0].parent == Some(parent)
                &&& old_keys@[i]->0 != parent
            },
        ensures
            final(self).wf(),
            old(self).same_runtime(*final(self)),
            final(self).dropped() == old(self).dropped(),
            keys@.len() == n_items,
            forall|i: int| 0 <= i < n_items ==> (#[trigger] keys@[i]) is Some,
            forall|i: int| 0 <= i < n_items && !item_is_new(old_keys@, i) ==> #[trigger] keys@[i] == old_keys@[i],
            forall|i: int| 0 <= i < n_items && item_is_new(old_keys@, i) ==> {
                let k = (#[trigger] keys@[i])->0;
                &&& !old(self).nodes().contains_key(k)
                &&& final(self).nodes()[k].parent == Some(parent)
                &&& final(self).nodes()[k].children@.len() == 0
                &&& final(self).nodes()[k].child_idx == i
                &&& final(self).nodes()[k].data_id == data_id
                &&& final(self).scope(k) == crate::scope::ScopeView::<V>::fresh(
                    k,
                    old(self).scope(parent).contexts_for_child(),
                )
            },
            forall|i: int| 0 <= i < n_items && !item_is_new(old_keys@, i) ==> {
                let k = (#[trigger] keys@[i])->0;
                final(self).scope(k) == (crate::scope::ScopeView {
                    contexts: old(self).scope(parent).contexts_for_child(),
                    ..old(self).scope(k)
                })
            },
            final(self).nodes().dom() == old(self).nodes().dom() + new_item_keys(keys@, old_keys@, n_items as int).to_set(),
            final(self).nodes()[parent].children@ == old(self).nodes()[parent].children@ + new_item_keys(keys@, old_keys@, n_items as int),
            final(self).nodes()[parent].parent == old(self).nodes()[parent].parent,
            final(self).nodes()[parent].child_idx == old(self).nodes()[parent].child_idx,
            final(self).nodes()[parent].data_id == old(self).nodes()[parent].data_id,
            forall|k: u64| #[trigger] old(self).nodes().contains_key(k) && k != parent ==> final(self).nodes()[k] == old(self).nodes()[k],
            forall|k: u64| #[trigger] old(self).nodes().contains_key(k) && !unwrap_keys(keys@).contains(k)
                ==> final(self).scope(k) == old(self).scope(k),
            final(self).pending() == queued_all(old(self).pending(), unwrap_keys(keys@)),
            old(self).items_placed(*final(self), parent, old_keys@, n_items as int, data_id, keys@),
    {
        let ghost old_nodes = self.nodes();
        let ghost cfc = self.scope(parent).contexts_for_child();
        let mut keys: Vec<Option<u64>> = Vec::new();
        let mut i: usize = 0;
        proof {
            self.lemma_wf_keys();
            assert(self.nodes().dom() =~= old_nodes.dom() + new_item_keys(keys@, old_keys@, 0).to_set());
            assert(self.nodes()[parent].children@ =~= old_nodes[parent].children@ + new_item_keys(keys@, old_keys@, 0));
            assert(unwrap_keys(keys@) =~= Seq::<u64>::empty());
        }
        while i < n_items
            invariant
                i <= n_items,
                keys@.len() == i,
                self.wf(),
                old(self).same_runtime(*self),
                self.dropped() == old(self).dropped(),
                old_nodes == old(self).nodes(),
                old_nodes.contains_key(parent),
                old_nodes.dom().finite(),
                cfc == old(self).scope(parent).contexts_for_child(),
                self.scope(parent) == old(self).scope(parent),
                self.nodes().dom().len() <= old_nodes.dom().len() + i,
                old_nodes.dom().len() + n_items < u32::MAX - 1,
                forall|j: int| 0 <= j < old_keys@.len() && #[trigger] old_keys@[j] is Some ==> {
                    &&& old_nodes.contains_key(old_keys@[j]->0)
                    &&& old_nodes[old_keys@[j]->0].parent == Some(parent)
                    &&& old_keys@[j]->0 != parent
                },
                forall|j: int| 0 <= j < i ==> (#[trigger] keys@[j]) is Some,
                forall|j: int| 0 <= j < i && !item_is_new(old_keys@, j) ==> #[trigger] keys@[j] == old_keys@[j],
                forall|j: int| 0 <= j < i && item_is_new(old_keys@, j) ==> {
                    let k = (#[trigger] keys@[j])->0;
                    &&& !old_nodes.contains_key(k)
                    &&& k != parent
                    &&& self.nodes().contains_key(k)
                    &&& self.nodes()[k].parent == Some(parent)
                    &&& self.nodes()[k].children@.len() == 0
                    &&& self.nodes()[k].child_idx == j
                    &&& self.nodes()[k].data_id == data_id
                    &&& self.scope(k) == crate::scope::ScopeView::<V>::fresh(k, cfc)
                },
                forall|j: int| 0 <= j < i && !item_is_new(old_keys@, j) ==> {
                    let k = (#[trigger] keys@[j])->0;
                    self.scope(k) == (crate::scope::ScopeView { contexts: cfc, ..old(self).scope(k) })
                },
                self.nodes().dom() == old_nodes.dom() + new_item_keys(keys@, old_keys@, i as int).to_set(),
                self.nodes()[parent].children@ == old_nodes[parent].children@ + new_item_keys(keys@, old_keys@, i as int),
                self.nodes()[parent].parent == old_nodes[parent].parent,
                self.nodes()[parent].child_idx == old_nodes[parent].child_idx,
                self.nodes()[parent].data_id == old_nodes[parent].data_id,
                forall|k: u64| #[trigger] old_nodes.contains_key(k) && k != parent ==> self.nodes()[k] == old_nodes[k],
                forall|k: u64| #[trigger] old_nodes.contains_key(k) && !unwrap_keys(keys@).contains(k)
                    ==> self.scope(k) == old(self).scope(k),
                self.pending() == queued_all(old(self).pending(), unwrap_keys(keys@)),
            decreases n_items - i,
        {
            let ghost before = *self;
            let ghost before_keys = keys@;
            let existing = if i < old_keys.len() { old_keys[i] } else { None };
            let k = match existing {
                Some(k) => k,
                None => {
                    proof {
                        self.lemma_wf_keys();
                        assert(self.nodes().dom().len() < u32::MAX - 1);
                    }
                    let k = self.insert_child(parent, data_id, i);
                    proof {
                        assert(k != parent);
                        assert(!old_nodes.contains_key(k));
                    }
                    k
                },
            };
            proof {
                self.lemma_wf_keys();
                if existing is Some {
                    assert(old_keys@[i as int] is Some);
                }
            }
            self.inherit_contexts(k);
            self.queue(k);
            keys.push(Some(k));
            proof {
                assert(keys@[i as int] == Some(k));
                assert(forall|j: int| 0 <= j < i ==> keys@[j] == before_keys[j]);
                assert(keys@.take(i as int) =~= before_keys);
                assert(unwrap_keys(keys@) =~= unwrap_keys(before_keys).push(k));
                assert(unwrap_keys(keys@).drop_last() =~= unwrap_keys(before_keys));
                assert(new_item_keys(keys@, old_keys@, i as int) =~= new_item_keys(before_keys, old_keys@, i as int)) by {
                    lemma_new_item_keys_prefix(keys@, before_keys, old_keys@, i as int);
                }
                if item_is_new(old_keys@, i as int) {
                    assert(new_item_keys(keys@, old_keys@, i + 1) =~= new_item_keys(before_keys, old_keys@, i as int).push(k));
                    new_item_keys(before_keys, old_keys@, i as int).lemma_push_to_set_commute(k);
                    assert(self.nodes().dom() =~= old_nodes.dom() + new_item_keys(keys@, old_keys@, i + 1).to_set());
                    assert(self.nodes()[parent].children@ =~= old_nodes[parent].children@ + new_item_keys(keys@, old_keys@, i + 1));
                } else {
                    assert(new_item_keys(keys@, old_keys@, i + 1) =~= new_item_keys(before_keys, old_keys@, i as int));
                    assert(self.nodes().dom() =~= old_nodes.dom() + new_item_keys(keys@, old_keys@, i + 1).to_set());
                }
                assert forall|kk: u64| #[trigger] old_nodes.contains_key(kk) && !unwrap_keys(keys@).contains(kk)
                    implies self.scope(kk) == old(self).scope(kk) by {
                    assert(!unwrap_keys(before_keys).contains(kk)) by {
                        if unwrap_keys(before_keys).contains(kk) {
                            let q = choose|q: int| 0 <= q < unwrap_keys(before_keys).len() && unwrap_keys(before_keys)[q] == kk;
                            assert(unwrap_keys(keys@)[q] == kk);
                        }
                    }
                    assert(unwrap_keys(keys@)[i as int] == k);
                }
                assert forall|j: int| 0 <= j < i + 1 && !item_is_new(old_keys@, j) implies {
                    let kj = (#[trigger] keys@[j])->0;
                    self.scope(kj) == (crate::scope::ScopeView { contexts: cfc, ..old(self).scope(kj) })
                } by {
                    let kj = keys@[j]->0;
                    if j < i {
                        assert(keys@[j] == before_keys[j]);
                        if kj != k {
                            assert(self.scope(kj) == before.scope(kj));
                        }
                    } else {
                        if unwrap_keys(before_keys).contains(k) {
                            let q = choose|q: int| 0 <= q < unwrap_keys(before_keys).len() && unwrap_keys(before_keys)[q] == k;
                            assert(before_keys[q] is Some);
                            if item_is_new(old_keys@, q) {
                                assert(!old_nodes.contains_key(k));
                            }
                        } else {
                            assert(before.scope(k) == old(self).scope(k));
                        }
                    }
                }
                assert forall|j: int| 0 <= j < i + 1 && item_is_new(old_keys@, j) implies {
                    let kj = (#[trigger] keys@[j])->0;
                    &&& !old_nodes.contains_key(kj)
                    &&& kj != parent
                    &&& self.nodes().contains_key(kj)
                    &&& self.nodes()[kj].parent == Some(parent)
                    &&& self.nodes()[kj].children@.len() == 0
                    &&& self.nodes()[kj].child_idx == j
                    &&& self.nodes()[kj].data_id == data_id
                    &&& self.scope(kj) == crate::scope::ScopeView::<V>::fresh(kj, cfc)
                } by {
                    if j < i {
                        assert(keys@[j] == before_keys[j]);
                        let kj = keys@[j]->0;
                        if item_is_new(old_keys@, i as int) {
                            assert(kj != k);
                        } else {
                            assert(kj != k);
                        }
                    }
                }
            }
            i = i + 1;
        }
        keys
    }
}

/// The node of each new item among the first `n` is listed in
/// `new_item_keys`.
proof fn lemma_new_item_key_listed(keys: Seq<Option<u64>>, old_keys: Seq<Option<u64>>, n: int, i: int)
    requires
        0 <= i < n,
        item_is_new(old_keys, i),
    ensures
        new_item_keys(keys, old_keys, n).contains(keys[i]->0),
    decreases n,
{
    if i == n - 1 {
        let s = new_item_keys(keys, old_keys, n - 1);
        assert(new_item_keys(keys, old_keys, n) == s.push(keys[i]->0));
        assert(s.push(keys[i]->0)[s.len() as int] == keys[i]->0);
    } else {
        lemma_new_item_key_listed(keys, old_keys, n - 1, i);
        let s = new_item_keys(keys, old_keys, n - 1);
        let q = choose|q: int| 0 <= q < s.len() && s[q] == keys[i]->0;
        if item_is_new(old_keys, n - 1) {
            assert(s.push(keys[n - 1]->0)[q] == keys[i]->0);
        }
    }
}

/// `new_item_keys` only reads the first `n` keys.
pub proof fn lemma_new_item_keys_prefix(a: Seq<Option<u64>>, b: Seq<Option<u64>>, old_keys: Seq<Option<u64>>, n: int)
    requires
        0 <= n <= a.len(),
        n <= b.len(),
        forall|j: int| 0 <= j < n ==> a[j] == b[j],
    ensures
        new_item_keys(a, old_keys, n) == new_item_keys(b, old_keys, n),
    decreases n,
{
    if n > 0 {
        lemma_new_item_keys_prefix(a, b, old_keys, n - 1);
    }
}

} // verus!
