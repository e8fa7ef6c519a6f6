//! Properties that span several operations: how hooks behave across
//! compositions, how writes and updates land in their slots, and how
//! contexts reach children.

use vstd::prelude::*;
use crate::scope::{ContextError, ContextRef, Hook, ScopeView, context_entries_map, next_generation};
use crate::composer::{
    Composer, PendingUpdate, UpdateOp, UpdateState, apply_update, apply_updates, queued, update_applies,
    update_results,
};

verus! {

/// The scope after the hook calls of one composition, in order, where
/// `made[i]` is what the `i`-th value maker would return.
pub open spec fn use_refs<V>(s: ScopeView<V>, made: Seq<V>) -> ScopeView<V>
    decreases made.len(),
{
    if made.len() == 0 {
        s
    } else {
        use_refs(s, made.drop_last()).use_ref(made.last())
    }
}

/// The first composition of a scope creates one slot per hook call, holding
/// what its value maker returned, at generation zero.
pub proof fn first_composition_creates_hooks<V>(key: u64, contexts: Map<u64, ContextRef>, made: Seq<V>)
    ensures
        use_refs(ScopeView::<V>::fresh(key, contexts).begin_compose(), made).hooks
            == made.map_values(|v: V| Hook { value: v, generation: 0 }),
        use_refs(ScopeView::<V>::fresh(key, contexts).begin_compose(), made).hook_idx == made.len(),
    decreases made.len(),
{
    if made.len() > 0 {
        first_composition_creates_hooks::<V>(key, contexts, made.drop_last());
        assert(made.map_values(|v: V| Hook { value: v, generation: 0 }) =~= made.drop_last().map_values(
            |v: V| Hook { value: v, generation: 0 },
        ).push(Hook { value: made.last(), generation: 0 }));
    }
}

/// A later composition that makes no more hook calls than there are slots
/// creates no slot and changes none: value makers are not consulted, and
/// each call reads the slot of the same position as before.
pub proof fn recomposition_keeps_hooks<V>(s: ScopeView<V>, made: Seq<V>)
    requires
        made.len() <= s.hooks.len(),
    ensures
        use_refs(s.begin_compose(), made).hooks == s.hooks,
        use_refs(s.begin_compose(), made).hook_idx == made.len(),
        forall|i: int| 0 <= i < made.len() ==> !(#[trigger] use_refs(s.begin_compose(), made.take(i))).creates_slot(),
    decreases made.len(),
{
    if made.len() > 0 {
        let m = made.drop_last();
        recomposition_keeps_hooks(s, m);
        assert forall|i: int| 0 <= i < made.len() implies !(#[trigger] use_refs(s.begin_compose(), made.take(i))).creates_slot() by {
            if i < m.len() {
                assert(made.take(i) =~= m.take(i));
            } else {
                assert(made.take(i) =~= m);
            }
        }
    }
}

/// A write to a slot is what the slot holds afterwards, one generation
/// later (wrapping around after `u64::MAX`); the other slots keep their
/// values and generations.
pub proof fn write_then_read<V>(s: ScopeView<V>, slot: int, value: V, other: int)
    requires
        0 <= slot < s.hooks.len(),
        0 <= other < s.hooks.len(),
        other != slot,
    ensures
        s.write(slot, value).hooks[slot].value == value,
        s.write(slot, value).hooks[slot].generation == next_generation(s.hooks[slot].generation),
        s.write(slot, value).hooks[other] == s.hooks[other],
        s.write(slot, value).hooks.len() == s.hooks.len(),
{
}

/// A context value that a scope provides is the one its children find
/// under its type, unless the scope provides another value of that type
/// after it.
pub proof fn provided_context_reaches_children<V>(s: ScopeView<V>, i: int)
    requires
        0 <= i < s.child_contexts.len(),
        forall|j: int| i < j < s.child_contexts.len() ==> (#[trigger] s.child_contexts[j]).0 != s.child_contexts[i].0,
    ensures
        s.contexts_for_child().contains_key(s.child_contexts[i].0),
        s.contexts_for_child()[s.child_contexts[i].0] == s.child_contexts[i].1,
{
    lemma_last_entry_wins(s.contexts, s.child_contexts, i);
}

/// A context type that a scope does not provide reaches its children as
/// the scope itself sees it.
pub proof fn unprovided_context_inherited<V>(s: ScopeView<V>, type_key: u64)
    requires
        forall|j: int| 0 <= j < s.child_contexts.len() ==> (#[trigger] s.child_contexts[j]).0 != type_key,
    ensures
        s.contexts_for_child().contains_key(type_key) == s.contexts.contains_key(type_key),
        s.contexts.contains_key(type_key) ==> s.contexts_for_child()[type_key] == s.contexts[type_key],
{
    lemma_unlisted_key_kept(s.contexts, s.child_contexts, type_key);
}

proof fn lemma_last_entry_wins(base: Map<u64, ContextRef>, entries: Seq<(u64, ContextRef)>, i: int)
    requires
        0 <= i < entries.len(),
        forall|j: int| i < j < entries.len() ==> (#[trigger] entries[j]).0 != entries[i].0,
    ensures
        context_entries_map(base, entries).contains_key(entries[i].0),
        context_entries_map(base, entries)[entries[i].0] == entries[i].1,
    decreases entries.len(),
{
    if i < entries.len() - 1 {
        let d = entries.drop_last();
        assert forall|j: int| i < j < d.len() implies (#[trigger] d[j]).0 != d[i].0 by {
            assert(d[j] == entries[j]);
        }
        lemma_last_entry_wins(base, d, i);
        assert(entries.last() == entries[entries.len() - 1]);
    }
}

proof fn lemma_unlisted_key_kept(base: Map<u64, ContextRef>, entries: Seq<(u64, ContextRef)>, k: u64)
    requires
        forall|j: int| 0 <= j < entries.len() ==> (#[trigger] entries[j]).0 != k,
    ensures
        context_entries_map(base, entries).contains_key(k) == base.contains_key(k),
        base.contains_key(k) ==> context_entries_map(base, entries)[k] == base[k],
    decreases entries.len(),
{
    if entries.len() > 0 {
        let d = entries.drop_last();
        assert forall|j: int| 0 <= j < d.len() implies (#[trigger] d[j]).0 != k by {
            assert(d[j] == entries[j]);
        }
        lemma_unlisted_key_kept(base, d, k);
        assert(entries.last() == entries[entries.len() - 1]);
    }
}

/// An update of an existing slot stores its result there, one generation
/// later, and queues its scope for composition exactly when it asks to;
/// other scopes are untouched.
pub proof fn update_stores_result<V, F>(st: UpdateState<V>, u: PendingUpdate<V, F>, r: V, other: u64)
    requires
        update_applies(st, u),
        other != u.scope,
    ensures
        apply_update(st, u, r).scopes[u.scope].hooks[u.slot as int].value == r,
        apply_update(st, u, r).scopes[u.scope].hooks[u.slot as int].generation == next_generation(
            st.scopes[u.scope].hooks[u.slot as int].generation,
        ),
        u.recompose ==> apply_update(st, u, r).pending.contains(u.scope),
        !u.recompose ==> apply_update(st, u, r).pending == st.pending,
        apply_update(st, u, r).scopes.contains_key(other) == st.scopes.contains_key(other),
        st.scopes.contains_key(other) ==> apply_update(st, u, r).scopes[other] == st.scopes[other],
{
    if u.recompose {
        if !st.pending.contains(u.scope) {
            assert(st.pending.push(u.scope)[st.pending.len() as int] == u.scope);
        }
    }
}

/// Every drop function of every scope in `order` is among the functions
/// handed out for `order`.
pub proof fn dropped_scopes_hand_out_their_drop_fns<V, F>(c: Composer<V, F>, order: Seq<u64>, i: int, j: int)
    requires
        0 <= i < order.len(),
        0 <= j < c.scope(order[i]).drop_fns().len(),
    ensures
        c.dropped_fns(order).contains(c.scope(order[i]).drop_fns()[j]),
    decreases order.len(),
{
    let fns = c.scope(order[i]).drop_fns();
    if i == order.len() - 1 {
        let before = c.dropped_fns(order.drop_last());
        assert(c.dropped_fns(order)[before.len() + j] == fns[j]);
    } else {
        let d = order.drop_last();
        assert(d[i] == order[i]);
        dropped_scopes_hand_out_their_drop_fns(c, d, i, j);
        let before = c.dropped_fns(d);
        let k = choose|k: int| 0 <= k < before.len() && before[k] == fns[j];
        assert(c.dropped_fns(order)[k] == fns[j]);
    }
}

/// The two writes a memoized value queues when its dependency changes store
/// the new value and the new dependency in the memo's two slots, and queue
/// nothing for composition.
pub proof fn memo_writes_take_effect<V, F: FnOnce(&V) -> V>(st: UpdateState<V>, key: u64, slot: usize, value: V, dep: V)
    requires
        st.scopes.contains_key(key),
        slot + 1 < st.scopes[key].hooks.len(),
        slot < usize::MAX,
    ensures
        ({
            let us = seq![
                PendingUpdate::<V, F> { scope: key, slot, op: UpdateOp::Assign(value), recompose: false },
                PendingUpdate::<V, F> { scope: key, slot: (slot + 1) as usize, op: UpdateOp::Assign(dep), recompose: false },
            ];
            let after = apply_updates(st, us, seq![value, dep]);
            &&& update_results(st, us, seq![value, dep])
            &&& after.scopes[key].hooks[slot as int].value == value
            &&& after.scopes[key].hooks[slot + 1].value == dep
            &&& after.pending == st.pending
        }),
{
    reveal_with_fuel(apply_updates, 3);
    reveal_with_fuel(update_results, 3);
    let u1 = PendingUpdate::<V, F> { scope: key, slot, op: UpdateOp::Assign(value), recompose: false };
    let u2 = PendingUpdate::<V, F> { scope: key, slot: (slot + 1) as usize, op: UpdateOp::Assign(dep), recompose: false };
    let us = seq![u1, u2];
    let rs = seq![value, dep];
    assert(us.drop_last() =~= seq![u1]);
    assert(rs.drop_last() =~= seq![value]);
    assert(seq![u1].drop_last() =~= Seq::<PendingUpdate<V, F>>::empty());
    assert(seq![value].drop_last() =~= Seq::<V>::empty());
    let st1 = apply_update(st, u1, value);
    assert(apply_updates(st, seq![u1], seq![value]) == st1);
    assert(st1.scopes[key] == st.scopes[key].write(slot as int, value));
    assert(update_applies(st1, u2));
    let st2 = apply_update(st1, u2, dep);
    assert(apply_updates(st, us, rs) == st2);
    assert(st2.scopes[key] == st1.scopes[key].write(slot + 1, dep));
    assert(st2.scopes[key].hooks[slot as int] == st1.scopes[key].hooks[slot as int]);
}

/// Queueing a node for composition never queues it twice.
pub proof fn queue_has_no_repeats(pending: Seq<u64>, key: u64)
    requires
        pending.no_duplicates(),
    ensures
        queued(pending, key).no_duplicates(),
        queued(pending, key).contains(key),
{
    if !pending.contains(key) {
        assert(pending.push(key)[pending.len() as int] == key);
        assert forall|a: int, b: int|
            0 <= a < pending.push(key).len() && 0 <= b < pending.push(key).len() && a != b implies pending.push(
                key,
            )[a] != pending.push(key)[b] by {
            if a == pending.len() {
                assert(pending.contains(pending[b]));
            } else if b == pending.len() {
                assert(pending.contains(pending[a]));
            }
        }
    }
}

/// One hook call of a composition, by kind: what its value maker would
/// return, or the function it is given.
pub enum HookCall<V> {
    /// A stored value: `use_ref`, `use_mut`, and the slots of `use_memo`
    /// and `use_effect`.
    Ref(V),
    /// A callback that each composition replaces.
    Callback(V),
    /// A function to run when the scope is dropped.
    Drop(V),
    /// A context value of the given type key, provided to the children.
    Provide(u64, V),
}

impl<V> HookCall<V> {
    /// What the call stores: the made value or the given function.
    pub open spec fn payload(self) -> V {
        match self {
            HookCall::Ref(v) => v,
            HookCall::Callback(f) => f,
            HookCall::Drop(f) => f,
            HookCall::Provide(_, v) => v,
        }
    }

    /// Whether two calls are of the same kind (and, for providers, of the
    /// same context type).
    pub open spec fn same_kind(self, other: Self) -> bool {
        match (self, other) {
            (HookCall::Ref(_), HookCall::Ref(_)) => true,
            (HookCall::Callback(_), HookCall::Callback(_)) => true,
            (HookCall::Drop(_), HookCall::Drop(_)) => true,
            (HookCall::Provide(t, _), HookCall::Provide(u, _)) => t == u,
            _ => false,
        }
    }

    /// Whether the slot keeps what the first composition stored.
    pub open spec fn keeps_first(self) -> bool {
        self is Ref || self is Provide
    }
}

/// The scope after one hook call, as the composer's hook functions leave it.
pub open spec fn hook_call<V>(s: ScopeView<V>, c: HookCall<V>) -> ScopeView<V> {
    match c {
        HookCall::Ref(v) => s.use_ref(v),
        HookCall::Callback(f) => s.use_callback(f),
        HookCall::Drop(f) => s.use_drop(f),
        HookCall::Provide(t, v) => s.use_provider(t, v),
    }
}

/// The scope after the hook calls `cs`, in order.
pub open spec fn hook_calls<V>(s: ScopeView<V>, cs: Seq<HookCall<V>>) -> ScopeView<V>
    decreases cs.len(),
{
    if cs.len() == 0 {
        s
    } else {
        hook_call(hook_calls(s, cs.drop_last()), cs.last())
    }
}

/// The scope after one composition per entry of `rounds`, each making the
/// hook calls of its entry.
pub open spec fn compositions<V>(s: ScopeView<V>, rounds: Seq<Seq<HookCall<V>>>) -> ScopeView<V>
    decreases rounds.len(),
{
    if rounds.len() == 0 {
        s
    } else {
        hook_calls(compositions(s, rounds.drop_last()).begin_compose(), rounds.last())
    }
}

/// At least one composition, each making its hook calls in the same order
/// with the same kinds as the first.
pub open spec fn same_hook_order<V>(rounds: Seq<Seq<HookCall<V>>>) -> bool {
    &&& rounds.len() > 0
    &&& forall|i: int| 0 <= i < rounds.len() ==> (#[trigger] rounds[i]).len() == rounds[0].len()
    &&& forall|i: int, k: int| 0 <= i < rounds.len() && 0 <= k < rounds[0].len()
        ==> (#[trigger] rounds[i][k]).same_kind(rounds[0][k])
}

/// What slot `k` holds after the compositions `rounds`: the value made by
/// the first composition for stored values and providers, and the function
/// of the latest composition for callbacks and drop functions.
pub open spec fn kept_value<V>(rounds: Seq<Seq<HookCall<V>>>, k: int) -> V {
    if rounds[0][k].keeps_first() {
        rounds[0][k].payload()
    } else {
        rounds.last()[k].payload()
    }
}

/// Positions of the drop-function calls among `cs`, in order.
pub open spec fn drop_positions<V>(cs: Seq<HookCall<V>>) -> Seq<usize>
    decreases cs.len(),
{
    if cs.len() == 0 {
        Seq::empty()
    } else if cs.last() is Drop {
        drop_positions(cs.drop_last()).push((cs.len() - 1) as usize)
    } else {
        drop_positions(cs.drop_last())
    }
}

/// Context values that the provider calls among `cs` offer to the children
/// of the scope `key`, in order.
pub open spec fn provided<V>(key: u64, cs: Seq<HookCall<V>>) -> Seq<(u64, ContextRef)>
    decreases cs.len(),
{
    if cs.len() == 0 {
        Seq::empty()
    } else {
        match cs.last() {
            HookCall::Provide(t, _) => provided(key, cs.drop_last()).push(
                (t, ContextRef { scope: key, slot: (cs.len() - 1) as usize }),
            ),
            _ => provided(key, cs.drop_last()),
        }
    }
}

/// A slot `h` after a later composition's call `c`.
pub open spec fn later_hook<V>(c: HookCall<V>, h: Hook<V>) -> Hook<V> {
    if c.keeps_first() {
        h
    } else {
        Hook { value: c.payload(), generation: h.generation }
    }
}

proof fn lemma_first_round<V>(s: ScopeView<V>, cs: Seq<HookCall<V>>)
    requires
        s.hooks.len() == 0,
        s.hook_idx == 0,
        s.drops.len() == 0,
        s.child_contexts.len() == 0,
        cs.len() <= usize::MAX,
    ensures
        hook_calls(s, cs).hooks == cs.map_values(|c: HookCall<V>| Hook { value: c.payload(), generation: 0 }),
        hook_calls(s, cs).hook_idx == cs.len(),
        hook_calls(s, cs).drops == drop_positions(cs),
        hook_calls(s, cs).child_contexts == provided(s.key, cs),
        hook_calls(s, cs).key == s.key,
        hook_calls(s, cs).contexts == s.contexts,
        hook_calls(s, cs).generation == s.generation,
    decreases cs.len(),
{
    if cs.len() > 0 {
        let d = cs.drop_last();
        lemma_first_round(s, d);
        assert(cs.map_values(|c: HookCall<V>| Hook { value: c.payload(), generation: 0 }) =~= d.map_values(
            |c: HookCall<V>| Hook { value: c.payload(), generation: 0 },
        ).push(Hook { value: cs.last().payload(), generation: 0 }));
    }
}

proof fn lemma_later_round<V>(s: ScopeView<V>, cs: Seq<HookCall<V>>)
    requires
        s.hook_idx == 0,
        cs.len() <= s.hooks.len(),
    ensures
        hook_calls(s, cs).hook_idx == cs.len(),
        hook_calls(s, cs).hooks.len() == s.hooks.len(),
        forall|k: int| 0 <= k < cs.len() ==> #[trigger] hook_calls(s, cs).hooks[k] == later_hook(cs[k], s.hooks[k]),
        forall|k: int| cs.len() <= k < s.hooks.len() ==> #[trigger] hook_calls(s, cs).hooks[k] == s.hooks[k],
        hook_calls(s, cs).drops == s.drops,
        hook_calls(s, cs).child_contexts == s.child_contexts,
        hook_calls(s, cs).key == s.key,
        hook_calls(s, cs).contexts == s.contexts,
        hook_calls(s, cs).generation == s.generation,
    decreases cs.len(),
{
    if cs.len() > 0 {
        let d = cs.drop_last();
        lemma_later_round(s, d);
        let t = hook_calls(s, d);
        let j = d.len() as int;
        assert(!t.creates_slot());
        assert forall|k: int| 0 <= k < cs.len() implies #[trigger] hook_calls(s, cs).hooks[k] == later_hook(cs[k], s.hooks[k]) by {
            if k < j {
                assert(cs[k] == d[k]);
                assert(hook_calls(s, cs).hooks[k] == t.hooks[k]);
            }
        }
    }
}

/// Hooks called in the same order with the same kinds on every composition
/// of a scope: the first composition creates one slot per call, at
/// generation zero, and later compositions create none. A stored value or a
/// provided context is made once, by the first composition, and kept; a
/// callback or a drop function is replaced by each composition, so the slot
/// holds the latest one. Drop functions and provided contexts are
/// registered once, at the first composition, and the scope's own contexts
/// are left as they are.
pub proof fn hooks_across_compositions<V>(key: u64, contexts: Map<u64, ContextRef>, rounds: Seq<Seq<HookCall<V>>>)
    requires
        same_hook_order(rounds),
        rounds[0].len() <= usize::MAX,
    ensures
        ({
            let s = compositions(ScopeView::<V>::fresh(key, contexts), rounds);
            let n = rounds[0].len();
            &&& s.hooks.len() == n
            &&& s.hook_idx == n
            &&& s.generation == rounds.len()
            &&& forall|k: int| 0 <= k < n ==> #[trigger] s.hooks[k] == Hook { value: kept_value(rounds, k), generation: 0 }
            &&& s.drops == drop_positions(rounds[0])
            &&& s.child_contexts == provided(key, rounds[0])
            &&& s.contexts == contexts
        }),
    decreases rounds.len(),
{
    let fresh = ScopeView::<V>::fresh(key, contexts);
    let n = rounds[0].len();
    if rounds.len() == 1 {
        assert(rounds.drop_last() =~= Seq::<Seq<HookCall<V>>>::empty());
        assert(compositions(fresh, rounds.drop_last()) == fresh);
        assert(rounds.last() == rounds[0]);
        lemma_first_round(fresh.begin_compose(), rounds[0]);
        let s = compositions(fresh, rounds);
        assert(s == hook_calls(fresh.begin_compose(), rounds[0]));
        assert forall|k: int| 0 <= k < n implies #[trigger] s.hooks[k] == Hook { value: kept_value(rounds, k), generation: 0 } by {
            assert(s.hooks[k] == Hook { value: rounds[0][k].payload(), generation: 0 });
        }
    } else {
        let r = rounds.drop_last();
        assert(r[0] == rounds[0]);
        assert forall|i: int| 0 <= i < r.len() implies (#[trigger] r[i]).len() == r[0].len() by {
            assert(r[i] == rounds[i]);
        }
        assert forall|i: int, k: int| 0 <= i < r.len() && 0 <= k < r[0].len() implies (#[trigger] r[i][k]).same_kind(r[0][k]) by {
            assert(r[i] == rounds[i]);
        }
        hooks_across_compositions(key, contexts, r);
        let prev = compositions(fresh, r);
        let last = rounds.last();
        assert(last == rounds[rounds.len() - 1]);
        assert(last.len() == n);
        lemma_later_round(prev.begin_compose(), last);
        let s = compositions(fresh, rounds);
        assert forall|k: int| 0 <= k < n implies #[trigger] s.hooks[k] == Hook { value: kept_value(rounds, k), generation: 0 } by {
            assert(s.hooks[k] == later_hook(last[k], prev.hooks[k]));
            assert(prev.hooks[k] == Hook { value: kept_value(r, k), generation: 0 });
            assert(last[k].same_kind(rounds[0][k]));
            if rounds[0][k].keeps_first() {
                assert(last[k].keeps_first());
            } else {
                assert(!last[k].keeps_first());
            }
        }
    }
}

/// The scope and the results after the context calls `ts`, in order.
pub open spec fn context_calls<V>(s: ScopeView<V>, ts: Seq<u64>) -> (ScopeView<V>, Seq<Result<ContextRef, ContextError>>)
    decreases ts.len(),
{
    if ts.len() == 0 {
        (s, Seq::empty())
    } else {
        let (t, rs) = context_calls(s, ts.drop_last());
        let (u, r) = t.use_context(ts.last());
        (u, rs.push(r))
    }
}

proof fn lemma_first_context_calls<V>(s: ScopeView<V>, ts: Seq<u64>)
    requires
        s.context_idx == 0,
        s.context_hooks.len() == 0,
    ensures
        context_calls(s, ts).0.context_hooks == context_calls(s, ts).1,
        context_calls(s, ts).0.context_idx == ts.len(),
        context_calls(s, ts).0.contexts == s.contexts,
        context_calls(s, ts).1.len() == ts.len(),
        forall|i: int| 0 <= i < ts.len() ==> #[trigger] context_calls(s, ts).1[i] == s.context_lookup(ts[i]),
    decreases ts.len(),
{
    if ts.len() > 0 {
        let d = ts.drop_last();
        lemma_first_context_calls(s, d);
        assert forall|i: int| 0 <= i < ts.len() implies #[trigger] context_calls(s, ts).1[i] == s.context_lookup(ts[i]) by {
            if i < d.len() {
                assert(ts[i] == d[i]);
            }
        }
    }
}

proof fn lemma_later_context_calls<V>(s: ScopeView<V>, ts: Seq<u64>)
    requires
        s.context_idx == 0,
        ts.len() <= s.context_hooks.len(),
    ensures
        context_calls(s, ts).0.context_hooks == s.context_hooks,
        context_calls(s, ts).0.context_idx == ts.len(),
        context_calls(s, ts).1 == s.context_hooks.take(ts.len() as int),
    decreases ts.len(),
{
    if ts.len() > 0 {
        lemma_later_context_calls(s, ts.drop_last());
        assert(s.context_hooks.take(ts.len() as int) =~= s.context_hooks.take(ts.len() - 1).push(
            s.context_hooks[ts.len() - 1],
        ));
    }
}

/// Context calls look each type up on a scope's first composition, in the
/// contexts the scope sees then, and keep the result: on a later
/// composition the call at each position hands back that same result,
/// whatever the scope sees by then.
pub proof fn context_fixed_at_first_composition<V>(s: ScopeView<V>, first: Seq<u64>, t: ScopeView<V>, later: Seq<u64>)
    requires
        s.context_hooks.len() == 0,
        t.context_hooks == context_calls(s.begin_compose(), first).0.context_hooks,
        later.len() <= first.len(),
    ensures
        forall|i: int| 0 <= i < first.len() ==> #[trigger] context_calls(s.begin_compose(), first).1[i]
            == s.context_lookup(first[i]),
        context_calls(t.begin_compose(), later).1 == context_calls(s.begin_compose(), first).1.take(later.len() as int),
        context_calls(t.begin_compose(), later).0.context_hooks == t.context_hooks,
{
    lemma_first_context_calls(s.begin_compose(), first);
    lemma_later_context_calls(t.begin_compose(), later);
}

/// The write that `set_if_neq` queues for a changed value, or `use_effect`
/// for a changed dependency, stores the value in its slot one generation
/// later once applied, and queues the scope for composition.
pub proof fn assign_and_recompose_takes_effect<V, F>(st: UpdateState<V>, scope: u64, slot: usize, value: V)
    requires
        st.scopes.contains_key(scope),
        slot < st.scopes[scope].hooks.len(),
    ensures
        ({
            let u = PendingUpdate::<V, F> { scope, slot, op: UpdateOp::Assign(value), recompose: true };
            let after = apply_update(st, u, value);
            &&& after.scopes[scope].hooks[slot as int].value == value
            &&& after.scopes[scope].hooks[slot as int].generation == next_generation(
                st.scopes[scope].hooks[slot as int].generation,
            )
            &&& after.pending.contains(scope)
        }),
{
    let u = PendingUpdate::<V, F> { scope, slot, op: UpdateOp::Assign(value), recompose: true };
    assert(update_applies(st, u));
    assert(apply_update(st, u, value).scopes[scope] == st.scopes[scope].write(slot as int, value));
    if !st.pending.contains(scope) {
        assert(st.pending.push(scope)[st.pending.len() as int] == scope);
    }
}

} // verus!
