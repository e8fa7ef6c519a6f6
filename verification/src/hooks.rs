//! Hooks that compare a dependency with the one of the last composition:
//! memoized values and effects.

use vstd::prelude::*;
use vstd::std_specs::cmp::PartialEqSpec;
use crate::composer::{Composer, PendingUpdate, UpdateOp, queued};

verus! {

impl<V, F> Composer<V, F> {
    /// Use a memoized value with a dependency, stored in the next two hook
    /// slots of `key` (the value, then the dependency).
    ///
    /// On the first composition `make_value` gives the value and `dep` is
    /// stored. Later, when `dep` differs from the stored dependency,
    /// `make_value` is called and writes of the new value and of `dep` are
    /// queued; they take effect once the updates are applied. Returns the
    /// value slot.
    pub fn use_memo<G: FnOnce() -> V>(&mut self, key: u64, dep: V, make_value: G) -> (slot: usize)
        where V: PartialEq,
        requires
            old(self).wf(),
            old(self).nodes().contains_key(key),
            old(self).scope(key).hook_idx + 1 < usize::MAX,
            make_value.requires(()),
        ensures
            final(self).wf(),
            final(self).nodes() == old(self).nodes(),
            final(self).pending() == old(self).pending(),
            final(self).root() == old(self).root(),
            final(self).tasks() == old(self).tasks(),
            final(self).is_initial() == old(self).is_initial(),
            final(self).dropped() == old(self).dropped(),
            forall|n: u64| n != key ==> #[trigger] final(self).scope(n) == old(self).scope(n),
            forall|n: u64| #[trigger] final(self).has_scope(n) == old(self).has_scope(n),
            slot == old(self).scope(key).hook_idx,
            slot + 1 < final(self).scope(key).hooks.len(),
            // First composition: both slots are created.
            old(self).scope(key).creates_slot() ==> exists|v: V| {
                &&& make_value.ensures((), v)
                &&& final(self).scope(key) == old(self).scope(key).use_ref(v).use_ref(dep)
                &&& final(self).updates() == old(self).updates()
            },
            // Later compositions: both slots are kept, and a changed
            // dependency queues the writes.
            !old(self).scope(key).creates_slot() ==> {
                let s0 = old(self).scope(key);
                let s1 = s0.use_ref(s0.hooks[slot as int].value);
                &&& final(self).scope(key) == s1.use_ref(if s1.creates_slot() { dep } else { s1.hooks[slot + 1].value })
                &&& (final(self).updates() == old(self).updates() || exists|v: V| {
                    &&& make_value.ensures((), v)
                    &&& final(self).updates() == old(self).updates().push(
                        PendingUpdate { scope: key, slot, op: UpdateOp::Assign(v), recompose: false },
                    ).push(PendingUpdate { scope: key, slot: (slot + 1) as usize, op: UpdateOp::Assign(dep), recompose: false })
                })
                &&& V::obeys_eq_spec() && !s1.creates_slot() ==> (final(self).updates() == old(self).updates()
                    <==> dep.eq_spec(&s1.hooks[slot + 1].value))
                &&& s1.creates_slot() ==> final(self).updates() == old(self).updates()
            },
    {
        let creating = self.hook_idx(key) >= self.hook_count(key);
        if creating {
            let value_slot = self.use_ref(key, make_value);
            let _ = self.use_ref(key, move || -> (r: V) ensures r == dep { dep });
            value_slot
        } else {
            let value_slot = self.reuse_ref(key);
            if self.hook_idx(key) >= self.hook_count(key) {
                let _ = self.use_ref(key, move || -> (r: V) ensures r == dep { dep });
            } else {
                let last_slot = self.reuse_ref(key);
                let changed = dep != *self.hook(key, last_slot);
                if changed {
                    let value = make_value();
                    let m = self.signal_mut(key, value_slot);
                    self.queue_update(m, UpdateOp::Assign(value), false);
                    let m2 = self.signal_mut(key, last_slot);
                    self.queue_update(m2, UpdateOp::Assign(dep), false);
                    assert(last_slot == value_slot + 1);
                    assert(self.updates() == old(self).updates().push(
                        PendingUpdate { scope: key, slot: value_slot, op: UpdateOp::Assign(value), recompose: false },
                    ).push(PendingUpdate { scope: key, slot: (value_slot + 1) as usize, op: UpdateOp::Assign(dep), recompose: false }));
                }
            }
            value_slot
        }
    }

    /// Use an effect that runs when `dep` changes, with the dependency
    /// stored in the next hook slot of `key`.
    ///
    /// On the first composition `dep` is stored and `effect` runs with it.
    /// Later, when `dep` differs from the stored dependency, `effect` runs
    /// with `dep` and a write of `dep` is queued, which composes the scope
    /// again once applied. Returns whether `effect` ran.
    pub fn use_effect<E: FnOnce(&V)>(&mut self, key: u64, dep: V, effect: E) -> (ran: bool)
        where V: PartialEq,
        requires
            old(self).wf(),
            old(self).nodes().contains_key(key),
            old(self).scope(key).hook_idx < usize::MAX,
            forall|v: &V| effect.requires((v,)),
        ensures
            final(self).wf(),
            final(self).nodes() == old(self).nodes(),
            final(self).pending() == old(self).pending(),
            final(self).root() == old(self).root(),
            final(self).tasks() == old(self).tasks(),
            final(self).is_initial() == old(self).is_initial(),
            final(self).dropped() == old(self).dropped(),
            forall|n: u64| n != key ==> #[trigger] final(self).scope(n) == old(self).scope(n),
            forall|n: u64| #[trigger] final(self).has_scope(n) == old(self).has_scope(n),
            old(self).scope(key).creates_slot() ==> {
                &&& ran
                &&& effect.ensures((&dep,), ())
                &&& final(self).scope(key) == old(self).scope(key).use_ref(dep)
                &&& final(self).updates() == old(self).updates()
            },
            !old(self).scope(key).creates_slot() ==> {
                let s0 = old(self).scope(key);
                let slot = s0.hook_idx as int;
                &&& final(self).scope(key) == s0.use_ref(s0.hooks[slot].value)
                &&& ran ==> effect.ensures((&dep,), ()) && final(self).updates() == old(self).updates().push(
                    PendingUpdate { scope: key, slot: slot as usize, op: UpdateOp::Assign(dep), recompose: true },
                )
                &&& !ran ==> final(self).updates() == old(self).updates()
                &&& V::obeys_eq_spec() ==> (ran <==> !dep.eq_spec(&s0.hooks[slot].value))
            },
    {
        let creating = self.hook_idx(key) >= self.hook_count(key);
        if creating {
            let slot = self.use_ref(key, move || -> (r: V) ensures r == dep { dep });
            effect(self.hook(key, slot));
            true
        } else {
            let slot = self.reuse_ref(key);
            if dep != *self.hook(key, slot) {
                effect(&dep);
                let m = self.signal_mut(key, slot);
                self.queue_update(m, UpdateOp::Assign(dep), true);
                true
            } else {
                false
            }
        }
    }
}

} // verus!
