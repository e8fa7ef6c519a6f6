//! Scope state of a composable: its hooks, generation and contexts.
//!
//! Hooks are stored by position: the `n`-th hook call of a composition reads
//! the `n`-th slot, and only the first composition creates the slot.

use vstd::prelude::*;
use std::collections::HashMap;
use crate::pointer::{Signal, SignalMut};

verus! {

broadcast use vstd::std_specs::hash::group_hash_axioms;

/// One hook slot: the stored value and the generation of that value.
pub struct Hook<V> {
    /// Stored value.
    pub value: V,
    /// Number of updates applied to this value.
    pub generation: u64,
}

/// Where a context value lives: the scope that provided it and the hook slot
/// that holds it.
#[derive(Clone, Copy, Debug, PartialEq, Eq, Structural)]
pub struct ContextRef {
    /// Key of the providing scope.
    pub scope: u64,
    /// Hook slot of the providing scope that holds the value.
    pub slot: usize,
}

/// Error for a missing context.
#[derive(Clone, Copy, Debug, PartialEq, Eq, Structural)]
pub struct ContextError {
    /// Type key that was looked up.
    pub type_key: u64,
}

/// Mathematical model of a [`ScopeData`].
pub struct ScopeView<V> {
    /// Key of this scope.
    pub key: u64,
    /// Hook slots in the order they were created.
    pub hooks: Seq<Hook<V>>,
    /// Index of the next hook call in the current composition.
    pub hook_idx: nat,
    /// Number of compositions of this scope.
    pub generation: nat,
    /// Whether this scope asked to be composed again.
    pub is_changed: bool,
    /// Context values visible to this scope, by type key.
    pub contexts: Map<u64, ContextRef>,
    /// Context values this scope provides to its children, in provision order.
    pub child_contexts: Seq<(u64, ContextRef)>,
    /// Hook slots holding functions to run when this scope is dropped, in
    /// registration order.
    pub drops: Seq<usize>,
    /// Results of the context calls of the first composition, by position.
    pub context_hooks: Seq<Result<ContextRef, ContextError>>,
    /// Index of the next context call in the current composition.
    pub context_idx: nat,
}

/// The generation after `g`: one more, wrapping around to zero after
/// `u64::MAX`.
pub open spec fn next_generation(g: u64) -> u64 {
    if g == u64::MAX {
        0
    } else {
        (g + 1) as u64
    }
}

/// Map of context entries, where a later entry overrides an earlier one.
pub open spec fn context_entries_map(base: Map<u64, ContextRef>, entries: Seq<(u64, ContextRef)>) -> Map<u64, ContextRef>
    decreases entries.len(),
{
    if entries.len() == 0 {
        base
    } else {
        context_entries_map(base, entries.drop_last()).insert(entries.last().0, entries.last().1)
    }
}

impl<V> ScopeView<V> {
    /// A well-formed scope never reads past the slots it created.
    pub open spec fn wf(self) -> bool {
        &&& self.hook_idx <= self.hooks.len()
        &&& self.context_idx <= self.context_hooks.len()
        &&& forall|i: int| 0 <= i < self.drops.len() ==> (#[trigger] self.drops[i]) < self.hooks.len()
        &&& forall|i: int, j: int| 0 <= i < j < self.drops.len() ==> (#[trigger] self.drops[i]) < (#[trigger] self.drops[j])
    }

    /// This scope with its changed flag cleared.
    pub open spec fn cleared(self) -> ScopeView<V> {
        ScopeView { is_changed: false, ..self }
    }

    /// Start a composition: hook calls start again from the first slot.
    pub open spec fn begin_compose(self) -> ScopeView<V> {
        ScopeView { hook_idx: 0, context_idx: 0, generation: self.generation + 1, ..self }
    }

    /// The hook call at `hook_idx`, where `made` is what the value maker would
    /// return: an existing slot is kept, a new slot stores `made`.
    pub open spec fn use_ref(self, made: V) -> ScopeView<V> {
        if self.hook_idx < self.hooks.len() {
            ScopeView { hook_idx: self.hook_idx + 1, ..self }
        } else {
            ScopeView {
                hooks: self.hooks.push(Hook { value: made, generation: 0 }),
                hook_idx: self.hook_idx + 1,
                ..self
            }
        }
    }

    /// A write of `value` to `slot`, counted in the slot's generation.
    pub open spec fn write(self, slot: int, value: V) -> ScopeView<V> {
        ScopeView {
            hooks: self.hooks.update(slot, Hook { value, generation: next_generation(self.hooks[slot].generation) }),
            ..self
        }
    }

    /// `slot` now holds `value`, keeping its generation.
    pub open spec fn replace(self, slot: int, value: V) -> ScopeView<V> {
        ScopeView {
            hooks: self.hooks.update(slot, Hook { value, generation: self.hooks[slot].generation }),
            ..self
        }
    }

    /// The hook call of a callback `f` at `hook_idx`: a new slot stores `f`,
    /// an existing slot is overwritten with `f`.
    pub open spec fn use_callback(self, f: V) -> ScopeView<V> {
        if self.hook_idx < self.hooks.len() {
            ScopeView { hook_idx: self.hook_idx + 1, ..self.replace(self.hook_idx as int, f) }
        } else {
            self.use_ref(f)
        }
    }

    /// Whether the next hook call creates a new slot.
    pub open spec fn creates_slot(self) -> bool {
        self.hook_idx >= self.hooks.len()
    }

    /// Context values a child of this scope starts with: this scope's own
    /// contexts, overridden by the values this scope provides.
    pub open spec fn contexts_for_child(self) -> Map<u64, ContextRef> {
        context_entries_map(self.contexts, self.child_contexts)
    }

    /// A fresh scope with the given key and contexts.
    pub open spec fn fresh(key: u64, contexts: Map<u64, ContextRef>) -> ScopeView<V> {
        ScopeView {
            key,
            hooks: Seq::empty(),
            hook_idx: 0,
            generation: 0,
            is_changed: false,
            contexts,
            child_contexts: Seq::empty(),
            drops: Seq::empty(),
            context_hooks: Seq::empty(),
            context_idx: 0,
        }
    }

    /// The context value of type `type_key` this scope sees now.
    pub open spec fn context_lookup(self, type_key: u64) -> Result<ContextRef, ContextError> {
        if self.contexts.contains_key(type_key) {
            Ok(self.contexts[type_key])
        } else {
            Err(ContextError { type_key })
        }
    }

    /// The context call of type `type_key` at `context_idx`: the result of
    /// the first composition at that position, or, the first time, what the
    /// scope sees now, which is kept for later compositions.
    pub open spec fn use_context(self, type_key: u64) -> (ScopeView<V>, Result<ContextRef, ContextError>) {
        if self.context_idx < self.context_hooks.len() {
            (ScopeView { context_idx: self.context_idx + 1, ..self }, self.context_hooks[self.context_idx as int])
        } else {
            (
                ScopeView {
                    context_hooks: self.context_hooks.push(self.context_lookup(type_key)),
                    context_idx: self.context_idx + 1,
                    ..self
                },
                self.context_lookup(type_key),
            )
        }
    }

    /// The hook call of a drop function `f` at `hook_idx`: as a callback,
    /// and a new slot is registered to run when the scope is dropped.
    pub open spec fn use_drop(self, f: V) -> ScopeView<V> {
        if self.hook_idx < self.hooks.len() {
            self.use_callback(f)
        } else {
            ScopeView { drops: self.drops.push(self.hook_idx as usize), ..self.use_ref(f) }
        }
    }

    /// The hook call of a provider of type `type_key` at `hook_idx`, where
    /// `made` is what the value maker would return: as a stored value, and a
    /// new slot is offered to the children under `type_key`.
    pub open spec fn use_provider(self, type_key: u64, made: V) -> ScopeView<V> {
        if self.hook_idx < self.hooks.len() {
            self.use_ref(made)
        } else {
            ScopeView {
                child_contexts: self.child_contexts.push(
                    (type_key, ContextRef { scope: self.key, slot: self.hook_idx as usize }),
                ),
                ..self.use_ref(made)
            }
        }
    }

    /// The functions to run when this scope is dropped, in registration order.
    pub open spec fn drop_fns(self) -> Seq<V> {
        self.drops.map_values(|i: usize| self.hooks[i as int].value)
    }
}

/// State of a composable.
pub struct ScopeData<V> {
    key: u64,
    hooks: Vec<Hook<V>>,
    hook_idx: usize,
    generation: u64,
    is_changed: bool,
    contexts: HashMap<u64, ContextRef>,
    child_contexts: Vec<(u64, ContextRef)>,
    drops: Vec<usize>,
    context_hooks: Vec<Result<ContextRef, ContextError>>,
    context_idx: usize,
}

impl<V> View for ScopeData<V> {
    type V = ScopeView<V>;

    closed spec fn view(&self) -> ScopeView<V> {
        ScopeView {
            key: self.key,
            hooks: self.hooks@,
            hook_idx: self.hook_idx as nat,
            generation: self.generation as nat,
            is_changed: self.is_changed,
            contexts: self.contexts@,
            child_contexts: self.child_contexts@,
            drops: self.drops@,
            context_hooks: self.context_hooks@,
            context_idx: self.context_idx as nat,
        }
    }
}

impl<V> ScopeData<V> {
    /// Create an empty scope with the given key and contexts.
    pub fn new(key: u64, contexts: HashMap<u64, ContextRef>) -> (s: Self)
        ensures
            s@ == ScopeView::<V>::fresh(key, contexts@),
    {
        ScopeData {
            key,
            hooks: Vec::new(),
            hook_idx: 0,
            generation: 0,
            is_changed: false,
            contexts,
            child_contexts: Vec::new(),
            drops: Vec::new(),
            context_hooks: Vec::new(),
            context_idx: 0,
        }
    }

    /// Key of this scope.
    pub fn key(&self) -> (k: u64)
        ensures
            k == self@.key,
    {
        self.key
    }

    /// Current generation of this scope.
    pub fn generation(&self) -> (g: u64)
        ensures
            g == self@.generation,
    {
        self.generation
    }

    /// Number of hook slots.
    pub fn hook_count(&self) -> (n: usize)
        ensures
            n == self@.hooks.len(),
    {
        self.hooks.len()
    }

    /// Index of the next hook call.
    pub fn hook_idx(&self) -> (i: usize)
        ensures
            i == self@.hook_idx,
    {
        self.hook_idx
    }

    /// Set this scope as changed, so that it is composed again.
    pub fn set_changed(&mut self)
        ensures
            final(self)@ == (ScopeView { is_changed: true, ..old(self)@ }),
    {
        self.is_changed = true;
    }

    /// Returns `true` if this scope was set as changed, and clears the flag.
    pub fn take_changed(&mut self) -> (was: bool)
        ensures
            was == old(self)@.is_changed,
            final(self)@ == (ScopeView { is_changed: false, ..old(self)@ }),
    {
        let was = self.is_changed;
        self.is_changed = false;
        was
    }

    /// Start a composition of this scope: reset the hook index and increment
    /// the generation.
    pub fn begin_compose(&mut self)
        requires
            old(self)@.generation < u64::MAX,
        ensures
            final(self)@ == old(self)@.begin_compose(),
    {
        self.hook_idx = 0;
        self.context_idx = 0;
        self.generation = self.generation + 1;
    }

    /// Use a value of type `V`, stored in the next hook slot.
    ///
    /// `make_value` is only called when the slot does not exist yet, that is
    /// on the first composition. Returns the slot.
    pub fn use_ref<F: FnOnce() -> V>(&mut self, make_value: F) -> (slot: usize)
        requires
            old(self)@.wf(),
            old(self)@.hook_idx < usize::MAX,
            old(self)@.creates_slot() ==> make_value.requires(()),
        ensures
            slot == old(self)@.hook_idx,
            final(self)@.wf(),
            old(self)@.creates_slot() ==> exists|v: V|
                make_value.ensures((), v) && final(self)@ == old(self)@.use_ref(v),
            !old(self)@.creates_slot() ==> final(self)@ == old(self)@.use_ref(
                old(self)@.hooks[slot as int].value,
            ),
            slot < final(self)@.hooks.len(),
    {
        let idx = self.hook_idx;
        self.hook_idx = idx + 1;
        if idx >= self.hooks.len() {
            let v = make_value();
            self.hooks.push(Hook { value: v, generation: 0 });
            assert(self@ == old(self)@.use_ref(v));
        } else {
            assert(self@ =~= old(self)@.use_ref(old(self)@.hooks[idx as int].value));
        }
        idx
    }

    /// Move to the next hook slot, which already exists, and return it.
    pub fn reuse_ref(&mut self) -> (slot: usize)
        requires
            old(self)@.wf(),
            !old(self)@.creates_slot(),
        ensures
            slot == old(self)@.hook_idx,
            final(self)@ == old(self)@.use_ref(old(self)@.hooks[slot as int].value),
            final(self)@.wf(),
            slot < final(self)@.hooks.len(),
    {
        let idx = self.hook_idx;
        let n = self.hooks.len();
        assert(idx < n);
        self.hook_idx = idx + 1;
        assert(self@ =~= old(self)@.use_ref(old(self)@.hooks[idx as int].value));
        idx
    }

    /// Use a callback stored in the next hook slot: every composition stores
    /// its `f` there, so the slot holds the callback of the latest
    /// composition. Returns the slot.
    pub fn use_callback(&mut self, f: V) -> (slot: usize)
        requires
            old(self)@.wf(),
            old(self)@.hook_idx < usize::MAX,
        ensures
            slot == old(self)@.hook_idx,
            final(self)@ == old(self)@.use_callback(f),
            final(self)@.wf(),
            slot < final(self)@.hooks.len(),
    {
        let idx = self.hook_idx;
        self.hook_idx = idx + 1;
        if idx < self.hooks.len() {
            let g = self.hooks[idx].generation;
            self.hooks.set(idx, Hook { value: f, generation: g });
            assert(self@ =~= old(self)@.use_callback(f));
        } else {
            self.hooks.push(Hook { value: f, generation: 0 });
            assert(self@ =~= old(self)@.use_callback(f));
        }
        idx
    }

    /// Use a function to run when this scope is dropped, stored in the next
    /// hook slot: every composition stores its `f` there, and the slot is
    /// registered on the first composition. Returns the slot.
    pub fn use_drop(&mut self, f: V) -> (slot: usize)
        requires
            old(self)@.wf(),
            old(self)@.hook_idx < usize::MAX,
        ensures
            slot == old(self)@.hook_idx,
            final(self)@ == old(self)@.use_drop(f),
            final(self)@.wf(),
            slot < final(self)@.hooks.len(),
    {
        let creates = self.hook_idx >= self.hooks.len();
        let slot = self.use_callback(f);
        if creates {
            self.drops.push(slot);
            assert(self@ =~= old(self)@.use_drop(f));
        }
        slot
    }

    /// Consume this scope and return its drop functions, in registration
    /// order.
    pub fn into_drop_fns(self) -> (r: Vec<V>)
        requires
            self@.wf(),
        ensures
            r@ == self@.drop_fns(),
    {
        let ghost view = self@;
        let ScopeData { hooks, drops, .. } = self;
        let mut hooks = hooks;
        let mut rev: Vec<V> = Vec::new();
        let mut d: usize = drops.len();
        assert forall|k: int| 0 <= k < d implies (#[trigger] drops@[k]) < hooks@.len() by {
            assert(view.drops[k] < view.hooks.len());
        }
        while hooks.len() > 0
            invariant
                view.wf(),
                drops@ == view.drops,
                hooks@ == view.hooks.take(hooks@.len() as int),
                hooks@.len() <= view.hooks.len(),
                d <= drops@.len(),
                forall|k: int| 0 <= k < d ==> (#[trigger] drops@[k]) < hooks@.len(),
                forall|k: int| d <= k < drops@.len() ==> (#[trigger] drops@[k]) >= hooks@.len(),
                rev@.len() == drops@.len() - d,
                forall|k: int| 0 <= k < rev@.len() ==> #[trigger] rev@[k] == view.drop_fns()[drops@.len() - 1 - k],
            decreases hooks@.len(),
        {
            let idx = hooks.len() - 1;
            let ghost before = hooks@;
            let h = hooks.pop().unwrap();
            assert(h == view.hooks[idx as int]);
            if d > 0 && drops[d - 1] == idx {
                rev.push(h.value);
                d = d - 1;
            }
            assert forall|k: int| 0 <= k < d implies (#[trigger] drops@[k]) < hooks@.len() by {
                if drops@[k] == idx {
                    assert(drops@[k] < drops@[d as int - 1] || k == d - 1);
                }
            }
            assert(hooks@ =~= view.hooks.take(hooks@.len() as int));
        }
        assert(d == 0) by {
            if d > 0 {
                assert(drops@[0] < 0);
            }
        }
        let mut r: Vec<V> = Vec::new();
        while rev.len() > 0
            invariant
                r@.len() + rev@.len() == view.drops.len(),
                forall|k: int| 0 <= k < rev@.len() ==> #[trigger] rev@[k] == view.drop_fns()[view.drops.len() - 1 - k],
                forall|k: int| 0 <= k < r@.len() ==> #[trigger] r@[k] == view.drop_fns()[k],
            decreases rev@.len(),
        {
            let v = rev.pop().unwrap();
            r.push(v);
        }
        assert(r@ =~= view.drop_fns());
        r
    }

    /// Store `value` in an existing hook slot and count the write in the
    /// slot's generation, which wraps around at `u64::MAX`.
    pub fn write_hook(&mut self, slot: usize, value: V)
        requires
            slot < old(self)@.hooks.len(),
        ensures
            final(self)@ == old(self)@.write(slot as int, value),
    {
        let g = self.hooks[slot].generation;
        self.hooks.set(slot, Hook { value, generation: g.wrapping_add(1) });
        assert(self@ =~= old(self)@.write(slot as int, value));
    }

    /// The value stored in a hook slot.
    pub fn hook(&self, slot: usize) -> (v: &V)
        requires
            slot < self@.hooks.len(),
        ensures
            *v == self@.hooks[slot as int].value,
    {
        &self.hooks[slot].value
    }

    /// Immutable reference to a hook slot, tagged with the slot's generation.
    pub fn signal(&self, slot: usize) -> (s: Signal<'_, V>)
        requires
            slot < self@.hooks.len(),
        ensures
            *s.value == self@.hooks[slot as int].value,
            s.generation == self@.hooks[slot as int].generation,
    {
        let h = &self.hooks[slot];
        Signal::new(&h.value, h.generation)
    }

    /// Use a mutable value of type `V`, stored in the next hook slot.
    ///
    /// `make_value` is only called on the first composition.
    pub fn use_mut<F: FnOnce() -> V>(&mut self, make_value: F) -> (m: SignalMut)
        requires
            old(self)@.wf(),
            old(self)@.hook_idx < usize::MAX,
            old(self)@.creates_slot() ==> make_value.requires(()),
        ensures
            m.scope_key == old(self)@.key,
            m.slot == old(self)@.hook_idx,
            m.generation == final(self)@.hooks[m.slot as int].generation,
            final(self)@.wf(),
            old(self)@.creates_slot() ==> exists|v: V|
                make_value.ensures((), v) && final(self)@ == old(self)@.use_ref(v),
            !old(self)@.creates_slot() ==> final(self)@ == old(self)@.use_ref(
                old(self)@.hooks[m.slot as int].value,
            ),
            m.slot < final(self)@.hooks.len(),
    {
        let slot = self.use_ref(make_value);
        let generation = self.hooks[slot].generation;
        SignalMut::new(self.key, slot, generation)
    }

    /// Provide a context value for the children of this scope.
    ///
    /// On the first composition `make_value` is stored in the next hook slot
    /// and offered to children under `type_key`; later compositions keep both.
    pub fn use_provider<F: FnOnce() -> V>(&mut self, type_key: u64, make_value: F) -> (slot: usize)
        requires
            old(self)@.wf(),
            old(self)@.hook_idx < usize::MAX,
            old(self)@.creates_slot() ==> make_value.requires(()),
        ensures
            slot == old(self)@.hook_idx,
            final(self)@.wf(),
            old(self)@.creates_slot() ==> exists|v: V|
                make_value.ensures((), v) && final(self)@ == old(self)@.use_provider(type_key, v),
            !old(self)@.creates_slot() ==> final(self)@ == old(self)@.use_provider(
                type_key,
                old(self)@.hooks[slot as int].value,
            ),
            slot < final(self)@.hooks.len(),
    {
        let creates = self.hook_idx >= self.hooks.len();
        let slot = self.use_ref(make_value);
        if creates {
            let ghost mid = self@;
            self.child_contexts.push((type_key, ContextRef { scope: self.key, slot }));
            proof {
                let v = choose|v: V| make_value.ensures((), v) && mid == old(self)@.use_ref(v);
                assert(self@ == old(self)@.use_provider(type_key, v));
            }
        }
        slot
    }

    /// Use the context value of type `type_key` provided by an ancestor.
    ///
    /// The first composition looks the value up and keeps the result at this
    /// call's position; later compositions return the kept result. Returns the
    /// location of the value, or a [`ContextError`] when no ancestor provided
    /// one.
    pub fn use_context(&mut self, type_key: u64) -> (r: Result<ContextRef, ContextError>)
        requires
            old(self)@.wf(),
            old(self)@.context_idx < usize::MAX,
        ensures
            (final(self)@, r) == old(self)@.use_context(type_key),
            final(self)@.wf(),
    {
        let idx = self.context_idx;
        self.context_idx = idx + 1;
        if idx < self.context_hooks.len() {
            let r = self.context_hooks[idx];
            assert(self@ =~= old(self)@.use_context(type_key).0);
            r
        } else {
            let r = match self.contexts.get(&type_key) {
                Some(c) => Ok(*c),
                None => Err(ContextError { type_key }),
            };
            self.context_hooks.push(r);
            assert(self@ =~= old(self)@.use_context(type_key).0);
            r
        }
    }

    /// Create the scope of a child of this scope: it sees this scope's
    /// contexts and the values this scope provides.
    pub fn child(&self, key: u64) -> (s: ScopeData<V>)
        ensures
            s@ == ScopeView::<V>::fresh(key, self@.contexts_for_child()),
    {
        let mut contexts = self.contexts.clone();
        let mut i: usize = 0;
        while i < self.child_contexts.len()
            invariant
                i <= self.child_contexts@.len(),
                contexts@ == context_entries_map(self@.contexts, self.child_contexts@.take(i as int)),
            decreases self.child_contexts@.len() - i,
        {
            let (k, c) = self.child_contexts[i];
            contexts.insert(k, c);
            proof {
                assert(self.child_contexts@.take(i + 1).drop_last() =~= self.child_contexts@.take(i as int));
            }
            i = i + 1;
        }
        proof {
            assert(self.child_contexts@.take(i as int) =~= self.child_contexts@);
        }
        ScopeData::new(key, contexts)
    }

    /// Replace the contexts of this scope by those of `from`.
    pub fn adopt_contexts(&mut self, from: ScopeData<V>)
        ensures
            final(self)@ == (ScopeView { contexts: from@.contexts, ..old(self)@ }),
    {
        self.contexts = from.contexts;
    }
}

} // verus!
