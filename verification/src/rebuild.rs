//! Rebuilding a node: whether a composable runs again, and memoized nodes
//! that only rebuild when their hash changes.

use vstd::prelude::*;
use crate::composer::Composer;

verus! {

/// Context handed from a node to its children while rebuilding.
#[derive(Clone, Copy, Debug, PartialEq, Eq, Structural)]
pub struct RebuildContext {
    /// Whether an ancestor was composed again.
    pub is_changed: bool,
}

impl RebuildContext {
    /// A context in which nothing changed.
    pub fn new() -> (r: Self)
        ensures
            !r.is_changed,
    {
        RebuildContext { is_changed: false }
    }
}

/// Node of a composable.
pub struct ComposeNode<C> {
    /// The composable.
    pub compose: C,
}

impl<C> ComposeNode<C> {
    /// Create the node of a composable.
    pub fn new(compose: C) -> (r: Self)
        ensures
            r.compose == compose,
    {
        ComposeNode { compose }
    }

    /// Decide whether the composable at `key` runs again in this rebuild.
    ///
    /// It does when an ancestor ran again (`cx.is_changed`), and otherwise
    /// when its own scope was set as changed, which clears the flag. A
    /// composable that runs again starts a new composition of its scope.
    /// Returns the context for its children.
    pub fn rebuild<V, F>(&self, composer: &mut Composer<V, F>, key: u64, cx: RebuildContext) -> (r: RebuildContext)
        requires
            old(composer).wf(),
            old(composer).nodes().contains_key(key),
            old(composer).scope(key).generation < u64::MAX,
        ensures
            final(composer).wf(),
            r.is_changed == (cx.is_changed || old(composer).scope(key).is_changed),
            old(composer).only_scope_changed(*final(composer), key),
            cx.is_changed ==> final(composer).scope(key) == old(composer).scope(key).begin_compose(),
            !cx.is_changed && r.is_changed ==> final(composer).scope(key) == old(composer).scope(
                key,
            ).cleared().begin_compose(),
            !r.is_changed ==> final(composer).scope(key) == old(composer).scope(key).cleared(),
    {
        let is_changed = cx.is_changed || composer.take_changed(key);
        if is_changed {
            composer.begin_compose(key);
        }
        RebuildContext { is_changed }
    }
}

/// Node that rebuilds its child only when its hash changes.
pub struct MemoNode<T> {
    /// Hash of the memoized composable.
    pub hash: u64,
    /// Node of the memoized composable.
    pub node: T,
}

impl<T> MemoNode<T> {
    /// The state of a memoized node: the hash it was built with.
    pub fn build(&self) -> (h: u64)
        ensures
            h == self.hash,
    {
        self.hash
    }
}

impl<C> MemoNode<ComposeNode<C>> {
    /// Rebuild against the hash of the last build, stored in `last_hash`,
    /// then rebuild the inner node at `key` with a context that is changed
    /// exactly when the hash differs; a differing hash is stored. Returns
    /// the context the inner node hands to its children.
    pub fn rebuild<V, F>(&self, last_hash: &mut u64, composer: &mut Composer<V, F>, key: u64, cx: RebuildContext) -> (r: RebuildContext)
        requires
            old(composer).wf(),
            old(composer).nodes().contains_key(key),
            old(composer).scope(key).generation < u64::MAX,
        ensures
            *final(last_hash) == self.hash,
            final(composer).wf(),
            old(composer).only_scope_changed(*final(composer), key),
            r.is_changed == (self.hash != *old(last_hash) || old(composer).scope(key).is_changed),
            self.hash != *old(last_hash) ==> final(composer).scope(key) == old(composer).scope(key).begin_compose(),
            self.hash == *old(last_hash) && r.is_changed ==> final(composer).scope(key) == old(composer).scope(
                key,
            ).cleared().begin_compose(),
            !r.is_changed ==> final(composer).scope(key) == old(composer).scope(key).cleared(),
    {
        let is_changed = if self.hash != *last_hash {
            *last_hash = self.hash;
            true
        } else {
            false
        };
        self.node.rebuild(composer, key, RebuildContext { is_changed })
    }
}

/// Memoized composable: its content only rebuilds when its hash changes.
pub struct Memo<C> {
    /// The memoized composable.
    pub compose: C,
}

impl<C> Memo<C> {
    /// Create a memoized composable.
    pub fn new(compose: C) -> (r: Self)
        ensures
            r.compose == compose,
    {
        Memo { compose }
    }

    /// The node of this memoized composable, for the hash of its content.
    pub fn into_node(self, hash: u64) -> (r: MemoNode<ComposeNode<C>>)
        ensures
            r.hash == hash,
            r.node.compose == self.compose,
    {
        MemoNode { hash, node: ComposeNode::new(self.compose) }
    }
}

} // verus!
