//! The outside collections of the composition tree: the slot map that holds
//! the nodes and the queue of ready task keys.
//!
//! Slot map keys are handled as the `u64` that `KeyData::as_ffi` gives.

use vstd::prelude::*;
use slotmap::{DefaultKey, Key, KeyData, SlotMap};
use crossbeam_queue::SegQueue;
use crate::node::Node;

verus! {

/// The slot map of tree nodes, held opaquely: its contents are
/// `node_slots`, keyed by the `u64` form of the slot map's keys.
#[verifier::external_body]
pub struct NodeSlots {
    inner: SlotMap<DefaultKey, Node>,
}

#[verifier::external_type_specification]
#[verifier::external_body]
#[verifier::reject_recursive_types(T)]
pub struct ExSegQueue<T>(SegQueue<T>);

/// The nodes held by a slot map, by the `u64` form of their keys.
pub uninterp spec fn node_slots(m: NodeSlots) -> Map<u64, Node>;

/// The keys held by a queue, from head to tail.
pub uninterp spec fn queued_keys(q: SegQueue<u64>) -> Seq<u64>;

/// The `u64` form of a key that a slot map handed out: its version, in the
/// upper half, is odd.
pub open spec fn key_valid(k: u64) -> bool {
    (k / 0x1_0000_0000) % 2 == 1
}

/// `SlotMap::new`: an empty slot map.
#[verifier::external_body]
pub(crate) fn slots_new() -> (fresh: NodeSlots)
    ensures
        node_slots(fresh).dom().len() == 0,
        node_slots(fresh).dom().finite(),
{
    NodeSlots { inner: SlotMap::new() }
}

/// `SlotMap::insert`: stores `v` under a key that no stored value has, and
/// returns that key. The slot map panics when it would exceed `u32::MAX - 1`
/// values, which `requires` leaves out.
#[verifier::external_body]
pub(crate) fn slots_insert(m: &mut NodeSlots, v: Node) -> (k: u64)
    requires
        node_slots(*old(m)).dom().finite(),
        node_slots(*old(m)).dom().len() < u32::MAX - 1,
    ensures
        !node_slots(*old(m)).contains_key(k),
        node_slots(*final(m)) == node_slots(*old(m)).insert(k, v),
        key_valid(k),
{
    m.inner.insert(v).data().as_ffi()
}

/// `SlotMap::remove`: removes and returns the value stored under `k`.
#[verifier::external_body]
pub(crate) fn slots_remove(m: &mut NodeSlots, k: u64) -> (r: Option<Node>)
    requires
        key_valid(k),
    ensures
        node_slots(*final(m)) == node_slots(*old(m)).remove(k),
        match r {
            Some(v) => node_slots(*old(m)).contains_key(k) && v == node_slots(*old(m))[k],
            None => !node_slots(*old(m)).contains_key(k),
        },
{
    m.inner.remove(DefaultKey::from(KeyData::from_ffi(k)))
}

/// `SlotMap::get`: the value stored under `k`, if any.
#[verifier::external_body]
pub(crate) fn slots_get(m: &NodeSlots, k: u64) -> (r: Option<&Node>)
    requires
        key_valid(k),
    ensures
        match r {
            Some(v) => node_slots(*m).contains_key(k) && *v == node_slots(*m)[k],
            None => !node_slots(*m).contains_key(k),
        },
{
    m.inner.get(DefaultKey::from(KeyData::from_ffi(k)))
}

/// `SlotMap::get_mut`: overwrites the value stored under `k`, if any, and
/// returns whether there was one.
#[verifier::external_body]
pub(crate) fn slots_set(m: &mut NodeSlots, k: u64, v: Node) -> (present: bool)
    requires
        key_valid(k),
    ensures
        present == node_slots(*old(m)).contains_key(k),
        node_slots(*final(m)) == if present {
            node_slots(*old(m)).insert(k, v)
        } else {
            node_slots(*old(m))
        },
{
    match m.inner.get_mut(DefaultKey::from(KeyData::from_ffi(k))) {
        Some(slot) => {
            *slot = v;
            true
        },
        None => false,
    }
}

/// `SegQueue::new`: an empty queue.
#[verifier::external_body]
pub(crate) fn queue_new() -> (q: SegQueue<u64>)
    ensures
        queued_keys(q) == Seq::<u64>::empty(),
{
    SegQueue::new()
}

/// `SegQueue::push`: appends `k` at the tail.
#[verifier::external_body]
pub(crate) fn queue_push(q: &mut SegQueue<u64>, k: u64)
    ensures
        queued_keys(*final(q)) == queued_keys(*old(q)).push(k),
{
    q.push(k)
}

/// `SegQueue::pop`: removes and returns the head, if any.
#[verifier::external_body]
pub(crate) fn queue_pop(q: &mut SegQueue<u64>) -> (r: Option<u64>)
    ensures
        match r {
            Some(k) => queued_keys(*old(q)).len() > 0 && k == queued_keys(*old(q))[0]
                && queued_keys(*final(q)) == queued_keys(*old(q)).drop_first(),
            None => queued_keys(*old(q)).len() == 0 && queued_keys(*final(q)) == queued_keys(*old(q)),
        },
{
    q.pop()
}

} // verus!
