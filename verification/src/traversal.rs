//! One composition: the order in which nodes compose, and its result.

use vstd::prelude::*;
use crate::composer::{Composer, queued};
use crate::compose::queued_all;

verus! {

/// The bookkeeping of one composition.
pub struct Composition {
    /// Whether the root has been handed out.
    pub root_done: bool,
    /// Nodes handed out so far, in order.
    pub composed: Vec<u64>,
    /// Nodes that asked to compose again after they composed, in order.
    pub again: Vec<u64>,
}

impl Composition {
    /// A composition that has composed nothing yet.
    pub fn new() -> (c: Self)
        ensures
            !c.root_done,
            c.composed@.len() == 0,
            c.again@.len() == 0,
    {
        Composition { root_done: false, composed: Vec::new(), again: Vec::new() }
    }
}

/// Whether `v` holds `k`.
fn holds(v: &Vec<u64>, k: u64) -> (r: bool)
    ensures
        r == v@.contains(k),
{
    let mut i: usize = 0;
    while i < v.len()
        invariant
            i <= v@.len(),
            forall|j: int| 0 <= j < i ==> v@[j] != k,
        decreases v@.len() - i,
    {
        if v[i] == k {
            assert(v@[i as int] == k);
            return true;
        }
        i = i + 1;
    }
    false
}

/// `again` with the members of `more` added in order, each once.
pub open spec fn noted(again: Seq<u64>, more: Seq<u64>) -> Seq<u64>
    decreases more.len(),
{
    if more.len() == 0 {
        again
    } else {
        queued(noted(again, more.drop_last()), more.last())
    }
}

impl<V, F> Composer<V, F> {
    /// The next node to compose in the composition `c`: the root first, then
    /// each queued node in queue order, once. A queued node that has composed
    /// already in `c` is taken off the queue and noted to compose again in
    /// the next composition. `None` when no node is left.
    pub fn next_to_compose(&mut self, c: &mut Composition) -> (r: Option<u64>)
        requires
            old(self).wf(),
        ensures
            final(self).wf(),
            final(self).nodes() == old(self).nodes(),
            forall|n: u64| #[trigger] final(self).scope(n) == old(self).scope(n),
            forall|n: u64| #[trigger] final(self).has_scope(n) == old(self).has_scope(n),
            old(self).same_runtime(*final(self)),
            final(self).dropped() == old(self).dropped(),
            !old(c).root_done ==> {
                &&& r == Some(old(self).root())
                &&& final(c).root_done
                &&& final(c).composed@ == old(c).composed@.push(old(self).root())
                &&& final(c).again@ == old(c).again@
                &&& final(self).pending() == old(self).pending()
            },
            old(c).root_done ==> {
                let p = old(self).pending();
                &&& final(c).root_done
                &&& match r {
                    Some(k) => exists|i: int| {
                        &&& 0 <= i < p.len()
                        &&& #[trigger] p[i] == k
                        &&& !old(c).composed@.contains(k)
                        &&& forall|j: int| 0 <= j < i ==> old(c).composed@.contains(#[trigger] p[j])
                        &&& final(self).pending() == p.skip(i + 1)
                        &&& final(c).composed@ == old(c).composed@.push(k)
                        &&& final(c).again@ == noted(old(c).again@, p.take(i))
                    },
                    None => {
                        &&& forall|j: int| 0 <= j < p.len() ==> old(c).composed@.contains(#[trigger] p[j])
                        &&& final(self).pending().len() == 0
                        &&& final(c).composed@ == old(c).composed@
                        &&& final(c).again@ == noted(old(c).again@, p)
                    },
                }
            },
    {
        if !c.root_done {
            c.root_done = true;
            let root = self.root_key();
            c.composed.push(root);
            return Some(root);
        }
        let ghost p = self.pending();
        let ghost mut i: int = 0;
        loop
            invariant
                self.wf(),
                self.nodes() == old(self).nodes(),
                forall|n: u64| #[trigger] self.scope(n) == old(self).scope(n),
                forall|n: u64| #[trigger] self.has_scope(n) == old(self).has_scope(n),
                old(self).same_runtime(*self),
                self.dropped() == old(self).dropped(),
                p == old(self).pending(),
                c.root_done,
                old(c).root_done,
                c.composed@ == old(c).composed@,
                0 <= i <= p.len(),
                self.pending() == p.skip(i),
                forall|j: int| 0 <= j < i ==> old(c).composed@.contains(#[trigger] p[j]),
                c.again@ == noted(old(c).again@, p.take(i)),
            decreases self.pending().len(),
        {
            let ghost pend = self.pending();
            match self.pop_pending() {
                None => {
                    proof {
                        assert(p.take(i) =~= p);
                    }
                    return None;
                },
                Some(k) => {
                    proof {
                        assert(k == p[i]);
                        assert(self.pending() =~= p.skip(i + 1));
                    }
                    if holds(&c.composed, k) {
                        if !holds(&c.again, k) {
                            c.again.push(k);
                        }
                        proof {
                            assert(p.take(i + 1).drop_last() =~= p.take(i));
                            assert(p.take(i + 1).last() == k);
                            i = i + 1;
                        }
                    } else {
                        c.composed.push(k);
                        return Some(k);
                    }
                },
            }
        }
    }

    /// End the composition `c`: the nodes noted to compose again are queued,
    /// in order. The composition succeeded unless an error reached the
    /// composition's own error slot, `last_error`.
    pub fn finish_composition<E>(&mut self, c: Composition, last_error: Option<E>) -> (r: Result<(), E>)
        requires
            old(self).wf(),
        ensures
            final(self).wf(),
            final(self).nodes() == old(self).nodes(),
            forall|n: u64| #[trigger] final(self).scope(n) == old(self).scope(n),
            forall|n: u64| #[trigger] final(self).has_scope(n) == old(self).has_scope(n),
            old(self).same_runtime(*final(self)),
            final(self).dropped() == old(self).dropped(),
            final(self).pending() == queued_all(old(self).pending(), c.again@),
            match last_error {
                Some(e) => r == Err::<(), E>(e),
                None => r == Ok::<(), E>(()),
            },
    {
        let mut i: usize = 0;
        while i < c.again.len()
            invariant
                i <= c.again@.len(),
                self.wf(),
                self.nodes() == old(self).nodes(),
                forall|n: u64| #[trigger] self.scope(n) == old(self).scope(n),
                forall|n: u64| #[trigger] self.has_scope(n) == old(self).has_scope(n),
                old(self).same_runtime(*self),
                self.dropped() == old(self).dropped(),
                self.pending() == queued_all(old(self).pending(), c.again@.take(i as int)),
            decreases c.again@.len() - i,
        {
            self.queue(c.again[i]);
            assert(c.again@.take(i + 1).drop_last() =~= c.again@.take(i as int));
            i = i + 1;
        }
        assert(c.again@.take(i as int) =~= c.again@);
        match last_error {
            Some(e) => Err(e),
            None => Ok(()),
        }
    }
}

} // verus!
