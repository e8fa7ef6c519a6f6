//! Updates handed to an updater.

use vstd::prelude::*;

verus! {

/// An update to apply to a composable.
pub struct Update<G> {
    /// The function that applies the update.
    pub f: G,
}

impl<G> Update<G> {
    /// Wrap an update function.
    pub fn new(f: G) -> (r: Self)
        ensures
            r.f == f,
    {
        Update { f }
    }

    /// Apply this update.
    pub fn apply(self)
        where G: FnOnce(),
        requires
            self.f.requires(()),
        ensures
            self.f.ensures((), ()),
    {
        (self.f)()
    }
}

/// Updater for a composer: receives each update to run it, now or later.
pub trait Updater<U> {
    /// Update the content of a composer.
    fn update(&self, update: U);
}

} // verus!
