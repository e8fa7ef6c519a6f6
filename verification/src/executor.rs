//! Task execution context.

use vstd::prelude::*;

verus! {

/// Executor for tasks of type `T`.
pub trait Executor<T> {
    /// Whether this executor has taken `task` to run. An executor that does
    /// not say what it does with a task promises nothing.
    open spec fn takes(&self, task: T) -> bool {
        true
    }

    /// Spawn a task on this executor.
    fn spawn(&self, task: T)
        ensures
            self.takes(task),
    ;
}

/// Context that contains the current [`Executor`].
pub struct ExecutorContext<X> {
    /// The executor.
    pub executor: X,
}

impl<X> ExecutorContext<X> {
    /// Create a new [`ExecutorContext`] with the provided [`Executor`].
    pub fn new(executor: X) -> (r: Self)
        ensures
            r.executor == executor,
    {
        ExecutorContext { executor }
    }

    /// Spawn a task on the current executor.
    pub fn spawn<T>(&self, task: T)
        where X: Executor<T>,
        ensures
            self.executor.takes(task),
    {
        self.spawn_boxed(task)
    }

    /// Spawn an already boxed task on the current executor.
    pub fn spawn_boxed<T>(&self, task: T)
        where X: Executor<T>,
        ensures
            self.executor.takes(task),
    {
        self.executor.spawn(task);
    }
}

} // verus!
