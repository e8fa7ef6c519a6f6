//! Composable errors and the composable that catches them.

use vstd::prelude::*;
use vstd::pervasive::cloned;

verus! {

/// Composable error.
///
/// This can be handled by a parent composable with [`Catch`].
pub struct Error<E> {
    error: E,
}

impl<E: Clone> Error<E> {
    /// Create a new composable error.
    pub fn new(error: E) -> (r: Self)
        ensures
            r.error() == error,
    {
        Error { error }
    }

    /// The error this composable error was made from.
    pub closed spec fn error(&self) -> E {
        self.error
    }

    /// Make the error: a clone of the error this composable error was made from.
    pub fn make_error(&self) -> (r: E)
        ensures
            cloned(self.error(), r),
    {
        self.error.clone()
    }
}

/// Error catch composable.
///
/// See [`catch`] for more.
pub struct Catch<C, H> {
    /// Content of this composable.
    pub content: C,
    /// Function to handle errors.
    pub f: H,
}

/// Create a composable that catches errors from its children.
/// This will catch all errors from its descendants, until another `catch` is encountered.
pub fn catch<C, H>(on_error: H, content: C) -> (r: Catch<C, H>)
    ensures
        r.content == content,
        r.f == on_error,
{
    Catch { content, f: on_error }
}

/// The error handler that a [`Catch`] provides to its descendants.
pub struct CatchContext<H> {
    /// Function to handle errors.
    pub f: H,
}

impl<H> CatchContext<H> {
    /// Create a catch context with the given handler.
    pub fn new(f: H) -> (r: Self)
        ensures
            r.f == f,
    {
        CatchContext { f }
    }

    /// Hand an error to the handler.
    pub fn handle<E>(&self, error: E)
        where H: Fn(E),
        requires
            self.f.requires((error,)),
        ensures
            self.f.ensures((error,), ()),
    {
        (self.f)(error)
    }
}

} // verus!
