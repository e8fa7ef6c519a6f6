//! Generational references to composition state.

use vstd::prelude::*;
use vstd::pervasive::cloned;

verus! {

/// Immutable reference to a value of type `T`, tagged with the generation
/// of the state that holds it.
///
/// Memoizing this value compares generations instead of values.
pub struct Signal<'a, T> {
    /// Reference to the value.
    pub value: &'a T,
    /// Generation of the state holding the value when this reference was taken.
    pub generation: u64,
}

impl<'a, T> Clone for Signal<'a, T> {
    fn clone(&self) -> (r: Self)
        ensures
            r == *self,
    {
        Signal { value: self.value, generation: self.generation }
    }
}

impl<'a, T> Copy for Signal<'a, T> {}

impl<'a, T> Signal<'a, T> {
    /// Create a reference to `value` at the given generation.
    pub fn new(value: &'a T, generation: u64) -> (r: Self)
        ensures
            *r.value == *value,
            r.generation == generation,
    {
        Signal { value, generation }
    }

    /// Borrow the referenced value.
    pub fn get(&self) -> (r: &'a T)
        ensures
            *r == *self.value,
    {
        self.value
    }

    /// Map this reference to a value of type `U`, keeping its generation.
    pub fn map<U, F: Fn(&'a T) -> &'a U>(me: Self, f: F) -> (r: Mapped<'a, U>)
        requires
            f.requires((me.value,)),
        ensures
            f.ensures((me.value,), r.value),
            r.generation == me.generation,
    {
        let value = f(me.value);
        Mapped { value, generation: me.generation }
    }
}

/// Mapped immutable reference to a value of type `U`.
///
/// This can be created with [`Signal::map`].
pub struct Mapped<'a, U> {
    /// Reference to the mapped value.
    pub value: &'a U,
    /// Generation of the state the mapping started from.
    pub generation: u64,
}

impl<'a, U> Clone for Mapped<'a, U> {
    fn clone(&self) -> (r: Self)
        ensures
            r == *self,
    {
        Mapped { value: self.value, generation: self.generation }
    }
}

impl<'a, U> Copy for Mapped<'a, U> {}

impl<'a, U> Mapped<'a, U> {
    /// Borrow the mapped value.
    pub fn get(&self) -> (r: &'a U)
        ensures
            *r == *self.value,
    {
        self.value
    }
}

impl<'a, T> Signal<'a, T> {
    /// Map this reference to a value of type `U`, for a child composable that
    /// borrows from this one.
    ///
    /// The returned reference must be handed to the composition only once.
    pub fn map_unchecked<U, F: Fn(&'a T) -> &'a U>(me: Self, f: F) -> (r: MapUnchecked<'a, U>)
        requires
            f.requires((me.value,)),
        ensures
            f.ensures((me.value,), r.map.value),
            r.map.generation == me.generation,
    {
        MapUnchecked { map: Signal::map(me, f) }
    }
}

/// Unchecked, mapped immutable reference to a value of type `U`.
///
/// This can be created with [`Signal::map_unchecked`].
pub struct MapUnchecked<'a, U> {
    /// The mapped reference.
    pub map: Mapped<'a, U>,
}

/// Immutable reference or mapped reference to a value.
pub enum RefMap<'a, T> {
    /// Reference to a value.
    Ref(&'a T),
    /// Signal value.
    Signal(Signal<'a, T>),
    /// Mapped reference to a value.
    Mapped(Mapped<'a, T>),
}

impl<'a, T> Clone for RefMap<'a, T> {
    fn clone(&self) -> (r: Self)
        ensures
            r == *self,
    {
        match self {
            RefMap::Ref(r) => RefMap::Ref(*r),
            RefMap::Signal(s) => RefMap::Signal(*s),
            RefMap::Mapped(m) => RefMap::Mapped(*m),
        }
    }
}

impl<'a, T> Copy for RefMap<'a, T> {}

impl<'a, T> RefMap<'a, T> {
    /// The referenced value.
    pub open spec fn value(self) -> T {
        match self {
            RefMap::Ref(r) => *r,
            RefMap::Signal(s) => *s.value,
            RefMap::Mapped(m) => *m.value,
        }
    }

    /// Borrow the referenced value.
    pub fn get(&self) -> (r: &'a T)
        ensures
            *r == self.value(),
    {
        match self {
            RefMap::Ref(r) => r,
            RefMap::Signal(s) => s.get(),
            RefMap::Mapped(m) => m.get(),
        }
    }
}

/// Clone-on-write value.
///
/// This represents either a borrowed or owned value.
/// A borrowed value is stored as a [`RefMap`], which can be either a reference or a mapped reference.
pub enum Cow<'a, T> {
    /// Borrowed value, contained inside either a [`Signal`] or [`Mapped`].
    Borrowed(RefMap<'a, T>),
    /// Owned value.
    Owned(T),
}

impl<'a, T: Clone> Clone for Cow<'a, T> {
    fn clone(&self) -> (r: Self)
        ensures
            match (*self, r) {
                (Cow::Borrowed(a), Cow::Borrowed(b)) => a == b,
                (Cow::Owned(a), Cow::Owned(b)) => cloned(a, b),
                _ => false,
            },
    {
        match self {
            Cow::Borrowed(value) => Cow::Borrowed(*value),
            Cow::Owned(value) => Cow::Owned(value.clone()),
        }
    }
}

impl<'a, T> Cow<'a, T> {
    /// The borrowed or owned value.
    pub open spec fn value(self) -> T {
        match self {
            Cow::Borrowed(r) => r.value(),
            Cow::Owned(v) => v,
        }
    }

    /// Borrow the borrowed or owned value.
    pub fn get(&self) -> (r: &T)
        ensures
            *r == self.value(),
    {
        match self {
            Cow::Borrowed(ref_map) => ref_map.get(),
            Cow::Owned(value) => value,
        }
    }

    /// Convert or clone this value to an owned value: an owned value is
    /// returned as it is, a borrowed one is cloned.
    pub fn into_owned(self) -> (r: T)
        where T: Clone,
        ensures
            match self {
                Cow::Borrowed(b) => cloned(b.value(), r),
                Cow::Owned(v) => r == v,
            },
    {
        match self {
            Cow::Borrowed(value) => value.get().clone(),
            Cow::Owned(value) => value,
        }
    }

    /// Clone this value to an owned value.
    pub fn to_owned(&self) -> (r: T)
        where T: Clone,
        ensures
            match *self {
                Cow::Borrowed(b) => cloned(b.value(), r),
                Cow::Owned(v) => cloned(v, r),
            },
    {
        self.clone().into_owned()
    }
}

impl<'a, T> From<RefMap<'a, T>> for Cow<'a, T> {
    fn from(value: RefMap<'a, T>) -> (r: Self) {
        Cow::Borrowed(value)
    }
}

impl<'a, T> vstd::std_specs::convert::FromSpecImpl<RefMap<'a, T>> for Cow<'a, T> {
    open spec fn obeys_from_spec() -> bool {
        true
    }

    open spec fn from_spec(v: RefMap<'a, T>) -> Cow<'a, T> {
        Cow::Borrowed(v)
    }
}

/// Mutable reference to a hook slot of a scope.
///
/// Writes through it are queued and applied after the composition
/// (see `Composer::apply_updates`).
#[derive(Clone, Copy, Debug, PartialEq, Eq, Structural)]
pub struct SignalMut {
    /// Key of the scope that owns the slot.
    pub scope_key: u64,
    /// Hook slot holding the value.
    pub slot: usize,
    /// Generation of the value when this reference was taken.
    pub generation: u64,
}

impl SignalMut {
    /// Create a mutable reference to `slot` of the scope `scope_key`.
    pub fn new(scope_key: u64, slot: usize, generation: u64) -> (r: Self)
        ensures
            r.scope_key == scope_key,
            r.slot == slot,
            r.generation == generation,
    {
        SignalMut { scope_key, slot, generation }
    }
}

/// Immutable reference to a value of type `T`.
pub type Ref<'a, T> = Signal<'a, T>;

/// Mutable reference to a hook slot.
pub type Mut = SignalMut;

/// Generational reference.
/// This can be used to compare expensive values by their generation.
pub trait Generational {
    /// The generation this reference carries.
    spec fn spec_generation(&self) -> u64;

    /// Get the generation of this value.
    fn generation(self) -> (g: u64)
        ensures
            g == self.spec_generation(),
    ;
}

impl<'a, T> Generational for Signal<'a, T> {
    open spec fn spec_generation(&self) -> u64 {
        self.generation
    }

    fn generation(self) -> (g: u64) {
        self.generation
    }
}

impl<'a, T> Generational for Mapped<'a, T> {
    open spec fn spec_generation(&self) -> u64 {
        self.generation
    }

    fn generation(self) -> (g: u64) {
        self.generation
    }
}

impl Generational for SignalMut {
    open spec fn spec_generation(&self) -> u64 {
        self.generation
    }

    fn generation(self) -> (g: u64) {
        self.generation
    }
}

/// Memoize a value, caching it until the dependency changes.
///
/// References are memoized by their generation.
pub trait Memoize {
    /// Inner value to store and compare.
    type Value;

    /// The value compared for memoization.
    spec fn spec_memoized(&self) -> Self::Value;

    /// Return the inner value for memoization.
    fn memoized(self) -> (v: Self::Value)
        ensures
            v == self.spec_memoized(),
    ;
}

impl<'a, T> Memoize for Signal<'a, T> {
    type Value = u64;

    open spec fn spec_memoized(&self) -> u64 {
        self.generation
    }

    fn memoized(self) -> (v: u64) {
        self.generation
    }
}

impl<'a, T> Memoize for Mapped<'a, T> {
    type Value = u64;

    open spec fn spec_memoized(&self) -> u64 {
        self.generation
    }

    fn memoized(self) -> (v: u64) {
        self.generation
    }
}

impl Memoize for SignalMut {
    type Value = u64;

    open spec fn spec_memoized(&self) -> u64 {
        self.generation
    }

    fn memoized(self) -> (v: u64) {
        self.generation
    }
}

} // verus!
