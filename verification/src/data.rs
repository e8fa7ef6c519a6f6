//! Composable data.
//!
//! [`Data`] marks the types a composable may hold: values that cannot let a
//! borrow of composition state escape while children are composed. The
//! field traits are the checks a derive of [`Data`] runs on each field.

use vstd::prelude::*;

verus! {

/// Composable data.
pub trait Data {}

impl Data for () {}

impl Data for bool {}

impl Data for char {}

impl Data for u8 {}

impl Data for u16 {}

impl Data for u32 {}

impl Data for u64 {}

impl Data for usize {}

impl Data for i8 {}

impl Data for i16 {}

impl Data for i32 {}

impl Data for i64 {}

impl Data for isize {}

impl Data for String {}

impl<T: Data> Data for Vec<T> {}

impl<T: Data> Data for Option<T> {}

impl<T: Data, U: Data> Data for Result<T, U> {}

impl<'a, T: Data> Data for crate::pointer::Signal<'a, T> {}

impl<'a, T: Data> Data for crate::pointer::Mapped<'a, T> {}

impl<'a, T: Data> Data for crate::pointer::RefMap<'a, T> {}

impl<'a, T: Data> Data for crate::pointer::Cow<'a, T> {}

impl<'a, T> Data for crate::pointer::MapUnchecked<'a, T> {}

/// Wrapper of a field, checked by the field traits below.
pub struct FieldWrap<T>(pub T);

/// A field holding a function whose arguments are owned and whose result is [`Data`].
pub trait FnField<Marker> {
    /// Check this field.
    fn check(&self) {
    }
}

/// A field holding [`Data`].
pub trait DataField {
    /// Check this field.
    fn check(&self) {
    }
}

impl<'a, T: Data> DataField for &'a FieldWrap<T> {}

/// A field holding an owned value.
pub trait StaticField {
    /// Check this field.
    fn check(&self) {
    }
}

impl<'a, 'b, T: 'static> StaticField for &'a &'b FieldWrap<T> {}

/// A field holding a reference to state or a mutable reference to a hook.
pub trait StateField {
    /// Check this field.
    fn check(&self) {
    }
}

impl<'a, T: 'static> StateField for &'a T {}

impl StateField for crate::pointer::SignalMut {}

} // verus!
