//! A container for one payload of any type, with checked access by type.
//!
//! The payload sits in a `Box<dyn Any>` of the standard library, which the
//! verifier does not look into. What is stated of it is stated over
//! `held`, the payload as a trait object, and rests on the standard
//! library's `dyn Any` methods doing what their documentation says.

use vstd::prelude::*;
use std::any::Any;

verus! {

/// Anything that a `Value` can hold. Contracts use `dyn Payload` as the type
/// of a payload whose own type is not known.
pub trait Payload {}

impl<T: 'static> Payload for T {}

/// `payload` as a trait object: the payload together with its type.
pub open spec fn erased<T: 'static>(payload: T) -> Box<dyn Payload> {
    Box::new(payload)
}

/// A container for one payload, whose type is fixed when the value is built
/// and is asked for at every access.
///
/// The field is a `Box<dyn Any>` of the standard library and is not seen by
/// the verifier.
#[verifier::external_body]
pub struct Value {
    inner: Box<dyn Any>,
}

/// What `value` holds: the payload in its `Box<dyn Any>`, as a trait object.
pub uninterp spec fn held(value: Value) -> Box<dyn Payload>;

impl Value {
    /// The payload is a `T`.
    pub open spec fn holds<T: 'static>(self) -> bool {
        exists|payload: T| held(self) == erased(payload)
    }

    /// The payload, where it is a `T`.
    pub open spec fn payload<T: 'static>(self) -> T {
        choose|payload: T| held(self) == erased(payload)
    }

    /// A value that holds the payload in `value`.
    ///
    /// Turns the `Box<T>` into a `Box<dyn Any>`, which keeps the payload and
    /// its type: the contract says that the new value holds this payload,
    /// as a `T`.
    #[verifier::external_body]
    pub fn new<T: 'static>(value: Box<T>) -> (made: Self)
        ensures
            held(made) == erased(*value),
            made.holds::<T>(),
            made.payload::<T>() == *value,
    {
        Value { inner: value }
    }

    /// Whether the payload is a `T`.
    ///
    /// Calls `<dyn Any>::is`, which is documented to return `true` exactly if
    /// the boxed value is of type `T`.
    #[verifier::external_body]
    pub fn is<T: 'static>(&self) -> (found: bool)
        ensures
            found == self.holds::<T>(),
    {
        self.inner.is::<T>()
    }

    /// The payload, if it is a `T`; `None` if it is of another type.
    ///
    /// Calls `<dyn Any>::downcast_ref`, which is documented to return a
    /// reference to the boxed value if it is of type `T`, and `None` if not.
    #[verifier::external_body]
    pub fn get<T: 'static>(&self) -> (found: Option<&T>)
        ensures
            found == if self.holds::<T>() {
                Some(&self.payload::<T>())
            } else {
                None
            },
    {
        self.inner.downcast_ref::<T>()
    }

    /// The payload for writing, if it is a `T`; `None` if it is of another
    /// type.
    ///
    /// Calls `<dyn Any>::downcast_mut`, which is documented to return a
    /// mutable reference to the boxed value if it is of type `T`, and `None`
    /// if not. What is written through the reference is the payload
    /// afterwards, still a `T`; without a reference nothing changes.
    #[verifier::external_body]
    pub fn get_mut<T: 'static>(&mut self) -> (found: Option<&mut T>)
        ensures
            match found {
                Some(payload) => {
                    &&& old(self).holds::<T>()
                    &&& *payload == old(self).payload::<T>()
                    &&& held(*final(self)) == erased(*final(payload))
                    &&& final(self).holds::<T>()
                    &&& final(self).payload::<T>() == *final(payload)
                },
                None => !old(self).holds::<T>() && *final(self) == *old(self),
            },
    {
        self.inner.downcast_mut::<T>()
    }

    /// A copy of the payload, if it is a `T`; `None` if it is of another
    /// type.
    pub fn into_cloned<T: 'static>(&self) -> (copy: Option<T>) where T: Clone
        ensures
            copy is Some <==> self.holds::<T>(),
            copy matches Some(copied) ==> cloned(self.payload::<T>(), copied),
    {
        self.get::<T>().cloned()
    }

    /// The payload of a value that holds a `T`.
    pub fn unwrap<T: 'static>(&self) -> (payload: &T)
        requires
            self.holds::<T>(),
        ensures
            *payload == self.payload::<T>(),
    {
        self.get::<T>().unwrap()
    }

    /// The payload of a value that holds a `T`, for writing. What is written
    /// is the payload afterwards.
    pub fn unwrap_mut<T: 'static>(&mut self) -> (payload: &mut T)
        requires
            old(self).holds::<T>(),
        ensures
            *payload == old(self).payload::<T>(),
            held(*final(self)) == erased(*final(payload)),
            final(self).holds::<T>(),
            final(self).payload::<T>() == *final(payload),
    {
        self.get_mut::<T>().unwrap()
    }

    /// A copy of the payload of a value that holds a `T`; the value is used
    /// up.
    pub fn consume<T: 'static>(self) -> (copy: T) where T: Clone
        requires
            self.holds::<T>(),
        ensures
            cloned(self.payload::<T>(), copy),
    {
        self.into_cloned::<T>().unwrap()
    }
}

/// A value holds what it was built from: once `value` holds `payload` as a
/// `T`, the type test for `T` succeeds.
pub proof fn law_built_value_holds<T: 'static>(value: Value, payload: T)
    requires
        held(value) == erased(payload),
    ensures
        value.holds::<T>(),
{
}

} // verus!
