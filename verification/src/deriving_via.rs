//! The deriving-via wrapper.
//!
//! [`Haskell<Tag, T>`] re-expresses a value of type `T` as "the
//! marshalling-capable version of `T` under marker `Tag`". Composite
//! instances conceptually treat their elements through this wrapper, so that
//! the constraint on `T` is stated in terms of the marshalling capability
//! rather than in terms of the base codec.

use core::marker::PhantomData;
use vstd::prelude::*;

verus! {

/// Newtype for deriving-via instances: exactly one `T` plus a marker.
pub struct Haskell<Tag, T>(pub T, pub PhantomData<Tag>);

/// Wrap a value.
pub fn tag_val<Tag, T>(t: T) -> (res: Haskell<Tag, T>)
    ensures
        res.0 == t,
{
    Haskell(t, PhantomData)
}

/// Unwrap a value.
pub fn untag_val<Tag, T>(tagged: Haskell<Tag, T>) -> (res: T)
    ensures
        res == tagged.0,
{
    tagged.0
}

/// Borrow the wrapped value.
pub fn untag_ref<Tag, T>(tagged: &Haskell<Tag, T>) -> (res: &T)
    ensures
        res == tagged.0,
{
    &tagged.0
}

} // verus!
