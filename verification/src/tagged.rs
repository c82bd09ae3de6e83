//! A value labelled with an extension marker.

use core::marker::PhantomData;
use vstd::prelude::*;

verus! {

/// A value carrying an extension marker at the type level.
///
/// The marker is never read; it only makes two otherwise identical types
/// distinct, so that independent libraries can each give a capability
/// instance to the same underlying type.
pub struct Tagged<Tag, T> {
    pub value: T,
    pub tag: PhantomData<Tag>,
}

/// Label a value with an extension marker.
pub fn tag<Tag, T>(t: T) -> (res: Tagged<Tag, T>)
    ensures
        res.value == t,
{
    Tagged { value: t, tag: PhantomData }
}

} // verus!
