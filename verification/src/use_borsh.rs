//! Opting out of the recursive marshalling capability.

use vstd::prelude::*;

verus! {

/// Newtype wrapper marking values that should be passed to the base codec
/// wholesale instead of element-wise through the marshalling capability.
///
/// The capability instances that would let `UseBorsh<T>` forward to the base
/// codec need a bound on the base codec's own traits, which the verified
/// core cannot carry; callers that want the wholesale path call the base
/// codec on the unwrapped value themselves.
pub struct UseBorsh<T>(pub T);

/// Unwrap a value.
pub fn unwrap_use_borsh<T>(use_borsh: UseBorsh<T>) -> (res: T)
    ensures
        res == use_borsh.0,
{
    let UseBorsh(t) = use_borsh;
    t
}

/// Borrow the wrapped value.
pub fn unwrap_use_borsh_ref<T>(use_borsh: &UseBorsh<T>) -> (res: &T)
    ensures
        res == use_borsh.0,
{
    let UseBorsh(t) = use_borsh;
    t
}

} // verus!
