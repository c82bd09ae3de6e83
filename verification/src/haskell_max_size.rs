//! The bounded half of the static size protocol: types whose encoded form
//! has a known upper bound on its byte length.

use core::marker::PhantomData;
use vstd::prelude::*;

use crate::haskell_size::HaskellSize;
use crate::to_haskell::elems_encodable;
use crate::to_haskell::encode_elems;
use crate::to_haskell::ToHaskell;
use crate::wire::lemma_le_bytes_len;

verus! {

/// Capability of types whose encoding never exceeds a known byte length.
///
/// Beyond the fixed-size types, this covers optional values (one presence
/// byte plus the payload's bound) and result-like sum types (one
/// discriminant byte plus the larger arm's bound).
pub trait HaskellMaxSize<Tag>: ToHaskell<Tag> {
    /// An upper bound on the byte length of the encoding of every value.
    spec fn spec_max_size() -> nat;

    /// Statically known maximum size (in bytes).
    fn haskell_max_size(tag: PhantomData<Tag>) -> (res: usize)
        requires
            Self::spec_max_size() <= usize::MAX,
        ensures
            res == Self::spec_max_size(),
    ;

    /// Max-size soundness: every value of the type is encodable, and its
    /// encoding holds at most [`spec_max_size`](Self::spec_max_size) bytes.
    proof fn max_size_law(v: &Self)
        ensures
            v.encodable(),
            v.hs_encoding().len() <= Self::spec_max_size(),
    ;
}

impl<Tag> HaskellMaxSize<Tag> for u8 {
    open spec fn spec_max_size() -> nat {
        <u8 as HaskellSize<Tag>>::spec_size()
    }

    fn haskell_max_size(tag: PhantomData<Tag>) -> usize {
        u8::haskell_size(tag)
    }

    proof fn max_size_law(v: &Self) {
        <u8 as HaskellSize<Tag>>::size_law(v);
    }
}

impl<Tag> HaskellMaxSize<Tag> for u16 {
    open spec fn spec_max_size() -> nat {
        <u16 as HaskellSize<Tag>>::spec_size()
    }

    fn haskell_max_size(tag: PhantomData<Tag>) -> usize {
        u16::haskell_size(tag)
    }

    proof fn max_size_law(v: &Self) {
        <u16 as HaskellSize<Tag>>::size_law(v);
    }
}

impl<Tag> HaskellMaxSize<Tag> for u32 {
    open spec fn spec_max_size() -> nat {
        <u32 as HaskellSize<Tag>>::spec_size()
    }

    fn haskell_max_size(tag: PhantomData<Tag>) -> usize {
        u32::haskell_size(tag)
    }

    proof fn max_size_law(v: &Self) {
        <u32 as HaskellSize<Tag>>::size_law(v);
    }
}

impl<Tag> HaskellMaxSize<Tag> for u64 {
    open spec fn spec_max_size() -> nat {
        <u64 as HaskellSize<Tag>>::spec_size()
    }

    fn haskell_max_size(tag: PhantomData<Tag>) -> usize {
        u64::haskell_size(tag)
    }

    proof fn max_size_law(v: &Self) {
        <u64 as HaskellSize<Tag>>::size_law(v);
    }
}

impl<Tag> HaskellMaxSize<Tag> for u128 {
    open spec fn spec_max_size() -> nat {
        <u128 as HaskellSize<Tag>>::spec_size()
    }

    fn haskell_max_size(tag: PhantomData<Tag>) -> usize {
        u128::haskell_size(tag)
    }

    proof fn max_size_law(v: &Self) {
        <u128 as HaskellSize<Tag>>::size_law(v);
    }
}

impl<Tag> HaskellMaxSize<Tag> for i8 {
    open spec fn spec_max_size() -> nat {
        <i8 as HaskellSize<Tag>>::spec_size()
    }

    fn haskell_max_size(tag: PhantomData<Tag>) -> usize {
        i8::haskell_size(tag)
    }

    proof fn max_size_law(v: &Self) {
        <i8 as HaskellSize<Tag>>::size_law(v);
    }
}

impl<Tag> HaskellMaxSize<Tag> for i16 {
    open spec fn spec_max_size() -> nat {
        <i16 as HaskellSize<Tag>>::spec_size()
    }

    fn haskell_max_size(tag: PhantomData<Tag>) -> usize {
        i16::haskell_size(tag)
    }

    proof fn max_size_law(v: &Self) {
        <i16 as HaskellSize<Tag>>::size_law(v);
    }
}

impl<Tag> HaskellMaxSize<Tag> for i32 {
    open spec fn spec_max_size() -> nat {
        <i32 as HaskellSize<Tag>>::spec_size()
    }

    fn haskell_max_size(tag: PhantomData<Tag>) -> usize {
        i32::haskell_size(tag)
    }

    proof fn max_size_law(v: &Self) {
        <i32 as HaskellSize<Tag>>::size_law(v);
    }
}

impl<Tag> HaskellMaxSize<Tag> for i64 {
    open spec fn spec_max_size() -> nat {
        <i64 as HaskellSize<Tag>>::spec_size()
    }

    fn haskell_max_size(tag: PhantomData<Tag>) -> usize {
        i64::haskell_size(tag)
    }

    proof fn max_size_law(v: &Self) {
        <i64 as HaskellSize<Tag>>::size_law(v);
    }
}

impl<Tag> HaskellMaxSize<Tag> for i128 {
    open spec fn spec_max_size() -> nat {
        <i128 as HaskellSize<Tag>>::spec_size()
    }

    fn haskell_max_size(tag: PhantomData<Tag>) -> usize {
        i128::haskell_size(tag)
    }

    proof fn max_size_law(v: &Self) {
        <i128 as HaskellSize<Tag>>::size_law(v);
    }
}

impl<Tag> HaskellMaxSize<Tag> for bool {
    open spec fn spec_max_size() -> nat {
        <bool as HaskellSize<Tag>>::spec_size()
    }

    fn haskell_max_size(tag: PhantomData<Tag>) -> usize {
        bool::haskell_size(tag)
    }

    proof fn max_size_law(v: &Self) {
        <bool as HaskellSize<Tag>>::size_law(v);
    }
}

impl<Tag> HaskellMaxSize<Tag> for () {
    open spec fn spec_max_size() -> nat {
        <() as HaskellSize<Tag>>::spec_size()
    }

    fn haskell_max_size(tag: PhantomData<Tag>) -> usize {
        <() as HaskellSize<Tag>>::haskell_size(tag)
    }

    proof fn max_size_law(v: &Self) {
        <() as HaskellSize<Tag>>::size_law(v);
    }
}

impl<Tag, T: HaskellMaxSize<Tag>> HaskellMaxSize<Tag> for Option<T> {
    open spec fn spec_max_size() -> nat {
        1 + T::spec_max_size()
    }

    fn haskell_max_size(tag: PhantomData<Tag>) -> usize {
        1 + T::haskell_max_size(tag)
    }

    proof fn max_size_law(v: &Self) {
        lemma_le_bytes_len(0, 1);
        lemma_le_bytes_len(1, 1);
        match v {
            Option::None => {},
            Option::Some(t) => {
                T::max_size_law(t);
            },
        }
    }
}

impl<Tag, T: HaskellMaxSize<Tag>, E: HaskellMaxSize<Tag>> HaskellMaxSize<Tag> for Result<T, E> {
    open spec fn spec_max_size() -> nat {
        if T::spec_max_size() >= E::spec_max_size() {
            1 + T::spec_max_size()
        } else {
            1 + E::spec_max_size()
        }
    }

    fn haskell_max_size(tag: PhantomData<Tag>) -> usize {
        let t = T::haskell_max_size(tag);
        let e = E::haskell_max_size(tag);
        if t >= e {
            1 + t
        } else {
            1 + e
        }
    }

    proof fn max_size_law(v: &Self) {
        lemma_le_bytes_len(0, 1);
        lemma_le_bytes_len(1, 1);
        match v {
            Result::Ok(t) => {
                T::max_size_law(t);
            },
            Result::Err(e) => {
                E::max_size_law(e);
            },
        }
    }
}

impl<Tag, A: HaskellMaxSize<Tag>, B: HaskellMaxSize<Tag>> HaskellMaxSize<Tag> for (A, B) {
    open spec fn spec_max_size() -> nat {
        A::spec_max_size() + B::spec_max_size()
    }

    fn haskell_max_size(tag: PhantomData<Tag>) -> usize {
        A::haskell_max_size(tag) + B::haskell_max_size(tag)
    }

    proof fn max_size_law(v: &Self) {
        A::max_size_law(&v.0);
        B::max_size_law(&v.1);
    }
}

impl<Tag, A: HaskellMaxSize<Tag>, B: HaskellMaxSize<Tag>, C: HaskellMaxSize<Tag>> HaskellMaxSize<
    Tag,
> for (A, B, C) {
    open spec fn spec_max_size() -> nat {
        A::spec_max_size() + B::spec_max_size() + C::spec_max_size()
    }

    fn haskell_max_size(tag: PhantomData<Tag>) -> usize {
        A::haskell_max_size(tag) + B::haskell_max_size(tag) + C::haskell_max_size(tag)
    }

    proof fn max_size_law(v: &Self) {
        A::max_size_law(&v.0);
        B::max_size_law(&v.1);
        C::max_size_law(&v.2);
    }
}


/// When every element of a type encodes to at most the same length, a
/// sequence of them encodes to at most that length times the element count.
pub proof fn lemma_encode_elems_bounded_len<Tag, T: HaskellMaxSize<Tag>>(s: Seq<T>)
    ensures
        encode_elems::<Tag, T>(s).len() <= s.len() * T::spec_max_size(),
    decreases s.len(),
{
    if s.len() == 0 {
    } else {
        T::max_size_law(&s[0]);
        lemma_encode_elems_bounded_len::<Tag, T>(s.drop_first());
        assert(T::spec_max_size() + (s.len() - 1) * T::spec_max_size() == s.len()
            * T::spec_max_size()) by (nonlinear_arith)
            requires
                s.len() >= 1,
        ;
    }
}


impl<Tag, T: HaskellMaxSize<Tag>, const N: usize> HaskellMaxSize<Tag> for [T; N] {
    open spec fn spec_max_size() -> nat {
        (N as nat) * T::spec_max_size()
    }

    fn haskell_max_size(tag: PhantomData<Tag>) -> (res: usize) {
        if N == 0 {
            proof {
                assert((N as nat) * T::spec_max_size() == 0) by (nonlinear_arith)
                    requires
                        N == 0,
                ;
            }
            0
        } else {
            proof {
                assert(T::spec_max_size() <= (N as nat) * T::spec_max_size()) by (nonlinear_arith)
                    requires
                        N >= 1,
                ;
            }
            let e = T::haskell_max_size(tag);
            proof {
                assert(e * (N as nat) == (N as nat) * T::spec_max_size()) by (nonlinear_arith)
                    requires
                        e == T::spec_max_size(),
                ;
            }
            e * N
        }
    }

    proof fn max_size_law(v: &Self) {
        assert forall|i: int| 0 <= i < v@.len() implies (#[trigger] v@[i]).encodable() by {
            T::max_size_law(&v@[i]);
        }
        lemma_encode_elems_bounded_len::<Tag, T>(v@);
    }
}


impl<
    Tag,
    A: HaskellMaxSize<Tag>,
    B: HaskellMaxSize<Tag>,
    C: HaskellMaxSize<Tag>,
    D: HaskellMaxSize<Tag>,
> HaskellMaxSize<Tag> for (A, B, C, D) {
    open spec fn spec_max_size() -> nat {
        A::spec_max_size() + B::spec_max_size() + C::spec_max_size() + D::spec_max_size()
    }

    fn haskell_max_size(tag: PhantomData<Tag>) -> usize {
        A::haskell_max_size(tag) + B::haskell_max_size(tag) + C::haskell_max_size(tag)
            + D::haskell_max_size(tag)
    }

    proof fn max_size_law(v: &Self) {
        A::max_size_law(&v.0);
        B::max_size_law(&v.1);
        C::max_size_law(&v.2);
        D::max_size_law(&v.3);
    }
}

} // verus!
