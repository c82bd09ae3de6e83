//! The exact half of the static size protocol: types whose encoded form has
//! a fixed byte length, known without inspecting the value.

use core::marker::PhantomData;
use vstd::prelude::*;

use crate::to_haskell::elems_encodable;
use crate::to_haskell::encode_elems;
use crate::to_haskell::ToHaskell;
use crate::wire::lemma_le_bytes_len;
use crate::wire::wrap_signed;

verus! {

/// Capability of types whose encoding always has the same byte length.
///
/// Variable-length shapes (sequences, maps, sets, optional values, text)
/// deliberately have no instance.
pub trait HaskellSize<Tag>: ToHaskell<Tag> {
    /// The byte length of the encoding of every value of the type.
    spec fn spec_size() -> nat;

    /// Statically known size (in bytes).
    fn haskell_size(tag: PhantomData<Tag>) -> (res: usize)
        requires
            Self::spec_size() <= usize::MAX,
        ensures
            res == Self::spec_size(),
    ;

    /// Fixed-size faithfulness: every value of the type is encodable, and
    /// its encoding holds exactly [`spec_size`](Self::spec_size) bytes.
    proof fn size_law(v: &Self)
        ensures
            v.encodable(),
            v.hs_encoding().len() == Self::spec_size(),
    ;
}

impl<Tag> HaskellSize<Tag> for u8 {
    open spec fn spec_size() -> nat {
        1
    }

    fn haskell_size(_tag: PhantomData<Tag>) -> usize {
        1
    }

    proof fn size_law(v: &Self) {
        lemma_le_bytes_len(*v as nat, 1);
    }
}

impl<Tag> HaskellSize<Tag> for u16 {
    open spec fn spec_size() -> nat {
        2
    }

    fn haskell_size(_tag: PhantomData<Tag>) -> usize {
        2
    }

    proof fn size_law(v: &Self) {
        lemma_le_bytes_len(*v as nat, 2);
    }
}

impl<Tag> HaskellSize<Tag> for u32 {
    open spec fn spec_size() -> nat {
        4
    }

    fn haskell_size(_tag: PhantomData<Tag>) -> usize {
        4
    }

    proof fn size_law(v: &Self) {
        lemma_le_bytes_len(*v as nat, 4);
    }
}

impl<Tag> HaskellSize<Tag> for u64 {
    open spec fn spec_size() -> nat {
        8
    }

    fn haskell_size(_tag: PhantomData<Tag>) -> usize {
        8
    }

    proof fn size_law(v: &Self) {
        lemma_le_bytes_len(*v as nat, 8);
    }
}

impl<Tag> HaskellSize<Tag> for u128 {
    open spec fn spec_size() -> nat {
        16
    }

    fn haskell_size(_tag: PhantomData<Tag>) -> usize {
        16
    }

    proof fn size_law(v: &Self) {
        lemma_le_bytes_len(*v as nat, 16);
    }
}

impl<Tag> HaskellSize<Tag> for i8 {
    open spec fn spec_size() -> nat {
        1
    }

    fn haskell_size(_tag: PhantomData<Tag>) -> usize {
        1
    }

    proof fn size_law(v: &Self) {
        lemma_le_bytes_len(wrap_signed(*v as int, 0x100), 1);
    }
}

impl<Tag> HaskellSize<Tag> for i16 {
    open spec fn spec_size() -> nat {
        2
    }

    fn haskell_size(_tag: PhantomData<Tag>) -> usize {
        2
    }

    proof fn size_law(v: &Self) {
        lemma_le_bytes_len(wrap_signed(*v as int, 0x1_0000), 2);
    }
}

impl<Tag> HaskellSize<Tag> for i32 {
    open spec fn spec_size() -> nat {
        4
    }

    fn haskell_size(_tag: PhantomData<Tag>) -> usize {
        4
    }

    proof fn size_law(v: &Self) {
        lemma_le_bytes_len(wrap_signed(*v as int, 0x1_0000_0000), 4);
    }
}

impl<Tag> HaskellSize<Tag> for i64 {
    open spec fn spec_size() -> nat {
        8
    }

    fn haskell_size(_tag: PhantomData<Tag>) -> usize {
        8
    }

    proof fn size_law(v: &Self) {
        lemma_le_bytes_len(wrap_signed(*v as int, 0x1_0000_0000_0000_0000), 8);
    }
}

impl<Tag> HaskellSize<Tag> for i128 {
    open spec fn spec_size() -> nat {
        16
    }

    fn haskell_size(_tag: PhantomData<Tag>) -> usize {
        16
    }

    proof fn size_law(v: &Self) {
        lemma_le_bytes_len(wrap_signed(*v as int, 0x1_0000_0000_0000_0000_0000_0000_0000_0000int), 16);
    }
}

impl<Tag> HaskellSize<Tag> for bool {
    open spec fn spec_size() -> nat {
        1
    }

    fn haskell_size(_tag: PhantomData<Tag>) -> usize {
        1
    }

    proof fn size_law(v: &Self) {
        lemma_le_bytes_len(
            if *v {
                1nat
            } else {
                0nat
            },
            1,
        );
    }
}

impl<Tag> HaskellSize<Tag> for () {
    open spec fn spec_size() -> nat {
        0
    }

    fn haskell_size(_tag: PhantomData<Tag>) -> usize {
        0
    }

    proof fn size_law(v: &Self) {
    }
}

impl<Tag, A: HaskellSize<Tag>, B: HaskellSize<Tag>> HaskellSize<Tag> for (A, B) {
    open spec fn spec_size() -> nat {
        A::spec_size() + B::spec_size()
    }

    fn haskell_size(tag: PhantomData<Tag>) -> usize {
        A::haskell_size(tag) + B::haskell_size(tag)
    }

    proof fn size_law(v: &Self) {
        A::size_law(&v.0);
        B::size_law(&v.1);
    }
}

impl<Tag, A: HaskellSize<Tag>, B: HaskellSize<Tag>, C: HaskellSize<Tag>> HaskellSize<Tag> for (
    A,
    B,
    C,
) {
    open spec fn spec_size() -> nat {
        A::spec_size() + B::spec_size() + C::spec_size()
    }

    fn haskell_size(tag: PhantomData<Tag>) -> usize {
        A::haskell_size(tag) + B::haskell_size(tag) + C::haskell_size(tag)
    }

    proof fn size_law(v: &Self) {
        A::size_law(&v.0);
        B::size_law(&v.1);
        C::size_law(&v.2);
    }
}


/// When every element of a type has the same encoded length, a sequence of
/// them encodes to exactly that length times the element count.
pub proof fn lemma_encode_elems_fixed_len<Tag, T: HaskellSize<Tag>>(s: Seq<T>)
    ensures
        encode_elems::<Tag, T>(s).len() == s.len() * T::spec_size(),
    decreases s.len(),
{
    if s.len() == 0 {
    } else {
        T::size_law(&s[0]);
        lemma_encode_elems_fixed_len::<Tag, T>(s.drop_first());
        assert(T::spec_size() + (s.len() - 1) * T::spec_size() == s.len() * T::spec_size())
            by (nonlinear_arith)
            requires
                s.len() >= 1,
        ;
    }
}


impl<Tag, T: HaskellSize<Tag>, const N: usize> HaskellSize<Tag> for [T; N] {
    open spec fn spec_size() -> nat {
        (N as nat) * T::spec_size()
    }

    fn haskell_size(tag: PhantomData<Tag>) -> (res: usize) {
        if N == 0 {
            proof {
                assert((N as nat) * T::spec_size() == 0) by (nonlinear_arith)
                    requires
                        N == 0,
                ;
            }
            0
        } else {
            proof {
                assert(T::spec_size() <= (N as nat) * T::spec_size()) by (nonlinear_arith)
                    requires
                        N >= 1,
                ;
            }
            let e = T::haskell_size(tag);
            proof {
                assert(e * (N as nat) == (N as nat) * T::spec_size()) by (nonlinear_arith)
                    requires
                        e == T::spec_size(),
                ;
            }
            e * N
        }
    }

    proof fn size_law(v: &Self) {
        assert forall|i: int| 0 <= i < v@.len() implies (#[trigger] v@[i]).encodable() by {
            T::size_law(&v@[i]);
        }
        lemma_encode_elems_fixed_len::<Tag, T>(v@);
    }
}


impl<
    Tag,
    A: HaskellSize<Tag>,
    B: HaskellSize<Tag>,
    C: HaskellSize<Tag>,
    D: HaskellSize<Tag>,
> HaskellSize<Tag> for (A, B, C, D) {
    open spec fn spec_size() -> nat {
        A::spec_size() + B::spec_size() + C::spec_size() + D::spec_size()
    }

    fn haskell_size(tag: PhantomData<Tag>) -> usize {
        A::haskell_size(tag) + B::haskell_size(tag) + C::haskell_size(tag) + D::haskell_size(tag)
    }

    proof fn size_law(v: &Self) {
        A::size_law(&v.0);
        B::size_law(&v.1);
        C::size_law(&v.2);
        D::size_law(&v.3);
    }
}

} // verus!
