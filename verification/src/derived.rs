//! Size instances for representative record shapes, written out exactly as
//! the mechanical derivation scheme produces them: the sum of the fields'
//! sizes, in declared order. A record with no fields has size zero; the
//! scheme covers named-field records, positional records and marker types,
//! and rejects enumerations and unions.

use core::marker::PhantomData;
use vstd::prelude::*;

use crate::error::MarshalError;
use crate::haskell_size::HaskellSize;
use crate::to_haskell::ToHaskell;

verus! {

/// A marker record with no fields.
pub struct EmptyStruct;

/// A record with positional fields.
pub struct UnnamedStruct(pub u16, pub (u8, u32));

/// A record with named fields.
pub struct NamedStruct {
    pub a: u8,
    pub b: u16,
    pub c: (u32, u64),
}

/// A record with a type parameter, bound field-wise to the capability.
pub struct ParamStruct<T> {
    pub a: u8,
    pub b: (T, T, T),
}

impl<Tag> ToHaskell<Tag> for EmptyStruct {
    open spec fn encodable(&self) -> bool {
        true
    }

    open spec fn hs_encoding(&self) -> Seq<u8> {
        Seq::empty()
    }

    fn to_haskell(&self, writer: &mut Vec<u8>, _tag: PhantomData<Tag>) -> Result<
        (),
        MarshalError,
    > {
        proof {
            assert(writer@ + Seq::<u8>::empty() =~= writer@);
        }
        Ok(())
    }
}

impl<Tag> HaskellSize<Tag> for EmptyStruct {
    open spec fn spec_size() -> nat {
        0
    }

    fn haskell_size(_tag: PhantomData<Tag>) -> usize {
        0
    }

    proof fn size_law(v: &Self) {
    }
}

impl<Tag> ToHaskell<Tag> for UnnamedStruct {
    open spec fn encodable(&self) -> bool {
        true
    }

    open spec fn hs_encoding(&self) -> Seq<u8> {
        <u16 as ToHaskell<Tag>>::hs_encoding(&self.0) + <(u8, u32) as ToHaskell<
            Tag,
        >>::hs_encoding(&self.1)
    }

    fn to_haskell(&self, writer: &mut Vec<u8>, tag: PhantomData<Tag>) -> Result<
        (),
        MarshalError,
    > {
        match self.0.to_haskell(writer, tag) {
            Ok(_) => {},
            Err(e) => {
                return Err(e);
            },
        }
        match self.1.to_haskell(writer, tag) {
            Ok(_) => {},
            Err(e) => {
                return Err(e);
            },
        }
        proof {
            assert(writer@ =~= old(writer)@ + <UnnamedStruct as ToHaskell<Tag>>::hs_encoding(
                self,
            ));
        }
        Ok(())
    }
}

impl<Tag> HaskellSize<Tag> for UnnamedStruct {
    open spec fn spec_size() -> nat {
        <u16 as HaskellSize<Tag>>::spec_size() + <(u8, u32) as HaskellSize<Tag>>::spec_size()
    }

    fn haskell_size(tag: PhantomData<Tag>) -> usize {
        <u16 as HaskellSize<Tag>>::haskell_size(tag) + <(u8, u32) as HaskellSize<
            Tag,
        >>::haskell_size(tag)
    }

    proof fn size_law(v: &Self) {
        <u16 as HaskellSize<Tag>>::size_law(&v.0);
        <(u8, u32) as HaskellSize<Tag>>::size_law(&v.1);
    }
}

impl<Tag> ToHaskell<Tag> for NamedStruct {
    open spec fn encodable(&self) -> bool {
        true
    }

    open spec fn hs_encoding(&self) -> Seq<u8> {
        <u8 as ToHaskell<Tag>>::hs_encoding(&self.a) + <u16 as ToHaskell<Tag>>::hs_encoding(
            &self.b,
        ) + <(u32, u64) as ToHaskell<Tag>>::hs_encoding(&self.c)
    }

    fn to_haskell(&self, writer: &mut Vec<u8>, tag: PhantomData<Tag>) -> Result<
        (),
        MarshalError,
    > {
        match self.a.to_haskell(writer, tag) {
            Ok(_) => {},
            Err(e) => {
                return Err(e);
            },
        }
        match self.b.to_haskell(writer, tag) {
            Ok(_) => {},
            Err(e) => {
                return Err(e);
            },
        }
        match self.c.to_haskell(writer, tag) {
            Ok(_) => {},
            Err(e) => {
                return Err(e);
            },
        }
        proof {
            assert(writer@ =~= old(writer)@ + <NamedStruct as ToHaskell<Tag>>::hs_encoding(self));
        }
        Ok(())
    }
}

impl<Tag> HaskellSize<Tag> for NamedStruct {
    open spec fn spec_size() -> nat {
        <u8 as HaskellSize<Tag>>::spec_size() + <u16 as HaskellSize<Tag>>::spec_size() + <(
            u32,
            u64,
        ) as HaskellSize<Tag>>::spec_size()
    }

    fn haskell_size(tag: PhantomData<Tag>) -> usize {
        <u8 as HaskellSize<Tag>>::haskell_size(tag) + <u16 as HaskellSize<Tag>>::haskell_size(tag)
            + <(u32, u64) as HaskellSize<Tag>>::haskell_size(tag)
    }

    proof fn size_law(v: &Self) {
        <u8 as HaskellSize<Tag>>::size_law(&v.a);
        <u16 as HaskellSize<Tag>>::size_law(&v.b);
        <(u32, u64) as HaskellSize<Tag>>::size_law(&v.c);
    }
}

impl<Tag, T: ToHaskell<Tag>> ToHaskell<Tag> for ParamStruct<T> {
    open spec fn encodable(&self) -> bool {
        self.b.encodable()
    }

    open spec fn hs_encoding(&self) -> Seq<u8> {
        <u8 as ToHaskell<Tag>>::hs_encoding(&self.a) + self.b.hs_encoding()
    }

    fn to_haskell(&self, writer: &mut Vec<u8>, tag: PhantomData<Tag>) -> Result<
        (),
        MarshalError,
    > {
        match self.a.to_haskell(writer, tag) {
            Ok(_) => {},
            Err(e) => {
                return Err(e);
            },
        }
        match self.b.to_haskell(writer, tag) {
            Ok(_) => {},
            Err(e) => {
                return Err(e);
            },
        }
        proof {
            assert(writer@ =~= old(writer)@ + <ParamStruct<T> as ToHaskell<Tag>>::hs_encoding(
                self,
            ));
        }
        Ok(())
    }
}

impl<Tag, T: HaskellSize<Tag>> HaskellSize<Tag> for ParamStruct<T> {
    open spec fn spec_size() -> nat {
        <u8 as HaskellSize<Tag>>::spec_size() + <(T, T, T) as HaskellSize<Tag>>::spec_size()
    }

    fn haskell_size(tag: PhantomData<Tag>) -> usize {
        <u8 as HaskellSize<Tag>>::haskell_size(tag) + <(T, T, T) as HaskellSize<
            Tag,
        >>::haskell_size(tag)
    }

    proof fn size_law(v: &Self) {
        <u8 as HaskellSize<Tag>>::size_law(&v.a);
        <(T, T, T) as HaskellSize<Tag>>::size_law(&v.b);
    }
}

} // verus!
