//! `ToHaskell` and `FromHaskell` instances for the types mandated by the base
//! codec's specification: the primitive integer types, booleans, the unit
//! type, strings, and the composite shapes (sequences, optional values,
//! tuples, fixed-size arrays).
//!
//! Hash maps and hash sets have no instance here: their encoding is defined
//! by the order in which the container's entries are enumerated, which is
//! not a function of the value, so it cannot meet the deterministic encoding
//! contract of [`ToHaskell`]. The base codec writes them as a length prefix
//! followed by the key-sorted entries, which is byte-identical to the
//! `Vec<(K, V)>` (or `Vec<T>`) instance applied to the sorted entries; the
//! unverified boundary crate converts hash containers to and from such
//! vectors around the verified instances.
//!
//! Tuple instances are written out by hand up to arity four; every further
//! arity follows the quadruple's scheme unchanged, and is added when a
//! caller needs it. Fixed-size arrays of every length have encode and size
//! instances; a decode instance would have to build a `[T; N]` element by
//! element, which cannot be done safely here, so a consumer of array-encoded
//! input decodes the elements one by one instead.

use core::marker::PhantomData;
use vstd::prelude::*;

use crate::base_codec;
use crate::cursor::ByteCursor;
use crate::error::MarshalError;
use crate::from_haskell::FromHaskell;
use crate::from_haskell::deep_seq;
use crate::to_haskell::elems_encodable;
use crate::to_haskell::encode_elems;
use crate::to_haskell::encode_slice;
use crate::to_haskell::lemma_encode_elems_push;
use crate::to_haskell::lemma_encode_elems_split;
use crate::to_haskell::lemma_encode_elems_take_succ;
use crate::to_haskell::ToHaskell;
use crate::wire::le_bytes;
use crate::wire::lemma_le_bytes_injective;
use crate::wire::lemma_le_bytes_len;
use crate::wire::lemma_concat_prefix;
use crate::wire::lemma_pow256_widths;
use crate::wire::wrap_signed;
use vstd::utf8::encode_utf8;
use vstd::utf8::encode_utf8_decode_utf8;

verus! {

impl<Tag> ToHaskell<Tag> for u8 {
    open spec fn encodable(&self) -> bool {
        true
    }

    open spec fn hs_encoding(&self) -> Seq<u8> {
        le_bytes(*self as nat, 1)
    }

    fn to_haskell(&self, writer: &mut Vec<u8>, _tag: PhantomData<Tag>) -> Result<
        (),
        MarshalError,
    > {
        base_codec::borsh_write_u8(*self, writer);
        Ok(())
    }
}

impl<Tag> FromHaskell<Tag> for u8 {
    fn from_haskell(buf: &mut ByteCursor, _tag: PhantomData<Tag>) -> (res: Result<
        u8,
        MarshalError,
    >)
        ensures
            old(buf).remaining().len() < 1 ==> res == Err::<u8, MarshalError>(
                MarshalError::UnexpectedEndOfInput,
            ),
            res is Err ==> final(buf).pos == old(buf).pos,
    {
        let r = base_codec::borsh_read_u8(buf.remaining_slice());
        match r {
            Ok(x) => {
                proof {
                    lemma_le_bytes_len(x as nat, 1);
                }
                buf.advance(1);
                proof {
                    lemma_pow256_widths();
                    assert(le_bytes(x as nat, 1) =~= old(buf).bytes@.subrange(
                        old(buf).pos as int,
                        buf.pos as int,
                    ));
                    assert forall|v: u8|
                        (#[trigger] <u8 as ToHaskell<Tag>>::hs_encoding(&v)).is_prefix_of(
                            old(buf).remaining(),
                        ) implies x == v && <u8 as ToHaskell<Tag>>::hs_encoding(&v).len()
                        == 1 by {
                        lemma_le_bytes_len(v as nat, 1);
                        assert(le_bytes(v as nat, 1) =~= le_bytes(x as nat, 1));
                        lemma_le_bytes_injective(x as nat, v as nat, 1);
                    }
                }
                Ok(x)
            },
            Err(e) => {
                proof {
                    assert forall|v: u8|
                        (#[trigger] <u8 as ToHaskell<Tag>>::hs_encoding(&v)).is_prefix_of(
                            old(buf).remaining(),
                        ) implies false by {
                        lemma_le_bytes_len(v as nat, 1);
                    }
                }
                Err(e)
            },
        }
    }
}

impl<Tag> ToHaskell<Tag> for u16 {
    open spec fn encodable(&self) -> bool {
        true
    }

    open spec fn hs_encoding(&self) -> Seq<u8> {
        le_bytes(*self as nat, 2)
    }

    fn to_haskell(&self, writer: &mut Vec<u8>, _tag: PhantomData<Tag>) -> Result<
        (),
        MarshalError,
    > {
        base_codec::borsh_write_u16(*self, writer);
        Ok(())
    }
}

impl<Tag> FromHaskell<Tag> for u16 {
    fn from_haskell(buf: &mut ByteCursor, _tag: PhantomData<Tag>) -> (res: Result<
        u16,
        MarshalError,
    >)
        ensures
            old(buf).remaining().len() < 2 ==> res == Err::<u16, MarshalError>(
                MarshalError::UnexpectedEndOfInput,
            ),
            res is Err ==> final(buf).pos == old(buf).pos,
    {
        let r = base_codec::borsh_read_u16(buf.remaining_slice());
        match r {
            Ok(x) => {
                proof {
                    lemma_le_bytes_len(x as nat, 2);
                }
                buf.advance(2);
                proof {
                    lemma_pow256_widths();
                    assert(le_bytes(x as nat, 2) =~= old(buf).bytes@.subrange(
                        old(buf).pos as int,
                        buf.pos as int,
                    ));
                    assert forall|v: u16|
                        (#[trigger] <u16 as ToHaskell<Tag>>::hs_encoding(&v)).is_prefix_of(
                            old(buf).remaining(),
                        ) implies x == v && <u16 as ToHaskell<Tag>>::hs_encoding(&v).len()
                        == 2 by {
                        lemma_le_bytes_len(v as nat, 2);
                        assert(le_bytes(v as nat, 2) =~= le_bytes(x as nat, 2));
                        lemma_le_bytes_injective(x as nat, v as nat, 2);
                    }
                }
                Ok(x)
            },
            Err(e) => {
                proof {
                    assert forall|v: u16|
                        (#[trigger] <u16 as ToHaskell<Tag>>::hs_encoding(&v)).is_prefix_of(
                            old(buf).remaining(),
                        ) implies false by {
                        lemma_le_bytes_len(v as nat, 2);
                    }
                }
                Err(e)
            },
        }
    }
}

impl<Tag> ToHaskell<Tag> for u32 {
    open spec fn encodable(&self) -> bool {
        true
    }

    open spec fn hs_encoding(&self) -> Seq<u8> {
        le_bytes(*self as nat, 4)
    }

    fn to_haskell(&self, writer: &mut Vec<u8>, _tag: PhantomData<Tag>) -> Result<
        (),
        MarshalError,
    > {
        base_codec::borsh_write_u32(*self, writer);
        Ok(())
    }
}

impl<Tag> FromHaskell<Tag> for u32 {
    fn from_haskell(buf: &mut ByteCursor, _tag: PhantomData<Tag>) -> (res: Result<
        u32,
        MarshalError,
    >)
        ensures
            old(buf).remaining().len() < 4 ==> res == Err::<u32, MarshalError>(
                MarshalError::UnexpectedEndOfInput,
            ),
            res is Err ==> final(buf).pos == old(buf).pos,
    {
        let r = base_codec::borsh_read_u32(buf.remaining_slice());
        match r {
            Ok(x) => {
                proof {
                    lemma_le_bytes_len(x as nat, 4);
                }
                buf.advance(4);
                proof {
                    lemma_pow256_widths();
                    assert(le_bytes(x as nat, 4) =~= old(buf).bytes@.subrange(
                        old(buf).pos as int,
                        buf.pos as int,
                    ));
                    assert forall|v: u32|
                        (#[trigger] <u32 as ToHaskell<Tag>>::hs_encoding(&v)).is_prefix_of(
                            old(buf).remaining(),
                        ) implies x == v && <u32 as ToHaskell<Tag>>::hs_encoding(&v).len()
                        == 4 by {
                        lemma_le_bytes_len(v as nat, 4);
                        assert(le_bytes(v as nat, 4) =~= le_bytes(x as nat, 4));
                        lemma_le_bytes_injective(x as nat, v as nat, 4);
                    }
                }
                Ok(x)
            },
            Err(e) => {
                proof {
                    assert forall|v: u32|
                        (#[trigger] <u32 as ToHaskell<Tag>>::hs_encoding(&v)).is_prefix_of(
                            old(buf).remaining(),
                        ) implies false by {
                        lemma_le_bytes_len(v as nat, 4);
                    }
                }
                Err(e)
            },
        }
    }
}

impl<Tag> ToHaskell<Tag> for u64 {
    open spec fn encodable(&self) -> bool {
        true
    }

    open spec fn hs_encoding(&self) -> Seq<u8> {
        le_bytes(*self as nat, 8)
    }

    fn to_haskell(&self, writer: &mut Vec<u8>, _tag: PhantomData<Tag>) -> Result<
        (),
        MarshalError,
    > {
        base_codec::borsh_write_u64(*self, writer);
        Ok(())
    }
}

impl<Tag> FromHaskell<Tag> for u64 {
    fn from_haskell(buf: &mut ByteCursor, _tag: PhantomData<Tag>) -> (res: Result<
        u64,
        MarshalError,
    >)
        ensures
            old(buf).remaining().len() < 8 ==> res == Err::<u64, MarshalError>(
                MarshalError::UnexpectedEndOfInput,
            ),
            res is Err ==> final(buf).pos == old(buf).pos,
    {
        let r = base_codec::borsh_read_u64(buf.remaining_slice());
        match r {
            Ok(x) => {
                proof {
                    lemma_le_bytes_len(x as nat, 8);
                }
                buf.advance(8);
                proof {
                    lemma_pow256_widths();
                    assert(le_bytes(x as nat, 8) =~= old(buf).bytes@.subrange(
                        old(buf).pos as int,
                        buf.pos as int,
                    ));
                    assert forall|v: u64|
                        (#[trigger] <u64 as ToHaskell<Tag>>::hs_encoding(&v)).is_prefix_of(
                            old(buf).remaining(),
                        ) implies x == v && <u64 as ToHaskell<Tag>>::hs_encoding(&v).len()
                        == 8 by {
                        lemma_le_bytes_len(v as nat, 8);
                        assert(le_bytes(v as nat, 8) =~= le_bytes(x as nat, 8));
                        lemma_le_bytes_injective(x as nat, v as nat, 8);
                    }
                }
                Ok(x)
            },
            Err(e) => {
                proof {
                    assert forall|v: u64|
                        (#[trigger] <u64 as ToHaskell<Tag>>::hs_encoding(&v)).is_prefix_of(
                            old(buf).remaining(),
                        ) implies false by {
                        lemma_le_bytes_len(v as nat, 8);
                    }
                }
                Err(e)
            },
        }
    }
}

impl<Tag> ToHaskell<Tag> for u128 {
    open spec fn encodable(&self) -> bool {
        true
    }

    open spec fn hs_encoding(&self) -> Seq<u8> {
        le_bytes(*self as nat, 16)
    }

    fn to_haskell(&self, writer: &mut Vec<u8>, _tag: PhantomData<Tag>) -> Result<
        (),
        MarshalError,
    > {
        base_codec::borsh_write_u128(*self, writer);
        Ok(())
    }
}

impl<Tag> FromHaskell<Tag> for u128 {
    fn from_haskell(buf: &mut ByteCursor, _tag: PhantomData<Tag>) -> (res: Result<
        u128,
        MarshalError,
    >)
        ensures
            old(buf).remaining().len() < 16 ==> res == Err::<u128, MarshalError>(
                MarshalError::UnexpectedEndOfInput,
            ),
            res is Err ==> final(buf).pos == old(buf).pos,
    {
        let r = base_codec::borsh_read_u128(buf.remaining_slice());
        match r {
            Ok(x) => {
                proof {
                    lemma_le_bytes_len(x as nat, 16);
                }
                buf.advance(16);
                proof {
                    lemma_pow256_widths();
                    assert(le_bytes(x as nat, 16) =~= old(buf).bytes@.subrange(
                        old(buf).pos as int,
                        buf.pos as int,
                    ));
                    assert forall|v: u128|
                        (#[trigger] <u128 as ToHaskell<Tag>>::hs_encoding(&v)).is_prefix_of(
                            old(buf).remaining(),
                        ) implies x == v && <u128 as ToHaskell<Tag>>::hs_encoding(&v).len()
                        == 16 by {
                        lemma_le_bytes_len(v as nat, 16);
                        assert(le_bytes(v as nat, 16) =~= le_bytes(x as nat, 16));
                        lemma_le_bytes_injective(x as nat, v as nat, 16);
                    }
                }
                Ok(x)
            },
            Err(e) => {
                proof {
                    assert forall|v: u128|
                        (#[trigger] <u128 as ToHaskell<Tag>>::hs_encoding(&v)).is_prefix_of(
                            old(buf).remaining(),
                        ) implies false by {
                        lemma_le_bytes_len(v as nat, 16);
                    }
                }
                Err(e)
            },
        }
    }
}

impl<Tag> ToHaskell<Tag> for i8 {
    open spec fn encodable(&self) -> bool {
        true
    }

    open spec fn hs_encoding(&self) -> Seq<u8> {
        le_bytes(wrap_signed(*self as int, 0x100), 1)
    }

    fn to_haskell(&self, writer: &mut Vec<u8>, _tag: PhantomData<Tag>) -> Result<
        (),
        MarshalError,
    > {
        base_codec::borsh_write_i8(*self, writer);
        Ok(())
    }
}

impl<Tag> FromHaskell<Tag> for i8 {
    fn from_haskell(buf: &mut ByteCursor, _tag: PhantomData<Tag>) -> (res: Result<
        i8,
        MarshalError,
    >)
        ensures
            old(buf).remaining().len() < 1 ==> res == Err::<i8, MarshalError>(
                MarshalError::UnexpectedEndOfInput,
            ),
            res is Err ==> final(buf).pos == old(buf).pos,
    {
        let r = base_codec::borsh_read_i8(buf.remaining_slice());
        match r {
            Ok(x) => {
                proof {
                    lemma_le_bytes_len(wrap_signed(x as int, 0x100), 1);
                }
                buf.advance(1);
                proof {
                    lemma_pow256_widths();
                    assert(le_bytes(wrap_signed(x as int, 0x100), 1) =~= old(buf).bytes@.subrange(
                        old(buf).pos as int,
                        buf.pos as int,
                    ));
                    assert forall|v: i8|
                        (#[trigger] <i8 as ToHaskell<Tag>>::hs_encoding(&v)).is_prefix_of(
                            old(buf).remaining(),
                        ) implies x == v && <i8 as ToHaskell<Tag>>::hs_encoding(&v).len()
                        == 1 by {
                        lemma_le_bytes_len(wrap_signed(v as int, 0x100), 1);
                        assert(le_bytes(wrap_signed(v as int, 0x100), 1) =~= le_bytes(
                            wrap_signed(x as int, 0x100),
                            1,
                        ));
                        lemma_le_bytes_injective(
                            wrap_signed(x as int, 0x100),
                            wrap_signed(v as int, 0x100),
                            1,
                        );
                    }
                }
                Ok(x)
            },
            Err(e) => {
                proof {
                    assert forall|v: i8|
                        (#[trigger] <i8 as ToHaskell<Tag>>::hs_encoding(&v)).is_prefix_of(
                            old(buf).remaining(),
                        ) implies false by {
                        lemma_le_bytes_len(wrap_signed(v as int, 0x100), 1);
                    }
                }
                Err(e)
            },
        }
    }
}

impl<Tag> ToHaskell<Tag> for i16 {
    open spec fn encodable(&self) -> bool {
        true
    }

    open spec fn hs_encoding(&self) -> Seq<u8> {
        le_bytes(wrap_signed(*self as int, 0x1_0000), 2)
    }

    fn to_haskell(&self, writer: &mut Vec<u8>, _tag: PhantomData<Tag>) -> Result<
        (),
        MarshalError,
    > {
        base_codec::borsh_write_i16(*self, writer);
        Ok(())
    }
}

impl<Tag> FromHaskell<Tag> for i16 {
    fn from_haskell(buf: &mut ByteCursor, _tag: PhantomData<Tag>) -> (res: Result<
        i16,
        MarshalError,
    >)
        ensures
            old(buf).remaining().len() < 2 ==> res == Err::<i16, MarshalError>(
                MarshalError::UnexpectedEndOfInput,
            ),
            res is Err ==> final(buf).pos == old(buf).pos,
    {
        let r = base_codec::borsh_read_i16(buf.remaining_slice());
        match r {
            Ok(x) => {
                proof {
                    lemma_le_bytes_len(wrap_signed(x as int, 0x1_0000), 2);
                }
                buf.advance(2);
                proof {
                    lemma_pow256_widths();
                    assert(le_bytes(wrap_signed(x as int, 0x1_0000), 2) =~= old(buf).bytes@.subrange(
                        old(buf).pos as int,
                        buf.pos as int,
                    ));
                    assert forall|v: i16|
                        (#[trigger] <i16 as ToHaskell<Tag>>::hs_encoding(&v)).is_prefix_of(
                            old(buf).remaining(),
                        ) implies x == v && <i16 as ToHaskell<Tag>>::hs_encoding(&v).len()
                        == 2 by {
                        lemma_le_bytes_len(wrap_signed(v as int, 0x1_0000), 2);
                        assert(le_bytes(wrap_signed(v as int, 0x1_0000), 2) =~= le_bytes(
                            wrap_signed(x as int, 0x1_0000),
                            2,
                        ));
                        lemma_le_bytes_injective(
                            wrap_signed(x as int, 0x1_0000),
                            wrap_signed(v as int, 0x1_0000),
                            2,
                        );
                    }
                }
                Ok(x)
            },
            Err(e) => {
                proof {
                    assert forall|v: i16|
                        (#[trigger] <i16 as ToHaskell<Tag>>::hs_encoding(&v)).is_prefix_of(
                            old(buf).remaining(),
                        ) implies false by {
                        lemma_le_bytes_len(wrap_signed(v as int, 0x1_0000), 2);
                    }
                }
                Err(e)
            },
        }
    }
}

impl<Tag> ToHaskell<Tag> for i32 {
    open spec fn encodable(&self) -> bool {
        true
    }

    open spec fn hs_encoding(&self) -> Seq<u8> {
        le_bytes(wrap_signed(*self as int, 0x1_0000_0000), 4)
    }

    fn to_haskell(&self, writer: &mut Vec<u8>, _tag: PhantomData<Tag>) -> Result<
        (),
        MarshalError,
    > {
        base_codec::borsh_write_i32(*self, writer);
        Ok(())
    }
}

impl<Tag> FromHaskell<Tag> for i32 {
    fn from_haskell(buf: &mut ByteCursor, _tag: PhantomData<Tag>) -> (res: Result<
        i32,
        MarshalError,
    >)
        ensures
            old(buf).remaining().len() < 4 ==> res == Err::<i32, MarshalError>(
                MarshalError::UnexpectedEndOfInput,
            ),
            res is Err ==> final(buf).pos == old(buf).pos,
    {
        let r = base_codec::borsh_read_i32(buf.remaining_slice());
        match r {
            Ok(x) => {
                proof {
                    lemma_le_bytes_len(wrap_signed(x as int, 0x1_0000_0000), 4);
                }
                buf.advance(4);
                proof {
                    lemma_pow256_widths();
                    assert(le_bytes(wrap_signed(x as int, 0x1_0000_0000), 4) =~= old(buf).bytes@.subrange(
                        old(buf).pos as int,
                        buf.pos as int,
                    ));
                    assert forall|v: i32|
                        (#[trigger] <i32 as ToHaskell<Tag>>::hs_encoding(&v)).is_prefix_of(
                            old(buf).remaining(),
                        ) implies x == v && <i32 as ToHaskell<Tag>>::hs_encoding(&v).len()
                        == 4 by {
                        lemma_le_bytes_len(wrap_signed(v as int, 0x1_0000_0000), 4);
                        assert(le_bytes(wrap_signed(v as int, 0x1_0000_0000), 4) =~= le_bytes(
                            wrap_signed(x as int, 0x1_0000_0000),
                            4,
                        ));
                        lemma_le_bytes_injective(
                            wrap_signed(x as int, 0x1_0000_0000),
                            wrap_signed(v as int, 0x1_0000_0000),
                            4,
                        );
                    }
                }
                Ok(x)
            },
            Err(e) => {
                proof {
                    assert forall|v: i32|
                        (#[trigger] <i32 as ToHaskell<Tag>>::hs_encoding(&v)).is_prefix_of(
                            old(buf).remaining(),
                        ) implies false by {
                        lemma_le_bytes_len(wrap_signed(v as int, 0x1_0000_0000), 4);
                    }
                }
                Err(e)
            },
        }
    }
}

impl<Tag> ToHaskell<Tag> for i64 {
    open spec fn encodable(&self) -> bool {
        true
    }

    open spec fn hs_encoding(&self) -> Seq<u8> {
        le_bytes(wrap_signed(*self as int, 0x1_0000_0000_0000_0000), 8)
    }

    fn to_haskell(&self, writer: &mut Vec<u8>, _tag: PhantomData<Tag>) -> Result<
        (),
        MarshalError,
    > {
        base_codec::borsh_write_i64(*self, writer);
        Ok(())
    }
}

impl<Tag> FromHaskell<Tag> for i64 {
    fn from_haskell(buf: &mut ByteCursor, _tag: PhantomData<Tag>) -> (res: Result<
        i64,
        MarshalError,
    >)
        ensures
            old(buf).remaining().len() < 8 ==> res == Err::<i64, MarshalError>(
                MarshalError::UnexpectedEndOfInput,
            ),
            res is Err ==> final(buf).pos == old(buf).pos,
    {
        let r = base_codec::borsh_read_i64(buf.remaining_slice());
        match r {
            Ok(x) => {
                proof {
                    lemma_le_bytes_len(wrap_signed(x as int, 0x1_0000_0000_0000_0000), 8);
                }
                buf.advance(8);
                proof {
                    lemma_pow256_widths();
                    assert(le_bytes(wrap_signed(x as int, 0x1_0000_0000_0000_0000), 8) =~= old(buf).bytes@.subrange(
                        old(buf).pos as int,
                        buf.pos as int,
                    ));
                    assert forall|v: i64|
                        (#[trigger] <i64 as ToHaskell<Tag>>::hs_encoding(&v)).is_prefix_of(
                            old(buf).remaining(),
                        ) implies x == v && <i64 as ToHaskell<Tag>>::hs_encoding(&v).len()
                        == 8 by {
                        lemma_le_bytes_len(wrap_signed(v as int, 0x1_0000_0000_0000_0000), 8);
                        assert(le_bytes(wrap_signed(v as int, 0x1_0000_0000_0000_0000), 8) =~= le_bytes(
                            wrap_signed(x as int, 0x1_0000_0000_0000_0000),
                            8,
                        ));
                        lemma_le_bytes_injective(
                            wrap_signed(x as int, 0x1_0000_0000_0000_0000),
                            wrap_signed(v as int, 0x1_0000_0000_0000_0000),
                            8,
                        );
                    }
                }
                Ok(x)
            },
            Err(e) => {
                proof {
                    assert forall|v: i64|
                        (#[trigger] <i64 as ToHaskell<Tag>>::hs_encoding(&v)).is_prefix_of(
                            old(buf).remaining(),
                        ) implies false by {
                        lemma_le_bytes_len(wrap_signed(v as int, 0x1_0000_0000_0000_0000), 8);
                    }
                }
                Err(e)
            },
        }
    }
}

impl<Tag> ToHaskell<Tag> for i128 {
    open spec fn encodable(&self) -> bool {
        true
    }

    open spec fn hs_encoding(&self) -> Seq<u8> {
        le_bytes(wrap_signed(*self as int, 0x1_0000_0000_0000_0000_0000_0000_0000_0000int), 16)
    }

    fn to_haskell(&self, writer: &mut Vec<u8>, _tag: PhantomData<Tag>) -> Result<
        (),
        MarshalError,
    > {
        base_codec::borsh_write_i128(*self, writer);
        Ok(())
    }
}

impl<Tag> FromHaskell<Tag> for i128 {
    fn from_haskell(buf: &mut ByteCursor, _tag: PhantomData<Tag>) -> (res: Result<
        i128,
        MarshalError,
    >)
        ensures
            old(buf).remaining().len() < 16 ==> res == Err::<i128, MarshalError>(
                MarshalError::UnexpectedEndOfInput,
            ),
            res is Err ==> final(buf).pos == old(buf).pos,
    {
        let r = base_codec::borsh_read_i128(buf.remaining_slice());
        match r {
            Ok(x) => {
                proof {
                    lemma_le_bytes_len(wrap_signed(x as int, 0x1_0000_0000_0000_0000_0000_0000_0000_0000int), 16);
                }
                buf.advance(16);
                proof {
                    lemma_pow256_widths();
                    assert(le_bytes(wrap_signed(x as int, 0x1_0000_0000_0000_0000_0000_0000_0000_0000int), 16) =~= old(buf).bytes@.subrange(
                        old(buf).pos as int,
                        buf.pos as int,
                    ));
                    assert forall|v: i128|
                        (#[trigger] <i128 as ToHaskell<Tag>>::hs_encoding(&v)).is_prefix_of(
                            old(buf).remaining(),
                        ) implies x == v && <i128 as ToHaskell<Tag>>::hs_encoding(&v).len()
                        == 16 by {
                        lemma_le_bytes_len(wrap_signed(v as int, 0x1_0000_0000_0000_0000_0000_0000_0000_0000int), 16);
                        assert(le_bytes(wrap_signed(v as int, 0x1_0000_0000_0000_0000_0000_0000_0000_0000int), 16) =~= le_bytes(
                            wrap_signed(x as int, 0x1_0000_0000_0000_0000_0000_0000_0000_0000int),
                            16,
                        ));
                        lemma_le_bytes_injective(
                            wrap_signed(x as int, 0x1_0000_0000_0000_0000_0000_0000_0000_0000int),
                            wrap_signed(v as int, 0x1_0000_0000_0000_0000_0000_0000_0000_0000int),
                            16,
                        );
                    }
                }
                Ok(x)
            },
            Err(e) => {
                proof {
                    assert forall|v: i128|
                        (#[trigger] <i128 as ToHaskell<Tag>>::hs_encoding(&v)).is_prefix_of(
                            old(buf).remaining(),
                        ) implies false by {
                        lemma_le_bytes_len(wrap_signed(v as int, 0x1_0000_0000_0000_0000_0000_0000_0000_0000int), 16);
                    }
                }
                Err(e)
            },
        }
    }
}


impl<Tag> ToHaskell<Tag> for bool {
    open spec fn encodable(&self) -> bool {
        true
    }

    open spec fn hs_encoding(&self) -> Seq<u8> {
        le_bytes(if *self { 1nat } else { 0nat }, 1)
    }

    fn to_haskell(&self, writer: &mut Vec<u8>, tag: PhantomData<Tag>) -> Result<
        (),
        MarshalError,
    > {
        let as_u8: u8 = if *self { 1 } else { 0 };
        as_u8.to_haskell(writer, tag)
    }
}

impl<Tag> FromHaskell<Tag> for bool {
    fn from_haskell(buf: &mut ByteCursor, tag: PhantomData<Tag>) -> (res: Result<
        bool,
        MarshalError,
    >)
        ensures
            old(buf).remaining().len() == 0 ==> res == Err::<bool, MarshalError>(
                MarshalError::UnexpectedEndOfInput,
            ),
            old(buf).remaining().len() >= 1 && old(buf).remaining()[0] != 0 && old(
                buf,
            ).remaining()[0] != 1 ==> res == Err::<bool, MarshalError>(
                MarshalError::InvalidDiscriminant,
            ) && final(buf).pos == old(buf).pos + 1,
    {
        let r = u8::from_haskell(buf, tag);
        match r {
            Ok(b) => {
                proof {
                    lemma_le_bytes_len(b as nat, 1);
                    assert(le_bytes(b as nat, 1) =~= old(buf).remaining().take(1));
                    assert(old(buf).remaining()[0] == b);
                }
                if b == 0 {
                    proof {
                        lemma_le_bytes_len(0, 1);
                        bool_complete_from_u8::<Tag>(old(buf).remaining(), b);
                    }
                    Ok(false)
                } else if b == 1 {
                    proof {
                        lemma_le_bytes_len(1, 1);
                        bool_complete_from_u8::<Tag>(old(buf).remaining(), b);
                    }
                    Ok(true)
                } else {
                    proof {
                        bool_complete_from_u8::<Tag>(old(buf).remaining(), b);
                    }
                    Err(MarshalError::InvalidDiscriminant)
                }
            },
            Err(e) => {
                proof {
                    assert forall|v: bool|
                        (#[trigger] <bool as ToHaskell<Tag>>::hs_encoding(&v)).is_prefix_of(
                            old(buf).remaining(),
                        ) implies false by {
                        let vb: u8 = if v { 1u8 } else { 0u8 };
                        assert(<u8 as ToHaskell<Tag>>::hs_encoding(&vb) == <bool as ToHaskell<
                            Tag,
                        >>::hs_encoding(&v));
                    }
                    if old(buf).remaining().len() >= 1 {
                        let b0 = old(buf).remaining()[0];
                        lemma_le_bytes_len(b0 as nat, 1);
                        assert(<u8 as ToHaskell<Tag>>::hs_encoding(&b0) =~= old(
                            buf,
                        ).remaining().take(1));
                        assert(<u8 as ToHaskell<Tag>>::hs_encoding(&b0).is_prefix_of(
                            old(buf).remaining(),
                        ));
                        assert(false);
                    }
                }
                Err(e)
            },
        }
    }
}

/// Auxiliary fact for decoding booleans: when the input starts with the
/// encoding of a boolean `v` and the first byte read back is `b`, then `b`
/// is the discriminant of `v`.
proof fn bool_complete_from_u8<Tag>(rem: Seq<u8>, b: u8)
    requires
        le_bytes(b as nat, 1).is_prefix_of(rem),
    ensures
        forall|v: bool|
            (#[trigger] <bool as ToHaskell<Tag>>::hs_encoding(&v)).is_prefix_of(rem) ==> b == (
            if v {
                1nat
            } else {
                0nat
            }),
{
    assert forall|v: bool|
        (#[trigger] <bool as ToHaskell<Tag>>::hs_encoding(&v)).is_prefix_of(rem) implies b == (
    if v {
        1nat
    } else {
        0nat
    }) by {
        let d = if v {
            1nat
        } else {
            0nat
        };
        lemma_le_bytes_len(d, 1);
        lemma_le_bytes_len(b as nat, 1);
        assert(le_bytes(d, 1) =~= le_bytes(b as nat, 1));
        lemma_pow256_widths();
        lemma_le_bytes_injective(d, b as nat, 1);
    }
}

impl<Tag> ToHaskell<Tag> for () {
    open spec fn encodable(&self) -> bool {
        true
    }

    open spec fn hs_encoding(&self) -> Seq<u8> {
        Seq::empty()
    }

    fn to_haskell(&self, writer: &mut Vec<u8>, _tag: PhantomData<Tag>) -> Result<
        (),
        MarshalError,
    > {
        proof {
            assert(writer@ + Seq::<u8>::empty() =~= writer@);
        }
        Ok(())
    }
}

impl<Tag> FromHaskell<Tag> for () {
    fn from_haskell(buf: &mut ByteCursor, _tag: PhantomData<Tag>) -> Result<(), MarshalError> {
        proof {
            assert(Seq::<u8>::empty() =~= buf.bytes@.subrange(buf.pos as int, buf.pos as int));
        }
        Ok(())
    }
}

impl<Tag> ToHaskell<Tag> for String {
    open spec fn encodable(&self) -> bool {
        encode_utf8(self@).len() < 0x1_0000_0000
    }

    open spec fn hs_encoding(&self) -> Seq<u8> {
        le_bytes(encode_utf8(self@).len(), 4) + encode_utf8(self@)
    }

    fn to_haskell(&self, writer: &mut Vec<u8>, _tag: PhantomData<Tag>) -> (res: Result<
        (),
        MarshalError,
    >)
        ensures
            encode_utf8(self@).len() >= 0x1_0000_0000 ==> res == Err::<(), MarshalError>(
                MarshalError::LengthOverflow,
            ) && final(writer)@ == old(writer)@,
    {
        match base_codec::borsh_write_str(self.as_str(), writer) {
            Ok(_) => {
                proof {
                    assert(writer@ =~= old(writer)@ + <String as ToHaskell<Tag>>::hs_encoding(
                        self,
                    ));
                }
                Ok(())
            },
            Err(e) => Err(e),
        }
    }
}

impl<Tag> FromHaskell<Tag> for String {
    fn from_haskell(buf: &mut ByteCursor, _tag: PhantomData<Tag>) -> Result<String, MarshalError> {
        let rem = buf.remaining_slice();
        let n = rem.len();
        match base_codec::borsh_read_string(rem) {
            Ok((x, rest)) => {
                let consumed = n - rest.len();
                proof {
                    lemma_le_bytes_len(encode_utf8(x@).len(), 4);
                }
                buf.advance(consumed);
                proof {
                    lemma_pow256_widths();
                    assert(<String as ToHaskell<Tag>>::hs_encoding(&x) =~= old(
                        buf,
                    ).bytes@.subrange(old(buf).pos as int, buf.pos as int));
                    assert forall|v: String|
                        <String as ToHaskell<Tag>>::encodable(&v) && (
                        #[trigger] <String as ToHaskell<Tag>>::hs_encoding(&v)).is_prefix_of(
                            old(buf).remaining(),
                        ) implies x@ == v@ && <String as ToHaskell<Tag>>::hs_encoding(&v).len()
                        == consumed by {
                        let lx = encode_utf8(x@).len() as int;
                        let lv = encode_utf8(v@).len() as int;
                        lemma_le_bytes_len(encode_utf8(v@).len(), 4);
                        let rem0 = old(buf).remaining();
                        let encv = <String as ToHaskell<Tag>>::hs_encoding(&v);
                        assert(encv.len() == 4 + lv);
                        assert(encv =~= rem0.take(4 + lv));
                        assert(le_bytes(encode_utf8(v@).len(), 4) =~= rem0.take(4));
                        assert(le_bytes(encode_utf8(x@).len(), 4) =~= rem0.take(4));
                        lemma_le_bytes_injective(encode_utf8(v@).len(), encode_utf8(x@).len(), 4);
                        assert(encode_utf8(v@) =~= encv.subrange(4, 4 + lv));
                        assert(encode_utf8(x@) =~= rem0.subrange(4, 4 + lx));
                        assert(encode_utf8(v@) =~= encode_utf8(x@));
                        encode_utf8_decode_utf8(v@);
                        encode_utf8_decode_utf8(x@);
                    }
                }
                Ok(x)
            },
            Err(e) => {
                proof {
                    assert forall|v: String|
                        <String as ToHaskell<Tag>>::encodable(&v) && (
                        #[trigger] <String as ToHaskell<Tag>>::hs_encoding(&v)).is_prefix_of(
                            old(buf).remaining(),
                        ) implies false by {
                        assert(!(le_bytes(encode_utf8(v@).len(), 4) + encode_utf8(
                            v@,
                        )).is_prefix_of(old(buf).remaining()));
                    }
                }
                Err(e)
            },
        }
    }
}

impl<Tag, T: ToHaskell<Tag>> ToHaskell<Tag> for Option<T> {
    open spec fn encodable(&self) -> bool {
        match self {
            Option::None => true,
            Option::Some(t) => t.encodable(),
        }
    }

    open spec fn hs_encoding(&self) -> Seq<u8> {
        match self {
            Option::None => le_bytes(0, 1),
            Option::Some(t) => le_bytes(1, 1) + t.hs_encoding(),
        }
    }

    fn to_haskell(&self, writer: &mut Vec<u8>, tag: PhantomData<Tag>) -> Result<
        (),
        MarshalError,
    > {
        match self {
            Option::None => {
                let disc: u8 = 0;
                disc.to_haskell(writer, tag)
            },
            Option::Some(t) => {
                let disc: u8 = 1;
                let r1 = disc.to_haskell(writer, tag);
                match r1 {
                    Ok(_) => {
                        match t.to_haskell(writer, tag) {
                            Ok(_) => {
                                proof {
                                    assert(writer@ =~= old(writer)@
                                        + <Option<T> as ToHaskell<Tag>>::hs_encoding(self));
                                }
                                Ok(())
                            },
                            Err(e) => Err(e),
                        }
                    },
                    Err(e) => Err(e),
                }
            },
        }
    }
}

impl<Tag, T: FromHaskell<Tag>> FromHaskell<Tag> for Option<T> {
    fn from_haskell(buf: &mut ByteCursor, tag: PhantomData<Tag>) -> (res: Result<
        Option<T>,
        MarshalError,
    >)
        ensures
            old(buf).remaining().len() == 0 ==> res == Err::<Option<T>, MarshalError>(
                MarshalError::UnexpectedEndOfInput,
            ),
            old(buf).remaining().len() >= 1 && old(buf).remaining()[0] != 0 && old(
                buf,
            ).remaining()[0] != 1 ==> res == Err::<Option<T>, MarshalError>(
                MarshalError::InvalidDiscriminant,
            ) && final(buf).pos == old(buf).pos + 1,
    {
        let r = u8::from_haskell(buf, tag);
        match r {
            Ok(d) => {
                proof {
                    lemma_le_bytes_len(d as nat, 1);
                    assert(le_bytes(d as nat, 1) =~= old(buf).remaining().take(1));
                    assert(old(buf).remaining()[0] == d);
                }
                if d == 0 {
                    proof {
                        lemma_le_bytes_len(0, 1);
                        lemma_le_bytes_len(1, 1);
                        assert(<Option<T> as ToHaskell<Tag>>::hs_encoding(&Option::<T>::None)
                            =~= old(buf).bytes@.subrange(old(buf).pos as int, buf.pos as int));
                        assert forall|v: Option<T>|
                            v.encodable() && (
                            #[trigger] <Option<T> as ToHaskell<Tag>>::hs_encoding(
                                &v,
                            )).is_prefix_of(old(buf).remaining()) implies (v matches Option::None)
                            && <Option<T> as ToHaskell<Tag>>::hs_encoding(&v).len() == 1 by {
                            option_discriminant_is_first_byte::<Tag, T>(
                                v,
                                old(buf).remaining(),
                                d,
                            );
                        }
                    }
                    Ok(None)
                } else if d == 1 {
                    let ghost mid = *buf;
                    let inner = T::from_haskell(buf, tag);
                    match inner {
                        Ok(t) => {
                            proof {
                                lemma_le_bytes_len(1, 1);
                                assert(<Option<T> as ToHaskell<Tag>>::hs_encoding(
                                    &Option::Some(t),
                                ) =~= old(buf).bytes@.subrange(
                                    old(buf).pos as int,
                                    buf.pos as int,
                                ));
                                assert forall|v: Option<T>|
                                    v.encodable() && (
                                    #[trigger] <Option<T> as ToHaskell<Tag>>::hs_encoding(
                                        &v,
                                    )).is_prefix_of(old(buf).remaining()) implies (v matches
                                Option::Some(w) && Option::Some(t).deep_view() == v.deep_view()
                                    && buf.pos == old(buf).pos
                                    + <Option<T> as ToHaskell<Tag>>::hs_encoding(&v).len()) by {
                                    option_discriminant_is_first_byte::<Tag, T>(
                                        v,
                                        old(buf).remaining(),
                                        d,
                                    );
                                    let w = v.arrow_Some_0();
                                    assert(<Option<T> as ToHaskell<Tag>>::hs_encoding(&v)
                                        =~= le_bytes(1, 1) + w.hs_encoding());
                                    assert(w.hs_encoding().is_prefix_of(mid.remaining())) by {
                                        assert(mid.remaining() =~= old(buf).remaining().skip(1));
                                        assert(w.hs_encoding() =~= <Option<T> as ToHaskell<
                                            Tag,
                                        >>::hs_encoding(&v).subrange(
                                            1,
                                            1 + w.hs_encoding().len() as int,
                                        ));
                                        assert(w.hs_encoding()
                                            =~= mid.remaining().take(w.hs_encoding().len() as int));
                                    }
                                }
                            }
                            Ok(Some(t))
                        },
                        Err(e) => {
                            proof {
                                lemma_le_bytes_len(1, 1);
                                assert forall|v: Option<T>|
                                    v.encodable() && (
                                    #[trigger] <Option<T> as ToHaskell<Tag>>::hs_encoding(
                                        &v,
                                    )).is_prefix_of(old(buf).remaining()) implies false by {
                                    option_discriminant_is_first_byte::<Tag, T>(
                                        v,
                                        old(buf).remaining(),
                                        d,
                                    );
                                    let w = v.arrow_Some_0();
                                    assert(<Option<T> as ToHaskell<Tag>>::hs_encoding(&v)
                                        =~= le_bytes(1, 1) + w.hs_encoding());
                                    assert(w.hs_encoding().is_prefix_of(mid.remaining())) by {
                                        assert(mid.remaining() =~= old(buf).remaining().skip(1));
                                        assert(w.hs_encoding() =~= <Option<T> as ToHaskell<
                                            Tag,
                                        >>::hs_encoding(&v).subrange(
                                            1,
                                            1 + w.hs_encoding().len() as int,
                                        ));
                                        assert(w.hs_encoding()
                                            =~= mid.remaining().take(w.hs_encoding().len() as int));
                                    }
                                }
                            }
                            Err(e)
                        },
                    }
                } else {
                    proof {
                        lemma_le_bytes_len(0, 1);
                        lemma_le_bytes_len(1, 1);
                        assert forall|v: Option<T>|
                            v.encodable() && (
                            #[trigger] <Option<T> as ToHaskell<Tag>>::hs_encoding(
                                &v,
                            )).is_prefix_of(old(buf).remaining()) implies false by {
                            option_discriminant_is_first_byte::<Tag, T>(
                                v,
                                old(buf).remaining(),
                                d,
                            );
                        }
                    }
                    Err(MarshalError::InvalidDiscriminant)
                }
            },
            Err(e) => {
                proof {
                    lemma_le_bytes_len(0, 1);
                    lemma_le_bytes_len(1, 1);
                    assert forall|v: Option<T>|
                        v.encodable() && (
                        #[trigger] <Option<T> as ToHaskell<Tag>>::hs_encoding(&v)).is_prefix_of(
                            old(buf).remaining(),
                        ) implies false by {
                        let d0: u8 = if v matches Option::Some(_) {
                            1
                        } else {
                            0
                        };
                        assert(<u8 as ToHaskell<Tag>>::hs_encoding(&d0).is_prefix_of(
                            old(buf).remaining(),
                        )) by {
                            lemma_le_bytes_len(d0 as nat, 1);
                            assert(<u8 as ToHaskell<Tag>>::hs_encoding(&d0) =~= old(
                                buf,
                            ).remaining().take(1));
                        }
                    }
                    if old(buf).remaining().len() >= 1 {
                        let b0 = old(buf).remaining()[0];
                        lemma_le_bytes_len(b0 as nat, 1);
                        assert(<u8 as ToHaskell<Tag>>::hs_encoding(&b0) =~= old(
                            buf,
                        ).remaining().take(1));
                        assert(<u8 as ToHaskell<Tag>>::hs_encoding(&b0).is_prefix_of(
                            old(buf).remaining(),
                        ));
                        assert(false);
                    }
                }
                Err(e)
            },
        }
    }
}

/// Auxiliary fact for decoding optional values: when the input starts with
/// the encoding of an optional value `v` and the first byte read back is
/// `d`, then `d` is the presence discriminant of `v`.
proof fn option_discriminant_is_first_byte<Tag, T: ToHaskell<Tag>>(v: Option<T>, rem: Seq<u8>, d: u8)
    requires
        <Option<T> as ToHaskell<Tag>>::hs_encoding(&v).is_prefix_of(rem),
        le_bytes(d as nat, 1).is_prefix_of(rem),
    ensures
        v matches Option::Some(_) ==> d == 1,
        v matches Option::None ==> d == 0,
{
    let dv: nat = if v matches Option::Some(_) {
        1
    } else {
        0
    };
    lemma_le_bytes_len(dv, 1);
    lemma_le_bytes_len(d as nat, 1);
    lemma_le_bytes_len(0, 1);
    lemma_le_bytes_len(1, 1);
    assert(le_bytes(dv, 1) =~= rem.take(1)) by {
        assert(<Option<T> as ToHaskell<Tag>>::hs_encoding(&v)[0] == le_bytes(dv, 1)[0]);
        assert(<Option<T> as ToHaskell<Tag>>::hs_encoding(&v)[0] == rem[0]);
    }
    assert(le_bytes(d as nat, 1) =~= rem.take(1));
    lemma_pow256_widths();
    lemma_le_bytes_injective(dv, d as nat, 1);
}

impl<Tag, T: ToHaskell<Tag>> ToHaskell<Tag> for Vec<T> {
    open spec fn encodable(&self) -> bool {
        self@.len() < 0x1_0000_0000 && elems_encodable::<Tag, T>(self@)
    }

    open spec fn hs_encoding(&self) -> Seq<u8> {
        le_bytes(self@.len(), 4) + encode_elems::<Tag, T>(self@)
    }

    fn to_haskell(&self, writer: &mut Vec<u8>, tag: PhantomData<Tag>) -> (res: Result<
        (),
        MarshalError,
    >)
        ensures
            self@.len() >= 0x1_0000_0000 ==> res == Err::<(), MarshalError>(
                MarshalError::LengthOverflow,
            ) && final(writer)@ == old(writer)@,
    {
        if self.len() > u32::MAX as usize {
            return Err(MarshalError::LengthOverflow);
        }
        let n: u32 = self.len() as u32;
        let r0 = n.to_haskell(writer, tag);
        match r0 {
            Ok(_) => {},
            Err(e) => {
                return Err(e);
            },
        }
        let mut i: usize = 0;
        while i < self.len()
            invariant
                i <= self@.len(),
                self@.len() < 0x1_0000_0000,
                writer@ == old(writer)@ + le_bytes(self@.len(), 4) + encode_elems::<Tag, T>(
                    self@.take(i as int),
                ),
                forall|j: int| 0 <= j < i ==> (#[trigger] self@[j]).encodable(),
            decreases self@.len() - i,
        {
            let r = self[i].to_haskell(writer, tag);
            match r {
                Ok(_) => {
                    proof {
                        lemma_encode_elems_take_succ::<Tag, T>(self@, i as int);
                        assert((old(writer)@ + le_bytes(self@.len(), 4) + encode_elems::<Tag, T>(
                            self@.take(i as int),
                        )) + self@[i as int].hs_encoding() =~= old(writer)@ + le_bytes(
                            self@.len(),
                            4,
                        ) + encode_elems::<Tag, T>(self@.take(i as int + 1)));
                    }
                },
                Err(e) => {
                    return Err(e);
                },
            }
            i = i + 1;
        }
        proof {
            assert(self@.take(self@.len() as int) =~= self@);
            assert(old(writer)@ + le_bytes(self@.len(), 4) + encode_elems::<Tag, T>(self@)
                =~= old(writer)@ + <Vec<T> as ToHaskell<Tag>>::hs_encoding(self));
        }
        Ok(())
    }
}

/// Auxiliary fact for decoding sequences: when the input starts with the
/// encoding of a sequence value `v`, then after the length prefix and the
/// first `j` element encodings the input continues with the encoding of the
/// element `v[j]`.
proof fn vec_elem_prefix<Tag, T: ToHaskell<Tag>>(v: &Vec<T>, rem0: Seq<u8>, pre_rem: Seq<u8>, j: int)
    requires
        v.encodable(),
        (<Vec<T> as ToHaskell<Tag>>::hs_encoding(v)).is_prefix_of(rem0),
        0 <= j < v@.len(),
        pre_rem == rem0.skip(4 + encode_elems::<Tag, T>(v@.take(j)).len() as int),
    ensures
        v@[j].hs_encoding().is_prefix_of(pre_rem),
{
    lemma_le_bytes_len(v@.len(), 4);
    lemma_encode_elems_split::<Tag, T>(v@, j);
    assert(v@.skip(j).len() > 0 && v@.skip(j)[0] == v@[j]);
    assert(v@.skip(j).drop_first() =~= v@.skip(j + 1));
    assert(encode_elems::<Tag, T>(v@.skip(j)) == v@[j].hs_encoding() + encode_elems::<Tag, T>(
        v@.skip(j + 1),
    ));
    let encv = <Vec<T> as ToHaskell<Tag>>::hs_encoding(v);
    let etake = encode_elems::<Tag, T>(v@.take(j));
    let elem = v@[j].hs_encoding();
    let off = 4 + etake.len() as int;
    assert(encv =~= rem0.take(encv.len() as int));
    assert forall|k: int| 0 <= k < elem.len() implies pre_rem[k] == elem[k] by {
        assert(encode_elems::<Tag, T>(v@)[etake.len() + k] == elem[k]);
        assert(encv[off + k] == encode_elems::<Tag, T>(v@)[etake.len() + k]);
        assert(rem0[off + k] == encv[off + k]);
        assert(pre_rem[k] == rem0[off + k]);
    }
    assert(elem.len() + off <= encv.len());
    assert(pre_rem.len() >= elem.len());
    assert(elem =~= pre_rem.take(elem.len() as int));
}

impl<Tag, T: FromHaskell<Tag>> FromHaskell<Tag> for Vec<T> {
    fn from_haskell(buf: &mut ByteCursor, tag: PhantomData<Tag>) -> Result<Vec<T>, MarshalError> {
        let r0 = u32::from_haskell(buf, tag);
        match r0 {
            Ok(n) => {
                let ghost start = *buf;
                let mut result: Vec<T> = Vec::new();
                proof {
                    lemma_le_bytes_len(n as nat, 4);
                    assert forall|v: Vec<T>|
                        v.encodable() && (#[trigger] <Vec<T> as ToHaskell<Tag>>::hs_encoding(
                            &v,
                        )).is_prefix_of(old(buf).remaining()) implies v@.len() == n
                        && deep_seq::<T>(result@) == deep_seq::<T>(v@.take(0))
                        && encode_elems::<Tag, T>(result@).len() == encode_elems::<Tag, T>(
                        v@.take(0),
                    ).len() by {
                        let m: u32 = v@.len() as u32;
                        lemma_le_bytes_len(v@.len(), 4);
                        lemma_le_bytes_len(m as nat, 4);
                        assert(<u32 as ToHaskell<Tag>>::hs_encoding(&m) =~= old(
                            buf,
                        ).remaining().take(4));
                        assert(<u32 as ToHaskell<Tag>>::hs_encoding(&m).is_prefix_of(
                            old(buf).remaining(),
                        ));
                        assert(v@.take(0) =~= Seq::<T>::empty());
                        assert(deep_seq::<T>(result@) =~= deep_seq::<T>(v@.take(0)));
                    }
                }
                let mut i: u32 = 0;
                while i < n
                    invariant
                        i <= n,
                        buf.wf(),
                        buf.bytes@ == old(buf).bytes@,
                        start.bytes@ == old(buf).bytes@,
                        old(buf).pos <= start.pos <= buf.pos <= buf.bytes@.len(),
                        start.pos == old(buf).pos + 4,
                        le_bytes(n as nat, 4) == old(buf).bytes@.subrange(
                            old(buf).pos as int,
                            start.pos as int,
                        ),
                        result@.len() == i,
                        elems_encodable::<Tag, T>(result@),
                        buf.pos == start.pos + encode_elems::<Tag, T>(result@).len(),
                        encode_elems::<Tag, T>(result@) == old(buf).bytes@.subrange(
                            start.pos as int,
                            buf.pos as int,
                        ),
                        forall|v: Vec<T>|
                            (v.encodable() && (
                            #[trigger] <Vec<T> as ToHaskell<Tag>>::hs_encoding(&v)).is_prefix_of(
                                old(buf).remaining(),
                            )) ==> v@.len() == n && deep_seq::<T>(result@) == deep_seq::<T>(
                                v@.take(i as int),
                            ) && encode_elems::<Tag, T>(result@).len() == encode_elems::<Tag, T>(
                                v@.take(i as int),
                            ).len(),
                    decreases n - i,
                {
                    let ghost pre = *buf;
                    let ghost result_pre = result@;
                    let r = T::from_haskell(buf, tag);
                    match r {
                        Ok(t) => {
                            result.push(t);
                            i = i + 1;
                            proof {
                                lemma_encode_elems_push::<Tag, T>(result_pre, t);
                                assert(result@ =~= result_pre.push(t));
                                assert(encode_elems::<Tag, T>(result@) =~= old(
                                    buf,
                                ).bytes@.subrange(start.pos as int, buf.pos as int));
                                let j = i as int - 1;
                                assert forall|v: Vec<T>|
                                    (v.encodable() && (
                                    #[trigger] <Vec<T> as ToHaskell<Tag>>::hs_encoding(
                                        &v,
                                    )).is_prefix_of(old(buf).remaining())) implies v@.len() == n
                                    && deep_seq::<T>(result@) == deep_seq::<T>(v@.take(i as int))
                                    && encode_elems::<Tag, T>(result@).len() == encode_elems::<
                                    Tag,
                                    T,
                                >(v@.take(i as int)).len() by {
                                    assert(pre.remaining() =~= old(buf).remaining().skip(
                                        4 + encode_elems::<Tag, T>(v@.take(j)).len() as int,
                                    ));
                                    vec_elem_prefix::<Tag, T>(
                                        &v,
                                        old(buf).remaining(),
                                        pre.remaining(),
                                        j,
                                    );
                                    lemma_encode_elems_take_succ::<Tag, T>(v@, j);
                                    assert(t.deep_view() == v@[j].deep_view());
                                    assert forall|k: int| 0 <= k < i as int implies result@[k].deep_view()
                                        == v@.take(i as int)[k].deep_view() by {
                                        if k < j {
                                            assert(deep_seq::<T>(result_pre)[k] == deep_seq::<T>(
                                                v@.take(j),
                                            )[k]);
                                            assert(result@[k] == result_pre[k]);
                                            assert(v@.take(i as int)[k] == v@.take(j)[k]);
                                        } else {
                                            assert(result@[k] == t);
                                            assert(v@.take(i as int)[k] == v@[j]);
                                        }
                                    }
                                    assert(deep_seq::<T>(result@) =~= deep_seq::<T>(
                                        v@.take(i as int),
                                    ));
                                }
                            }
                        },
                        Err(e) => {
                            proof {
                                assert forall|v: Vec<T>|
                                    (v.encodable() && (
                                    #[trigger] <Vec<T> as ToHaskell<Tag>>::hs_encoding(
                                        &v,
                                    )).is_prefix_of(old(buf).remaining())) implies false by {
                                    let j = i as int;
                                    assert(pre.remaining() =~= old(buf).remaining().skip(
                                        4 + encode_elems::<Tag, T>(v@.take(j)).len() as int,
                                    ));
                                    vec_elem_prefix::<Tag, T>(
                                        &v,
                                        old(buf).remaining(),
                                        pre.remaining(),
                                        j,
                                    );
                                }
                            }
                            return Err(e);
                        },
                    }
                }
                proof {
                    lemma_le_bytes_len(n as nat, 4);
                    assert(<Vec<T> as ToHaskell<Tag>>::hs_encoding(&result) =~= old(
                        buf,
                    ).bytes@.subrange(old(buf).pos as int, buf.pos as int));
                    assert(<Vec<T> as ToHaskell<Tag>>::encodable(&result));
                    assert forall|v: Vec<T>|
                        (v.encodable() && (#[trigger] <Vec<T> as ToHaskell<Tag>>::hs_encoding(
                            &v,
                        )).is_prefix_of(old(buf).remaining())) implies result.deep_view()
                        == v.deep_view() && buf.pos == old(buf).pos + <Vec<T> as ToHaskell<
                        Tag,
                    >>::hs_encoding(&v).len() by {
                        assert(v@.take(n as int) =~= v@);
                        assert(result.deep_view() =~= deep_seq::<T>(result@));
                        assert(v.deep_view() =~= deep_seq::<T>(v@));
                        lemma_le_bytes_len(v@.len(), 4);
                    }
                }
                Ok(result)
            },
            Err(e) => {
                proof {
                    assert forall|v: Vec<T>|
                        (v.encodable() && (#[trigger] <Vec<T> as ToHaskell<Tag>>::hs_encoding(
                            &v,
                        )).is_prefix_of(old(buf).remaining())) implies false by {
                        let m: u32 = v@.len() as u32;
                        lemma_le_bytes_len(v@.len(), 4);
                        lemma_le_bytes_len(m as nat, 4);
                        assert(<u32 as ToHaskell<Tag>>::hs_encoding(&m) =~= old(
                            buf,
                        ).remaining().take(4));
                        assert(<u32 as ToHaskell<Tag>>::hs_encoding(&m).is_prefix_of(
                            old(buf).remaining(),
                        ));
                    }
                }
                Err(e)
            },
        }
    }
}

impl<Tag, A: ToHaskell<Tag>, B: ToHaskell<Tag>> ToHaskell<Tag> for (A, B) {
    open spec fn encodable(&self) -> bool {
        self.0.encodable() && self.1.encodable()
    }

    open spec fn hs_encoding(&self) -> Seq<u8> {
        self.0.hs_encoding() + self.1.hs_encoding()
    }

    fn to_haskell(&self, writer: &mut Vec<u8>, tag: PhantomData<Tag>) -> Result<
        (),
        MarshalError,
    > {
        match self.0.to_haskell(writer, tag) {
            Ok(_) => {},
            Err(e) => {
                return Err(e);
            },
        }
        match self.1.to_haskell(writer, tag) {
            Ok(_) => {},
            Err(e) => {
                return Err(e);
            },
        }
        proof {
            assert(writer@ =~= old(writer)@ + <(A, B) as ToHaskell<Tag>>::hs_encoding(self));
        }
        Ok(())
    }
}

impl<Tag, A: FromHaskell<Tag>, B: FromHaskell<Tag>> FromHaskell<Tag> for (A, B) {
    fn from_haskell(buf: &mut ByteCursor, tag: PhantomData<Tag>) -> Result<(A, B), MarshalError> {
        let ra = A::from_haskell(buf, tag);
        match ra {
            Ok(a) => {
                let ghost mid = *buf;
                let rb = B::from_haskell(buf, tag);
                match rb {
                    Ok(b) => {
                        proof {
                            assert(<(A, B) as ToHaskell<Tag>>::hs_encoding(&(a, b)) =~= old(
                                buf,
                            ).bytes@.subrange(old(buf).pos as int, buf.pos as int));
                            assert forall|v: (A, B)|
                                v.encodable() && (
                                #[trigger] <(A, B) as ToHaskell<Tag>>::hs_encoding(
                                    &v,
                                )).is_prefix_of(old(buf).remaining()) implies ((a, b).deep_view()
                                == v.deep_view() && buf.pos == old(buf).pos + <(A, B) as ToHaskell<
                                Tag,
                            >>::hs_encoding(&v).len()) by {
                                lemma_concat_prefix(
                                    v.0.hs_encoding(),
                                    v.1.hs_encoding(),
                                    old(buf).remaining(),
                                );
                                assert(mid.remaining() =~= old(buf).remaining().skip(
                                    v.0.hs_encoding().len() as int,
                                ));
                            }
                        }
                        Ok((a, b))
                    },
                    Err(e) => {
                        proof {
                            assert forall|v: (A, B)|
                                v.encodable() && (
                                #[trigger] <(A, B) as ToHaskell<Tag>>::hs_encoding(
                                    &v,
                                )).is_prefix_of(old(buf).remaining()) implies false by {
                                lemma_concat_prefix(
                                    v.0.hs_encoding(),
                                    v.1.hs_encoding(),
                                    old(buf).remaining(),
                                );
                                assert(mid.remaining() =~= old(buf).remaining().skip(
                                    v.0.hs_encoding().len() as int,
                                ));
                            }
                        }
                        Err(e)
                    },
                }
            },
            Err(e) => {
                proof {
                    assert forall|v: (A, B)|
                        v.encodable() && (#[trigger] <(A, B) as ToHaskell<Tag>>::hs_encoding(
                            &v,
                        )).is_prefix_of(old(buf).remaining()) implies false by {
                        lemma_concat_prefix(
                            v.0.hs_encoding(),
                            v.1.hs_encoding(),
                            old(buf).remaining(),
                        );
                    }
                }
                Err(e)
            },
        }
    }
}

impl<Tag, A: ToHaskell<Tag>, B: ToHaskell<Tag>, C: ToHaskell<Tag>> ToHaskell<Tag> for (A, B, C) {
    open spec fn encodable(&self) -> bool {
        self.0.encodable() && self.1.encodable() && self.2.encodable()
    }

    open spec fn hs_encoding(&self) -> Seq<u8> {
        self.0.hs_encoding() + self.1.hs_encoding() + self.2.hs_encoding()
    }

    fn to_haskell(&self, writer: &mut Vec<u8>, tag: PhantomData<Tag>) -> Result<
        (),
        MarshalError,
    > {
        match self.0.to_haskell(writer, tag) {
            Ok(_) => {},
            Err(e) => {
                return Err(e);
            },
        }
        match self.1.to_haskell(writer, tag) {
            Ok(_) => {},
            Err(e) => {
                return Err(e);
            },
        }
        match self.2.to_haskell(writer, tag) {
            Ok(_) => {},
            Err(e) => {
                return Err(e);
            },
        }
        proof {
            assert(writer@ =~= old(writer)@ + <(A, B, C) as ToHaskell<Tag>>::hs_encoding(self));
        }
        Ok(())
    }
}

/// Auxiliary fact for decoding triples: the input continues with each
/// component's encoding where the previous component's encoding ends.
proof fn triple_components_prefix<Tag, A: ToHaskell<Tag>, B: ToHaskell<Tag>, C: ToHaskell<Tag>>(
    v: (A, B, C),
    rem: Seq<u8>,
)
    requires
        (<(A, B, C) as ToHaskell<Tag>>::hs_encoding(&v)).is_prefix_of(rem),
    ensures
        v.0.hs_encoding().is_prefix_of(rem),
        v.1.hs_encoding().is_prefix_of(rem.skip(v.0.hs_encoding().len() as int)),
        v.2.hs_encoding().is_prefix_of(
            rem.skip(v.0.hs_encoding().len() as int).skip(v.1.hs_encoding().len() as int),
        ),
{
    let e0 = v.0.hs_encoding();
    let e1 = v.1.hs_encoding();
    let e2 = v.2.hs_encoding();
    lemma_concat_prefix(e0 + e1, e2, rem);
    lemma_concat_prefix(e0, e1, rem);
    assert(rem.skip((e0 + e1).len() as int) =~= rem.skip(e0.len() as int).skip(e1.len() as int));
}

impl<Tag, A: FromHaskell<Tag>, B: FromHaskell<Tag>, C: FromHaskell<Tag>> FromHaskell<Tag> for (
    A,
    B,
    C,
) {
    fn from_haskell(buf: &mut ByteCursor, tag: PhantomData<Tag>) -> Result<
        (A, B, C),
        MarshalError,
    > {
        let ra = A::from_haskell(buf, tag);
        match ra {
            Ok(a) => {
                let ghost mid1 = *buf;
                let rb = B::from_haskell(buf, tag);
                match rb {
                    Ok(b) => {
                        let ghost mid2 = *buf;
                        let rc = C::from_haskell(buf, tag);
                        match rc {
                            Ok(c) => {
                                proof {
                                    assert(<(A, B, C) as ToHaskell<Tag>>::hs_encoding(&(a, b, c))
                                        =~= old(buf).bytes@.subrange(
                                        old(buf).pos as int,
                                        buf.pos as int,
                                    ));
                                    assert forall|v: (A, B, C)|
                                        v.encodable() && (
                                        #[trigger] <(A, B, C) as ToHaskell<Tag>>::hs_encoding(
                                            &v,
                                        )).is_prefix_of(old(buf).remaining()) implies ((a, b,
                                    c).deep_view() == v.deep_view() && buf.pos == old(buf).pos + <(
                                        A,
                                        B,
                                        C,
                                    ) as ToHaskell<Tag>>::hs_encoding(&v).len()) by {
                                        triple_components_prefix::<Tag, A, B, C>(
                                            v,
                                            old(buf).remaining(),
                                        );
                                        assert(mid1.remaining() =~= old(buf).remaining().skip(
                                            v.0.hs_encoding().len() as int,
                                        ));
                                        assert(mid2.remaining() =~= old(buf).remaining().skip(
                                            v.0.hs_encoding().len() as int,
                                        ).skip(v.1.hs_encoding().len() as int));
                                    }
                                }
                                Ok((a, b, c))
                            },
                            Err(e) => {
                                proof {
                                    assert forall|v: (A, B, C)|
                                        v.encodable() && (
                                        #[trigger] <(A, B, C) as ToHaskell<Tag>>::hs_encoding(
                                            &v,
                                        )).is_prefix_of(old(buf).remaining()) implies false by {
                                        triple_components_prefix::<Tag, A, B, C>(
                                            v,
                                            old(buf).remaining(),
                                        );
                                        assert(mid1.remaining() =~= old(buf).remaining().skip(
                                            v.0.hs_encoding().len() as int,
                                        ));
                                        assert(mid2.remaining() =~= old(buf).remaining().skip(
                                            v.0.hs_encoding().len() as int,
                                        ).skip(v.1.hs_encoding().len() as int));
                                    }
                                }
                                Err(e)
                            },
                        }
                    },
                    Err(e) => {
                        proof {
                            assert forall|v: (A, B, C)|
                                v.encodable() && (
                                #[trigger] <(A, B, C) as ToHaskell<Tag>>::hs_encoding(
                                    &v,
                                )).is_prefix_of(old(buf).remaining()) implies false by {
                                triple_components_prefix::<Tag, A, B, C>(v, old(buf).remaining());
                                assert(mid1.remaining() =~= old(buf).remaining().skip(
                                    v.0.hs_encoding().len() as int,
                                ));
                            }
                        }
                        Err(e)
                    },
                }
            },
            Err(e) => {
                proof {
                    assert forall|v: (A, B, C)|
                        v.encodable() && (#[trigger] <(A, B, C) as ToHaskell<Tag>>::hs_encoding(
                            &v,
                        )).is_prefix_of(old(buf).remaining()) implies false by {
                        triple_components_prefix::<Tag, A, B, C>(v, old(buf).remaining());
                    }
                }
                Err(e)
            },
        }
    }
}

impl<Tag, T: ToHaskell<Tag>, E: ToHaskell<Tag>> ToHaskell<Tag> for Result<T, E> {
    open spec fn encodable(&self) -> bool {
        match self {
            Result::Ok(t) => t.encodable(),
            Result::Err(e) => e.encodable(),
        }
    }

    open spec fn hs_encoding(&self) -> Seq<u8> {
        match self {
            Result::Err(e) => le_bytes(0, 1) + e.hs_encoding(),
            Result::Ok(t) => le_bytes(1, 1) + t.hs_encoding(),
        }
    }

    fn to_haskell(&self, writer: &mut Vec<u8>, tag: PhantomData<Tag>) -> Result<
        (),
        MarshalError,
    > {
        match self {
            Result::Err(err) => {
                let disc: u8 = 0;
                match disc.to_haskell(writer, tag) {
                    Ok(_) => {},
                    Err(e2) => {
                        return Err(e2);
                    },
                }
                match err.to_haskell(writer, tag) {
                    Ok(_) => {
                        proof {
                            assert(writer@ =~= old(writer)@ + <Result<T, E> as ToHaskell<
                                Tag,
                            >>::hs_encoding(self));
                        }
                        Ok(())
                    },
                    Err(e2) => Err(e2),
                }
            },
            Result::Ok(t) => {
                let disc: u8 = 1;
                match disc.to_haskell(writer, tag) {
                    Ok(_) => {},
                    Err(e2) => {
                        return Err(e2);
                    },
                }
                match t.to_haskell(writer, tag) {
                    Ok(_) => {
                        proof {
                            assert(writer@ =~= old(writer)@ + <Result<T, E> as ToHaskell<
                                Tag,
                            >>::hs_encoding(self));
                        }
                        Ok(())
                    },
                    Err(e2) => Err(e2),
                }
            },
        }
    }
}

impl<Tag, T: ToHaskell<Tag>, const N: usize> ToHaskell<Tag> for [T; N] {
    open spec fn encodable(&self) -> bool {
        elems_encodable::<Tag, T>(self@)
    }

    open spec fn hs_encoding(&self) -> Seq<u8> {
        encode_elems::<Tag, T>(self@)
    }

    fn to_haskell(&self, writer: &mut Vec<u8>, tag: PhantomData<Tag>) -> Result<
        (),
        MarshalError,
    > {
        encode_slice(self.as_slice(), writer, tag)
    }
}

impl<Tag, T: ToHaskell<Tag>> ToHaskell<Tag> for &T {
    open spec fn encodable(&self) -> bool {
        (**self).encodable()
    }

    open spec fn hs_encoding(&self) -> Seq<u8> {
        (**self).hs_encoding()
    }

    fn to_haskell(&self, writer: &mut Vec<u8>, tag: PhantomData<Tag>) -> Result<
        (),
        MarshalError,
    > {
        (*self).to_haskell(writer, tag)
    }
}

impl<
    Tag,
    A: ToHaskell<Tag>,
    B: ToHaskell<Tag>,
    C: ToHaskell<Tag>,
    D: ToHaskell<Tag>,
> ToHaskell<Tag> for (A, B, C, D) {
    open spec fn encodable(&self) -> bool {
        self.0.encodable() && self.1.encodable() && self.2.encodable() && self.3.encodable()
    }

    open spec fn hs_encoding(&self) -> Seq<u8> {
        self.0.hs_encoding() + self.1.hs_encoding() + self.2.hs_encoding() + self.3.hs_encoding()
    }

    fn to_haskell(&self, writer: &mut Vec<u8>, tag: PhantomData<Tag>) -> Result<
        (),
        MarshalError,
    > {
        match self.0.to_haskell(writer, tag) {
            Ok(_) => {},
            Err(e) => {
                return Err(e);
            },
        }
        match self.1.to_haskell(writer, tag) {
            Ok(_) => {},
            Err(e) => {
                return Err(e);
            },
        }
        match self.2.to_haskell(writer, tag) {
            Ok(_) => {},
            Err(e) => {
                return Err(e);
            },
        }
        match self.3.to_haskell(writer, tag) {
            Ok(_) => {},
            Err(e) => {
                return Err(e);
            },
        }
        proof {
            assert(writer@ =~= old(writer)@ + <(A, B, C, D) as ToHaskell<Tag>>::hs_encoding(
                self,
            ));
        }
        Ok(())
    }
}

/// Auxiliary fact for decoding quadruples: the input continues with each
/// component's encoding where the previous component's encoding ends.
proof fn quad_components_prefix<
    Tag,
    A: ToHaskell<Tag>,
    B: ToHaskell<Tag>,
    C: ToHaskell<Tag>,
    D: ToHaskell<Tag>,
>(v: (A, B, C, D), rem: Seq<u8>)
    requires
        (<(A, B, C, D) as ToHaskell<Tag>>::hs_encoding(&v)).is_prefix_of(rem),
    ensures
        v.0.hs_encoding().is_prefix_of(rem),
        v.1.hs_encoding().is_prefix_of(rem.skip(v.0.hs_encoding().len() as int)),
        v.2.hs_encoding().is_prefix_of(
            rem.skip(v.0.hs_encoding().len() as int).skip(v.1.hs_encoding().len() as int),
        ),
        v.3.hs_encoding().is_prefix_of(
            rem.skip(v.0.hs_encoding().len() as int).skip(v.1.hs_encoding().len() as int).skip(
                v.2.hs_encoding().len() as int,
            ),
        ),
{
    let e0 = v.0.hs_encoding();
    let e1 = v.1.hs_encoding();
    let e2 = v.2.hs_encoding();
    let e3 = v.3.hs_encoding();
    lemma_concat_prefix(e0 + e1 + e2, e3, rem);
    lemma_concat_prefix(e0 + e1, e2, rem);
    lemma_concat_prefix(e0, e1, rem);
    assert(rem.skip((e0 + e1).len() as int) =~= rem.skip(e0.len() as int).skip(e1.len() as int));
    assert(rem.skip((e0 + e1 + e2).len() as int) =~= rem.skip(e0.len() as int).skip(
        e1.len() as int,
    ).skip(e2.len() as int));
}

impl<
    Tag,
    A: FromHaskell<Tag>,
    B: FromHaskell<Tag>,
    C: FromHaskell<Tag>,
    D: FromHaskell<Tag>,
> FromHaskell<Tag> for (A, B, C, D) {
    fn from_haskell(buf: &mut ByteCursor, tag: PhantomData<Tag>) -> Result<
        (A, B, C, D),
        MarshalError,
    > {
        let ra = A::from_haskell(buf, tag);
        match ra {
            Ok(a) => {
                let ghost mid1 = *buf;
                let rb = B::from_haskell(buf, tag);
                match rb {
                    Ok(b) => {
                        let ghost mid2 = *buf;
                        let rc = C::from_haskell(buf, tag);
                        match rc {
                            Ok(c) => {
                                let ghost mid3 = *buf;
                                let rd = D::from_haskell(buf, tag);
                                match rd {
                                    Ok(d) => {
                                        proof {
                                            assert(<(A, B, C, D) as ToHaskell<Tag>>::hs_encoding(
                                                &(a, b, c, d),
                                            ) =~= old(buf).bytes@.subrange(
                                                old(buf).pos as int,
                                                buf.pos as int,
                                            ));
                                            assert forall|v: (A, B, C, D)|
                                                v.encodable() && (
                                                #[trigger] <(A, B, C, D) as ToHaskell<
                                                    Tag,
                                                >>::hs_encoding(&v)).is_prefix_of(
                                                    old(buf).remaining(),
                                                ) implies ((a, b, c, d).deep_view()
                                                == v.deep_view() && buf.pos == old(buf).pos + <(
                                                A,
                                                B,
                                                C,
                                                D,
                                            ) as ToHaskell<Tag>>::hs_encoding(&v).len()) by {
                                                quad_components_prefix::<Tag, A, B, C, D>(
                                                    v,
                                                    old(buf).remaining(),
                                                );
                                                assert(mid1.remaining() =~= old(
                                                    buf,
                                                ).remaining().skip(v.0.hs_encoding().len() as int));
                                                assert(mid2.remaining() =~= old(
                                                    buf,
                                                ).remaining().skip(v.0.hs_encoding().len() as int)
                                                    .skip(v.1.hs_encoding().len() as int));
                                                assert(mid3.remaining() =~= old(
                                                    buf,
                                                ).remaining().skip(v.0.hs_encoding().len() as int)
                                                    .skip(v.1.hs_encoding().len() as int).skip(
                                                    v.2.hs_encoding().len() as int,
                                                ));
                                            }
                                        }
                                        Ok((a, b, c, d))
                                    },
                                    Err(e) => {
                                        proof {
                                            assert forall|v: (A, B, C, D)|
                                                v.encodable() && (
                                                #[trigger] <(A, B, C, D) as ToHaskell<
                                                    Tag,
                                                >>::hs_encoding(&v)).is_prefix_of(
                                                    old(buf).remaining(),
                                                ) implies false by {
                                                quad_components_prefix::<Tag, A, B, C, D>(
                                                    v,
                                                    old(buf).remaining(),
                                                );
                                                assert(mid1.remaining() =~= old(
                                                    buf,
                                                ).remaining().skip(v.0.hs_encoding().len() as int));
                                                assert(mid2.remaining() =~= old(
                                                    buf,
                                                ).remaining().skip(v.0.hs_encoding().len() as int)
                                                    .skip(v.1.hs_encoding().len() as int));
                                                assert(mid3.remaining() =~= old(
                                                    buf,
                                                ).remaining().skip(v.0.hs_encoding().len() as int)
                                                    .skip(v.1.hs_encoding().len() as int).skip(
                                                    v.2.hs_encoding().len() as int,
                                                ));
                                            }
                                        }
                                        Err(e)
                                    },
                                }
                            },
                            Err(e) => {
                                proof {
                                    assert forall|v: (A, B, C, D)|
                                        v.encodable() && (
                                        #[trigger] <(A, B, C, D) as ToHaskell<Tag>>::hs_encoding(
                                            &v,
                                        )).is_prefix_of(old(buf).remaining()) implies false by {
                                        quad_components_prefix::<Tag, A, B, C, D>(
                                            v,
                                            old(buf).remaining(),
                                        );
                                        assert(mid1.remaining() =~= old(buf).remaining().skip(
                                            v.0.hs_encoding().len() as int,
                                        ));
                                        assert(mid2.remaining() =~= old(buf).remaining().skip(
                                            v.0.hs_encoding().len() as int,
                                        ).skip(v.1.hs_encoding().len() as int));
                                    }
                                }
                                Err(e)
                            },
                        }
                    },
                    Err(e) => {
                        proof {
                            assert forall|v: (A, B, C, D)|
                                v.encodable() && (
                                #[trigger] <(A, B, C, D) as ToHaskell<Tag>>::hs_encoding(
                                    &v,
                                )).is_prefix_of(old(buf).remaining()) implies false by {
                                quad_components_prefix::<Tag, A, B, C, D>(v, old(buf).remaining());
                                assert(mid1.remaining() =~= old(buf).remaining().skip(
                                    v.0.hs_encoding().len() as int,
                                ));
                            }
                        }
                        Err(e)
                    },
                }
            },
            Err(e) => {
                proof {
                    assert forall|v: (A, B, C, D)|
                        v.encodable() && (#[trigger] <(A, B, C, D) as ToHaskell<
                            Tag,
                        >>::hs_encoding(&v)).is_prefix_of(old(buf).remaining()) implies false by {
                        quad_components_prefix::<Tag, A, B, C, D>(v, old(buf).remaining());
                    }
                }
                Err(e)
            },
        }
    }
}

} // verus!
