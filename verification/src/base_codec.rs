//! The adapter to the base codec: every call into the `borsh` crate stands
//! here, one function per `borsh` function the library relies on.
//!
//! The contracts state what the named `borsh` function does, over the spec
//! functions of [`crate::wire`]: integers are written as little-endian byte
//! strings of their natural width (signed ones in two's complement), and text
//! as a 32-bit length prefix followed by the UTF-8 bytes.

use borsh::BorshDeserialize;
use borsh::BorshSerialize;
use vstd::prelude::*;

use crate::error::MarshalError;
use crate::wire::le_bytes;
use crate::wire::wrap_signed;
use vstd::utf8::encode_utf8;

verus! {

/// Relies on `u8::serialize` of `borsh`: appends the byte itself.
#[verifier::external_body]
pub(crate) fn borsh_write_u8(x: u8, out: &mut Vec<u8>)
    ensures
        final(out)@ == old(out)@ + le_bytes(x as nat, 1),
{
    BorshSerialize::serialize(&x, out).unwrap();
}

/// Relies on `u16::serialize` of `borsh`: appends the two little-endian
/// bytes.
#[verifier::external_body]
pub(crate) fn borsh_write_u16(x: u16, out: &mut Vec<u8>)
    ensures
        final(out)@ == old(out)@ + le_bytes(x as nat, 2),
{
    BorshSerialize::serialize(&x, out).unwrap();
}

/// Relies on `u32::serialize` of `borsh`: appends the four little-endian
/// bytes.
#[verifier::external_body]
pub(crate) fn borsh_write_u32(x: u32, out: &mut Vec<u8>)
    ensures
        final(out)@ == old(out)@ + le_bytes(x as nat, 4),
{
    BorshSerialize::serialize(&x, out).unwrap();
}

/// Relies on `u64::serialize` of `borsh`: appends the eight little-endian
/// bytes.
#[verifier::external_body]
pub(crate) fn borsh_write_u64(x: u64, out: &mut Vec<u8>)
    ensures
        final(out)@ == old(out)@ + le_bytes(x as nat, 8),
{
    BorshSerialize::serialize(&x, out).unwrap();
}

/// Relies on `u128::serialize` of `borsh`: appends the sixteen little-endian
/// bytes.
#[verifier::external_body]
pub(crate) fn borsh_write_u128(x: u128, out: &mut Vec<u8>)
    ensures
        final(out)@ == old(out)@ + le_bytes(x as nat, 16),
{
    BorshSerialize::serialize(&x, out).unwrap();
}

/// Relies on `i8::serialize` of `borsh`: appends the two's-complement byte.
#[verifier::external_body]
pub(crate) fn borsh_write_i8(x: i8, out: &mut Vec<u8>)
    ensures
        final(out)@ == old(out)@ + le_bytes(wrap_signed(x as int, 0x100), 1),
{
    BorshSerialize::serialize(&x, out).unwrap();
}

/// Relies on `i16::serialize` of `borsh`: appends the two little-endian
/// two's-complement bytes.
#[verifier::external_body]
pub(crate) fn borsh_write_i16(x: i16, out: &mut Vec<u8>)
    ensures
        final(out)@ == old(out)@ + le_bytes(wrap_signed(x as int, 0x1_0000), 2),
{
    BorshSerialize::serialize(&x, out).unwrap();
}

/// Relies on `i32::serialize` of `borsh`: appends the four little-endian
/// two's-complement bytes.
#[verifier::external_body]
pub(crate) fn borsh_write_i32(x: i32, out: &mut Vec<u8>)
    ensures
        final(out)@ == old(out)@ + le_bytes(wrap_signed(x as int, 0x1_0000_0000), 4),
{
    BorshSerialize::serialize(&x, out).unwrap();
}

/// Relies on `i64::serialize` of `borsh`: appends the eight little-endian
/// two's-complement bytes.
#[verifier::external_body]
pub(crate) fn borsh_write_i64(x: i64, out: &mut Vec<u8>)
    ensures
        final(out)@ == old(out)@ + le_bytes(
            wrap_signed(x as int, 0x1_0000_0000_0000_0000),
            8,
        ),
{
    BorshSerialize::serialize(&x, out).unwrap();
}

/// Relies on `i128::serialize` of `borsh`: appends the sixteen little-endian
/// two's-complement bytes.
#[verifier::external_body]
pub(crate) fn borsh_write_i128(x: i128, out: &mut Vec<u8>)
    ensures
        final(out)@ == old(out)@ + le_bytes(
            wrap_signed(x as int, 0x1_0000_0000_0000_0000_0000_0000_0000_0000int),
            16,
        ),
{
    BorshSerialize::serialize(&x, out).unwrap();
}

/// Relies on `u8::deserialize` of `borsh`: reads exactly one byte, and fails
/// exactly when there is none.
#[verifier::external_body]
pub(crate) fn borsh_read_u8(s: &[u8]) -> (res: Result<u8, MarshalError>)
    ensures
        match res {
            Ok(x) => s@.len() >= 1 && le_bytes(x as nat, 1) == s@.take(1),
            Err(e) => s@.len() < 1 && e == MarshalError::UnexpectedEndOfInput,
        },
{
    let mut m = s;
    match <u8 as BorshDeserialize>::deserialize(&mut m) {
        Ok(x) => Ok(x),
        Err(_) => Err(MarshalError::UnexpectedEndOfInput),
    }
}

/// Relies on `u16::deserialize` of `borsh`: reads exactly the two
/// little-endian bytes, and fails exactly when fewer are there.
#[verifier::external_body]
pub(crate) fn borsh_read_u16(s: &[u8]) -> (res: Result<u16, MarshalError>)
    ensures
        match res {
            Ok(x) => s@.len() >= 2 && le_bytes(x as nat, 2) == s@.take(2),
            Err(e) => s@.len() < 2 && e == MarshalError::UnexpectedEndOfInput,
        },
{
    let mut m = s;
    match <u16 as BorshDeserialize>::deserialize(&mut m) {
        Ok(x) => Ok(x),
        Err(_) => Err(MarshalError::UnexpectedEndOfInput),
    }
}

/// Relies on `u32::deserialize` of `borsh`: reads exactly the four
/// little-endian bytes, and fails exactly when fewer are there.
#[verifier::external_body]
pub(crate) fn borsh_read_u32(s: &[u8]) -> (res: Result<u32, MarshalError>)
    ensures
        match res {
            Ok(x) => s@.len() >= 4 && le_bytes(x as nat, 4) == s@.take(4),
            Err(e) => s@.len() < 4 && e == MarshalError::UnexpectedEndOfInput,
        },
{
    let mut m = s;
    match <u32 as BorshDeserialize>::deserialize(&mut m) {
        Ok(x) => Ok(x),
        Err(_) => Err(MarshalError::UnexpectedEndOfInput),
    }
}

/// Relies on `u64::deserialize` of `borsh`: reads exactly the eight
/// little-endian bytes, and fails exactly when fewer are there.
#[verifier::external_body]
pub(crate) fn borsh_read_u64(s: &[u8]) -> (res: Result<u64, MarshalError>)
    ensures
        match res {
            Ok(x) => s@.len() >= 8 && le_bytes(x as nat, 8) == s@.take(8),
            Err(e) => s@.len() < 8 && e == MarshalError::UnexpectedEndOfInput,
        },
{
    let mut m = s;
    match <u64 as BorshDeserialize>::deserialize(&mut m) {
        Ok(x) => Ok(x),
        Err(_) => Err(MarshalError::UnexpectedEndOfInput),
    }
}

/// Relies on `u128::deserialize` of `borsh`: reads exactly the sixteen
/// little-endian bytes, and fails exactly when fewer are there.
#[verifier::external_body]
pub(crate) fn borsh_read_u128(s: &[u8]) -> (res: Result<u128, MarshalError>)
    ensures
        match res {
            Ok(x) => s@.len() >= 16 && le_bytes(x as nat, 16) == s@.take(16),
            Err(e) => s@.len() < 16 && e == MarshalError::UnexpectedEndOfInput,
        },
{
    let mut m = s;
    match <u128 as BorshDeserialize>::deserialize(&mut m) {
        Ok(x) => Ok(x),
        Err(_) => Err(MarshalError::UnexpectedEndOfInput),
    }
}

/// Relies on `i8::deserialize` of `borsh`: reads exactly one
/// two's-complement byte, and fails exactly when there is none.
#[verifier::external_body]
pub(crate) fn borsh_read_i8(s: &[u8]) -> (res: Result<i8, MarshalError>)
    ensures
        match res {
            Ok(x) => s@.len() >= 1 && le_bytes(wrap_signed(x as int, 0x100), 1) == s@.take(1),
            Err(e) => s@.len() < 1 && e == MarshalError::UnexpectedEndOfInput,
        },
{
    let mut m = s;
    match <i8 as BorshDeserialize>::deserialize(&mut m) {
        Ok(x) => Ok(x),
        Err(_) => Err(MarshalError::UnexpectedEndOfInput),
    }
}

/// Relies on `i16::deserialize` of `borsh`: reads exactly the two
/// little-endian two's-complement bytes, and fails exactly when fewer are
/// there.
#[verifier::external_body]
pub(crate) fn borsh_read_i16(s: &[u8]) -> (res: Result<i16, MarshalError>)
    ensures
        match res {
            Ok(x) => s@.len() >= 2 && le_bytes(wrap_signed(x as int, 0x1_0000), 2) == s@.take(2),
            Err(e) => s@.len() < 2 && e == MarshalError::UnexpectedEndOfInput,
        },
{
    let mut m = s;
    match <i16 as BorshDeserialize>::deserialize(&mut m) {
        Ok(x) => Ok(x),
        Err(_) => Err(MarshalError::UnexpectedEndOfInput),
    }
}

/// Relies on `i32::deserialize` of `borsh`: reads exactly the four
/// little-endian two's-complement bytes, and fails exactly when fewer are
/// there.
#[verifier::external_body]
pub(crate) fn borsh_read_i32(s: &[u8]) -> (res: Result<i32, MarshalError>)
    ensures
        match res {
            Ok(x) => s@.len() >= 4 && le_bytes(wrap_signed(x as int, 0x1_0000_0000), 4) == s@.take(
                4,
            ),
            Err(e) => s@.len() < 4 && e == MarshalError::UnexpectedEndOfInput,
        },
{
    let mut m = s;
    match <i32 as BorshDeserialize>::deserialize(&mut m) {
        Ok(x) => Ok(x),
        Err(_) => Err(MarshalError::UnexpectedEndOfInput),
    }
}

/// Relies on `i64::deserialize` of `borsh`: reads exactly the eight
/// little-endian two's-complement bytes, and fails exactly when fewer are
/// there.
#[verifier::external_body]
pub(crate) fn borsh_read_i64(s: &[u8]) -> (res: Result<i64, MarshalError>)
    ensures
        match res {
            Ok(x) => s@.len() >= 8 && le_bytes(wrap_signed(x as int, 0x1_0000_0000_0000_0000), 8)
                == s@.take(8),
            Err(e) => s@.len() < 8 && e == MarshalError::UnexpectedEndOfInput,
        },
{
    let mut m = s;
    match <i64 as BorshDeserialize>::deserialize(&mut m) {
        Ok(x) => Ok(x),
        Err(_) => Err(MarshalError::UnexpectedEndOfInput),
    }
}

/// Relies on `i128::deserialize` of `borsh`: reads exactly the sixteen
/// little-endian two's-complement bytes, and fails exactly when fewer are
/// there.
#[verifier::external_body]
pub(crate) fn borsh_read_i128(s: &[u8]) -> (res: Result<i128, MarshalError>)
    ensures
        match res {
            Ok(x) => s@.len() >= 16 && le_bytes(
                wrap_signed(x as int, 0x1_0000_0000_0000_0000_0000_0000_0000_0000int),
                16,
            ) == s@.take(16),
            Err(e) => s@.len() < 16 && e == MarshalError::UnexpectedEndOfInput,
        },
{
    let mut m = s;
    match <i128 as BorshDeserialize>::deserialize(&mut m) {
        Ok(x) => Ok(x),
        Err(_) => Err(MarshalError::UnexpectedEndOfInput),
    }
}

/// Relies on `str::serialize` of `borsh`: appends a 32-bit length prefix
/// followed by the UTF-8 bytes, and fails, writing nothing, exactly when the
/// byte length does not fit the prefix.
#[verifier::external_body]
pub(crate) fn borsh_write_str(x: &str, out: &mut Vec<u8>) -> (res: Result<(), MarshalError>)
    ensures
        match res {
            Ok(_) => encode_utf8(x@).len() < 0x1_0000_0000 && final(out)@ == old(out)@ + le_bytes(
                encode_utf8(x@).len(),
                4,
            ) + encode_utf8(x@),
            Err(e) => encode_utf8(x@).len() >= 0x1_0000_0000 && final(out)@ == old(out)@ && e
                == MarshalError::LengthOverflow,
        },
{
    match BorshSerialize::serialize(x, out) {
        Ok(()) => Ok(()),
        Err(_) => Err(MarshalError::LengthOverflow),
    }
}

/// Relies on `String::deserialize` of `borsh`: reads a 32-bit length prefix
/// and that many bytes, which must be valid UTF-8; hands back the text so
/// read and the bytes after it. Fails exactly when no text encoding starts
/// the input.
#[verifier::external_body]
pub(crate) fn borsh_read_string<'a>(s: &'a [u8]) -> (res: Result<(String, &'a [u8]), MarshalError>)
    ensures
        match res {
            Ok((x, rest)) => encode_utf8(x@).len() < 0x1_0000_0000 && s@ == le_bytes(
                encode_utf8(x@).len(),
                4,
            ) + encode_utf8(x@) + rest@,
            Err(e) => forall|t: Seq<char>|
                encode_utf8(t).len() < 0x1_0000_0000 ==> !(le_bytes(encode_utf8(t).len(), 4)
                    + encode_utf8(t)).is_prefix_of(s@),
        },
{
    let mut m = s;
    match <String as BorshDeserialize>::deserialize(&mut m) {
        Ok(x) => Ok((x, m)),
        Err(_) => Err(MarshalError::InvalidData),
    }
}

} // verus!
