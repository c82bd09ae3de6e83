use core::marker::PhantomData;

use haskell_ffi::ByteCursor;
use haskell_ffi::FromHaskell;
use haskell_ffi::MarshalError;
use haskell_ffi::ToHaskell;

enum ExampleTag {}

const TAG: PhantomData<ExampleTag> = PhantomData;

#[test]
fn trailing_byte_is_rejected() {
    let mut bytes = 5u32.to_haskell_vec(TAG).unwrap();
    bytes.push(0);
    let r = u32::from_haskell_slice(&bytes, TAG);
    assert_eq!(r, Err(MarshalError::TrailingBytes));

    let mut bytes = vec![7u16, 8].to_haskell_vec(TAG).unwrap();
    bytes.push(0xAA);
    let r = <Vec<u16>>::from_haskell_slice(&bytes, TAG);
    assert_eq!(r, Err(MarshalError::TrailingBytes));
}

#[test]
fn boolean_discriminant_two_is_rejected() {
    let r = bool::from_haskell_slice(&[2], TAG);
    assert_eq!(r, Err(MarshalError::InvalidDiscriminant));
}

#[test]
fn option_discriminant_is_checked() {
    let r = <Option<u8>>::from_haskell_slice(&[3, 1], TAG);
    assert_eq!(r, Err(MarshalError::InvalidDiscriminant));
}

#[test]
fn truncated_input_is_rejected() {
    let r = u32::from_haskell_slice(&[1, 2], TAG);
    assert_eq!(r, Err(MarshalError::UnexpectedEndOfInput));
    let r = u8::from_haskell_slice(&[], TAG);
    assert_eq!(r, Err(MarshalError::UnexpectedEndOfInput));
    // A sequence that announces more elements than the input holds.
    let r = <Vec<u8>>::from_haskell_slice(&[5, 0, 0, 0, 1, 2], TAG);
    assert_eq!(r, Err(MarshalError::UnexpectedEndOfInput));
}

#[test]
fn oversized_sequence_is_rejected() {
    // A sequence of units occupies no memory, so a length beyond the 32-bit
    // prefix can actually be built.
    let huge: Vec<()> = vec![(); (u32::MAX as usize) + 1];
    let r = huge.to_haskell_vec(TAG);
    assert_eq!(r, Err(MarshalError::LengthOverflow));
}

#[test]
fn malformed_text_is_rejected() {
    // One byte announced, and that byte is not valid UTF-8.
    let r = String::from_haskell_slice(&[1, 0, 0, 0, 0xFF], TAG);
    assert_eq!(r, Err(MarshalError::InvalidData));
}

#[test]
fn decoding_consumes_exactly_the_encoding() {
    let mut bytes = 0x0102u16.to_haskell_vec(TAG).unwrap();
    bytes.extend_from_slice(&[9, 9, 9]);
    let mut cursor = ByteCursor::new(bytes);
    let v = u16::from_haskell(&mut cursor, TAG).unwrap();
    assert_eq!(v, 0x0102);
    assert_eq!(cursor.pos, 2);
    let w = u8::from_haskell(&mut cursor, TAG).unwrap();
    assert_eq!(w, 9);
    assert_eq!(cursor.pos, 3);
}
