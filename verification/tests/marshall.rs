use core::marker::PhantomData;

use haskell_ffi::marshall_from_haskell_fixed;
use haskell_ffi::marshall_from_haskell_var;
use haskell_ffi::marshall_result_to_haskell_var;
use haskell_ffi::marshall_to_haskell_fixed;
use haskell_ffi::marshall_to_haskell_max;
use haskell_ffi::marshall_to_haskell_var;
use haskell_ffi::ToHaskell;

enum ExampleTag {}

const TAG: PhantomData<ExampleTag> = PhantomData;

#[test]
fn two_phase_negotiation() {
    let value: Vec<u32> = vec![10, 20, 30];
    let expected = value.to_haskell_vec(TAG).unwrap();

    // First phase: zero capacity returns the true required length and
    // writes nothing.
    let mut out: Vec<u8> = Vec::new();
    let mut out_len: usize = 0;
    marshall_to_haskell_var(&value, &mut out, &mut out_len, TAG);
    assert_eq!(out_len, expected.len());
    assert!(out.is_empty());

    // Second phase: a buffer of exactly that length is filled completely.
    let mut out: Vec<u8> = vec![0; out_len];
    let mut out_len2: usize = out_len;
    marshall_to_haskell_var(&value, &mut out, &mut out_len2, TAG);
    assert_eq!(out_len2, expected.len());
    assert_eq!(out, expected);
}

#[test]
fn var_write_too_small_buffer_is_not_fatal() {
    let value = "hello".to_string();
    let expected = value.to_haskell_vec(TAG).unwrap();
    let mut out: Vec<u8> = vec![7; 3];
    let mut out_len: usize = 3;
    marshall_to_haskell_var(&value, &mut out, &mut out_len, TAG);
    // The true length comes back; the caller detects the shortfall and may
    // retry. The buffer is untouched.
    assert_eq!(out_len, expected.len());
    assert_eq!(out, vec![7; 3]);
}

#[test]
fn fixed_write_fills_buffer_exactly() {
    let mut out: Vec<u8> = vec![0; 4];
    marshall_to_haskell_fixed(&0x01020304u32, &mut out, 4, TAG);
    assert_eq!(out, vec![4, 3, 2, 1]);
}

#[test]
fn max_write_fills_prefix() {
    let mut out: Vec<u8> = vec![9; 5];
    marshall_to_haskell_max(&None::<u32>, &mut out, 5, TAG);
    assert_eq!(out, vec![0, 9, 9, 9, 9]);
    let mut out: Vec<u8> = vec![9; 5];
    marshall_to_haskell_max(&Some(1u32), &mut out, 5, TAG);
    assert_eq!(out, vec![1, 1, 0, 0, 0]);
}

#[test]
fn var_read_decodes_whole_buffer() {
    let value: Vec<u16> = vec![1, 2, 3];
    let bytes = value.to_haskell_vec(TAG).unwrap();
    let decoded: Vec<u16> = marshall_from_haskell_var(&bytes, TAG);
    assert_eq!(decoded, value);
}

#[test]
fn fixed_read_decodes_whole_buffer() {
    let bytes = (7u32, 8u64).to_haskell_vec(TAG).unwrap();
    let decoded: (u32, u64) = marshall_from_haskell_fixed(&bytes, TAG);
    assert_eq!(decoded, (7u32, 8u64));
}

#[test]
fn result_marshalling_renders_both_arms() {
    let ok: Result<u32, String> = Ok(42);
    let mut out: Vec<u8> = Vec::new();
    let mut out_len: usize = 0;
    marshall_result_to_haskell_var(&ok, &mut out, &mut out_len, TAG);
    assert_eq!(out_len, ok.to_haskell_vec(TAG).unwrap().len());

    let err: Result<u32, String> = Err("boom".to_string());
    let expected = err.to_haskell_vec(TAG).unwrap();
    let mut out: Vec<u8> = vec![0; expected.len()];
    let mut out_len: usize = out.len();
    marshall_result_to_haskell_var(&err, &mut out, &mut out_len, TAG);
    assert_eq!(out_len, expected.len());
    assert_eq!(out, expected);
    assert_eq!(out[0], 0);
}
