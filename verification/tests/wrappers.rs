use haskell_ffi::tag;
use haskell_ffi::tag_val;
use haskell_ffi::untag_ref;
use haskell_ffi::untag_val;
use haskell_ffi::unwrap_use_borsh;
use haskell_ffi::unwrap_use_borsh_ref;
use haskell_ffi::Tagged;
use haskell_ffi::UseBorsh;

enum ExampleTag {}

#[test]
fn tagged_value_keeps_its_payload() {
    let t: Tagged<ExampleTag, u32> = tag(42);
    assert_eq!(t.value, 42);
}

#[test]
fn deriving_via_wrapping_is_lossless() {
    let wrapped = tag_val::<ExampleTag, _>("abc".to_string());
    assert_eq!(untag_ref(&wrapped), "abc");
    assert_eq!(untag_val(wrapped), "abc".to_string());
}

#[test]
fn use_borsh_wrapping_is_lossless() {
    let wrapped = UseBorsh(vec![1u8, 2]);
    assert_eq!(unwrap_use_borsh_ref(&wrapped), &vec![1u8, 2]);
    assert_eq!(unwrap_use_borsh(wrapped), vec![1u8, 2]);
}
