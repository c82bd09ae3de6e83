use core::marker::PhantomData;

use haskell_ffi::FromHaskell;
use haskell_ffi::ToHaskell;

enum ExampleTag {}

fn round_trip<T>(v: T) -> T
where
    T: ToHaskell<ExampleTag> + FromHaskell<ExampleTag>,
{
    let tag: PhantomData<ExampleTag> = PhantomData;
    let encoded = v.to_haskell_vec(tag).unwrap();
    T::from_haskell_slice(&encoded, tag).unwrap()
}

#[test]
fn round_trip_unsigned() {
    assert_eq!(round_trip(0u8), 0u8);
    assert_eq!(round_trip(255u8), 255u8);
    assert_eq!(round_trip(513u16), 513u16);
    assert_eq!(round_trip(70000u32), 70000u32);
    assert_eq!(round_trip(u32::MAX), u32::MAX);
    assert_eq!(round_trip(1u64 << 40), 1u64 << 40);
    assert_eq!(round_trip(u128::MAX - 7), u128::MAX - 7);
}

#[test]
fn round_trip_signed() {
    assert_eq!(round_trip(-1i8), -1i8);
    assert_eq!(round_trip(i8::MIN), i8::MIN);
    assert_eq!(round_trip(-513i16), -513i16);
    assert_eq!(round_trip(i32::MIN), i32::MIN);
    assert_eq!(round_trip(-5_000_000_000i64), -5_000_000_000i64);
    assert_eq!(round_trip(i128::MIN + 3), i128::MIN + 3);
}

#[test]
fn round_trip_bool_and_unit() {
    assert_eq!(round_trip(true), true);
    assert_eq!(round_trip(false), false);
    assert_eq!(round_trip(()), ());
}

#[test]
fn round_trip_string() {
    assert_eq!(round_trip(String::new()), String::new());
    assert_eq!(round_trip("hello".to_string()), "hello".to_string());
    let accents = "d\u{e9}j\u{e0} \u{1f980} vu".to_string();
    assert_eq!(round_trip(accents.clone()), accents);
}

#[test]
fn round_trip_vec() {
    let v: Vec<u32> = vec![1, 2, 3, 70000];
    assert_eq!(round_trip(v.clone()), v);
    let empty: Vec<u8> = vec![];
    assert_eq!(round_trip(empty.clone()), empty);
    let nested: Vec<Vec<u16>> = vec![vec![1, 2], vec![], vec![3]];
    assert_eq!(round_trip(nested.clone()), nested);
    let texts: Vec<String> = vec!["a".to_string(), String::new(), "bc".to_string()];
    assert_eq!(round_trip(texts.clone()), texts);
}

#[test]
fn round_trip_option() {
    assert_eq!(round_trip(None::<u64>), None);
    assert_eq!(round_trip(Some(42u64)), Some(42u64));
    assert_eq!(round_trip(Some(Some(7u8))), Some(Some(7u8)));
    assert_eq!(round_trip(Some("x".to_string())), Some("x".to_string()));
}

#[test]
fn round_trip_tuples() {
    assert_eq!(round_trip((3u32, 4u64)), (3u32, 4u64));
    assert_eq!(
        round_trip((1u8, "two".to_string(), vec![3u16])),
        (1u8, "two".to_string(), vec![3u16])
    );
    assert_eq!(
        round_trip((1u8, 2u16, 3u32, Some(4u64))),
        (1u8, 2u16, 3u32, Some(4u64))
    );
}
