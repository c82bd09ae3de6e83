//! The encoded bytes must agree, bit for bit, with what the base codec
//! produces for the same data.

use core::marker::PhantomData;
use std::collections::HashMap;
use std::collections::HashSet;

use haskell_ffi::HaskellMaxSize;
use haskell_ffi::ToHaskell;

enum ExampleTag {}

fn encoded<T: ToHaskell<ExampleTag>>(v: &T) -> Vec<u8> {
    let tag: PhantomData<ExampleTag> = PhantomData;
    v.to_haskell_vec(tag).unwrap()
}

#[test]
fn integers_are_little_endian() {
    assert_eq!(encoded(&0x01u8), vec![0x01]);
    assert_eq!(encoded(&0x0102u16), vec![0x02, 0x01]);
    assert_eq!(encoded(&1u32), vec![1, 0, 0, 0]);
    assert_eq!(
        encoded(&0x0102030405060708u64),
        vec![8, 7, 6, 5, 4, 3, 2, 1]
    );
    assert_eq!(encoded(&1u128), {
        let mut v = vec![1u8];
        v.extend(std::iter::repeat(0u8).take(15));
        v
    });
}

#[test]
fn signed_integers_are_twos_complement() {
    assert_eq!(encoded(&-1i8), vec![0xFF]);
    assert_eq!(encoded(&-2i16), vec![0xFE, 0xFF]);
    assert_eq!(encoded(&i32::MIN), vec![0, 0, 0, 0x80]);
    assert_eq!(encoded(&-1i64), vec![0xFF; 8]);
    assert_eq!(encoded(&-1i128), vec![0xFF; 16]);
}

#[test]
fn booleans_are_one_byte() {
    assert_eq!(encoded(&false), vec![0]);
    assert_eq!(encoded(&true), vec![1]);
}

#[test]
fn strings_are_length_prefixed_utf8() {
    assert_eq!(encoded(&"ab".to_string()), vec![2, 0, 0, 0, 0x61, 0x62]);
    assert_eq!(encoded(&String::new()), vec![0, 0, 0, 0]);
}

#[test]
fn sequences_are_length_prefixed() {
    assert_eq!(encoded(&vec![1u8, 2, 3]), vec![3, 0, 0, 0, 1, 2, 3]);
    assert_eq!(encoded(&Vec::<u32>::new()), vec![0, 0, 0, 0]);
}

#[test]
fn optional_values_have_presence_byte() {
    assert_eq!(encoded(&None::<u8>), vec![0]);
    assert_eq!(encoded(&Some(5u8)), vec![1, 5]);
}

#[test]
fn results_use_base_codec_discriminants() {
    assert_eq!(encoded(&Err::<u8, u8>(7)), vec![0, 7]);
    assert_eq!(encoded(&Ok::<u8, u8>(7)), vec![1, 7]);
}

#[test]
fn tuples_and_arrays_concatenate() {
    assert_eq!(encoded(&(1u8, 2u16)), vec![1, 2, 0]);
    assert_eq!(encoded(&(1u8, 2u8, 3u16)), vec![1, 2, 3, 0]);
    assert_eq!(encoded(&[0x0102u16, 0x0304u16]), vec![2, 1, 4, 3]);
}

#[test]
fn agrees_with_base_codec() {
    let v: Vec<u32> = vec![1, 2, 70000];
    assert_eq!(encoded(&v), borsh::to_vec(&v).unwrap());
    let s = "d\u{e9}j\u{e0} vu".to_string();
    assert_eq!(encoded(&s), borsh::to_vec(&s).unwrap());
    let o = Some((1u8, -2i64));
    assert_eq!(encoded(&o), borsh::to_vec(&o).unwrap());
    let r: Result<u16, String> = Err("no".to_string());
    assert_eq!(encoded(&r), borsh::to_vec(&r).unwrap());
}

#[test]
fn max_sizes_bound_encodings() {
    let tag: PhantomData<ExampleTag> = PhantomData;
    assert_eq!(<Option<u32>>::haskell_max_size(tag), 5);
    assert!(encoded(&Some(7u32)).len() <= 5);
    assert!(encoded(&None::<u32>).len() <= 5);
    assert_eq!(<Result<u8, u64>>::haskell_max_size(tag), 9);
    assert!(encoded(&Ok::<u8, u64>(1)).len() <= 9);
    assert!(encoded(&Err::<u8, u64>(1)).len() <= 9);
    assert_eq!(<[u16; 3]>::haskell_max_size(tag), 6);
}

#[test]
fn sorted_entries_agree_with_base_codec_maps() {
    // The boundary crate marshals hash containers through their key-sorted
    // entries; the base codec sorts the same way, so the bytes must agree.
    let mut map: HashMap<u32, String> = HashMap::new();
    map.insert(3, "c".to_string());
    map.insert(1, "a".to_string());
    map.insert(2, "b".to_string());
    let mut entries: Vec<(&u32, &String)> = map.iter().collect();
    entries.sort_by(|a, b| a.0.cmp(b.0));
    assert_eq!(encoded(&entries), borsh::to_vec(&map).unwrap());

    let mut set: HashSet<u16> = HashSet::new();
    set.insert(9);
    set.insert(4);
    set.insert(7);
    let mut items: Vec<&u16> = set.iter().collect();
    items.sort();
    assert_eq!(encoded(&items), borsh::to_vec(&set).unwrap());
}
