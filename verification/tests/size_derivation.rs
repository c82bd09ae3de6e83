use core::marker::PhantomData;

use haskell_ffi::derived::EmptyStruct;
use haskell_ffi::derived::NamedStruct;
use haskell_ffi::derived::ParamStruct;
use haskell_ffi::derived::UnnamedStruct;
use haskell_ffi::HaskellSize;
use haskell_ffi::ToHaskell;

enum ExampleTag {}

#[test]
fn empty() {
    let tag: PhantomData<ExampleTag> = PhantomData;
    assert_eq!(EmptyStruct::haskell_size(tag), 0);
    let encoded = EmptyStruct.to_haskell_vec(tag).unwrap();
    assert_eq!(encoded.len(), EmptyStruct::haskell_size(tag));
}

#[test]
fn unnamed() {
    let tag: PhantomData<ExampleTag> = PhantomData;
    assert_eq!(UnnamedStruct::haskell_size(tag), 7);
    let encoded = UnnamedStruct(1, (2, 3)).to_haskell_vec(tag).unwrap();
    assert_eq!(encoded.len(), UnnamedStruct::haskell_size(tag));
}

#[test]
fn named() {
    let tag: PhantomData<ExampleTag> = PhantomData;
    assert_eq!(NamedStruct::haskell_size(tag), 15);
    let encoded = NamedStruct {
        a: 1,
        b: 2,
        c: (3, 4),
    }
    .to_haskell_vec(tag)
    .unwrap();
    assert_eq!(encoded.len(), NamedStruct::haskell_size(tag));
}

#[test]
fn param() {
    let tag: PhantomData<ExampleTag> = PhantomData;
    assert_eq!(<ParamStruct<u64>>::haskell_size(tag), 25);
    let encoded = ParamStruct {
        a: 1,
        b: (1u64, 2u64, 3u64),
    }
    .to_haskell_vec(tag)
    .unwrap();
    assert_eq!(encoded.len(), <ParamStruct<u64>>::haskell_size(tag));
}
