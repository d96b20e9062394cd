use parity_scale_codec::{Compact, Duration, Encode, MaxEncodedLen};
use std::marker::PhantomData;

#[test]
fn primitives_have_their_size_as_bound() {
    assert_eq!(u8::max_encoded_len(), 1);
    assert_eq!(i16::max_encoded_len(), 2);
    assert_eq!(u32::max_encoded_len(), 4);
    assert_eq!(i64::max_encoded_len(), 8);
    assert_eq!(u128::max_encoded_len(), 16);
    assert_eq!(bool::max_encoded_len(), 1);
    assert_eq!(<()>::max_encoded_len(), 0);
    assert_eq!(PhantomData::<u64>::max_encoded_len(), 0);
    assert_eq!(Duration::max_encoded_len(), 12);
}

#[test]
fn compact_bounds_are_the_longest_compact_encodings() {
    assert_eq!(Compact::<u8>::max_encoded_len(), 2);
    assert_eq!(Compact::<u16>::max_encoded_len(), 4);
    assert_eq!(Compact::<u32>::max_encoded_len(), 5);
    assert_eq!(Compact::<u64>::max_encoded_len(), 9);
    assert_eq!(Compact::<u128>::max_encoded_len(), 17);
    assert_eq!(Compact::<()>::max_encoded_len(), 0);
    assert_eq!(Compact(u8::MAX).encode().len(), 2);
    assert_eq!(Compact(u16::MAX).encode().len(), 4);
    assert_eq!(Compact(u32::MAX).encode().len(), 5);
    assert_eq!(Compact(u64::MAX).encode().len(), 9);
    assert_eq!(Compact(u128::MAX).encode().len(), 17);
}

#[test]
fn composite_bounds_add_up() {
    assert_eq!(Option::<u32>::max_encoded_len(), 5);
    assert_eq!(Result::<u8, u64>::max_encoded_len(), 9);
    assert_eq!(Result::<u128, u8>::max_encoded_len(), 17);
    assert_eq!(Box::<u16>::max_encoded_len(), 2);
    assert_eq!(<[u16; 3]>::max_encoded_len(), 6);
    assert_eq!(<[u64; 0]>::max_encoded_len(), 0);
    assert_eq!(<(u8, u32)>::max_encoded_len(), u8::max_encoded_len() + u32::max_encoded_len());
    assert_eq!(<(u8,)>::max_encoded_len(), 1);
    assert_eq!(<(u8, u16, u32, u64)>::max_encoded_len(), 15);
    assert_eq!(
        <(u8, u8, u8, u8, u8, u8, u8, u8, u8, u8, u8, u8, u8, u8, u8, u8, u8, u8)>::max_encoded_len(),
        18
    );
}

#[test]
fn no_encoding_is_longer_than_the_bound() {
    assert!(Some(u32::MAX).encode().len() <= Option::<u32>::max_encoded_len());
    let r: Result<u8, u64> = Err(7);
    assert!(r.encode().len() <= Result::<u8, u64>::max_encoded_len());
    assert!([1u16, 2, 3].encode().len() <= <[u16; 3]>::max_encoded_len());
}
