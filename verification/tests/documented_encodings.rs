use parity_scale_codec::{Compact, Decode, Encode};

fn roundtrips<T: Encode + Decode + PartialEq + std::fmt::Debug>(value: T, expected: &[u8]) {
    let encoded = value.encode();
    assert_eq!(encoded, expected);
    assert_eq!(T::decode(&mut &encoded[..]), Ok(value));
}

#[test]
fn unit_and_booleans() {
    roundtrips((), &[]);
    roundtrips(true, &[0x01]);
    roundtrips(false, &[0x00]);
}

#[test]
fn fixed_width_integers() {
    roundtrips(69i8, &[0x45]);
    roundtrips(69u32, &[0x45, 0x00, 0x00, 0x00]);
    roundtrips(42u16, &[0x2a, 0x00]);
    roundtrips(16777215u32, &[0xff, 0xff, 0xff, 0x00]);
    roundtrips(-1i16, &[0xff, 0xff]);
    roundtrips(i64::MIN, &[0, 0, 0, 0, 0, 0, 0, 0x80]);
}

#[test]
fn compact_modes() {
    roundtrips(Compact(0u8), &[0x00]);
    roundtrips(Compact(60u8), &[0xf0]);
    roundtrips(Compact(60u16), &[0xf0]);
    roundtrips(Compact(60u32), &[0xf0]);
    roundtrips(Compact(42u32), &[0xa8]);
    roundtrips(Compact(69u8), &[0x15, 0x01]);
    roundtrips(Compact(69u32), &[0x15, 0x01]);
    roundtrips(Compact(65535u32), &[0xfe, 0xff, 0x03, 0x00]);
    roundtrips(Compact(1073741824u64), &[0x03, 0x00, 0x00, 0x00, 0x40]);
    roundtrips(Compact(4294967296u64), &[0x07, 0x00, 0x00, 0x00, 0x00, 0x01]);
    roundtrips(Compact(1337u64), &[0xe5, 0x14]);
}

#[test]
fn compact_mode_boundaries() {
    assert_eq!(Compact(63u32).encode(), vec![0xfc]);
    assert_eq!(Compact(64u32).encode(), vec![0x01, 0x01]);
    assert_eq!(Compact(16383u32).encode(), vec![0xfd, 0xff]);
    assert_eq!(Compact(16384u32).encode(), vec![0x02, 0x00, 0x01, 0x00]);
    assert_eq!(Compact(1073741823u32).encode(), vec![0xfe, 0xff, 0xff, 0xff]);
    assert_eq!(Compact(u32::MAX).encode(), vec![0x03, 0xff, 0xff, 0xff, 0xff]);
    assert_eq!(Compact(u64::MAX).encode(), vec![0x13, 0xff, 0xff, 0xff, 0xff, 0xff, 0xff, 0xff, 0xff]);
    let mut max128 = vec![0x33];
    max128.extend_from_slice(&[0xff; 16]);
    assert_eq!(Compact(u128::MAX).encode(), max128);
}

#[test]
fn sequences_and_strings() {
    roundtrips(vec![1u8, 2u8, 4u8], &[0x0c, 0x01, 0x02, 0x04]);
    roundtrips(String::from("SCALE♡"), &[0x20, 0x53, 0x43, 0x41, 0x4c, 0x45, 0xe2, 0x99, 0xa1]);
    assert_eq!([0u8, 1u8, 2u8, 3u8, 4u8].encode(), vec![0x00, 0x01, 0x02, 0x03, 0x04]);
    roundtrips([64u16, 512u16], &[0x40, 0x00, 0x00, 0x02]);
}

#[test]
fn tuples_options_and_results() {
    assert_eq!((1u8, true, "OK").encode(), vec![0x01, 0x01, 0x08, 0x4f, 0x4b]);
    roundtrips((0u8, true, Some(69u32)), &[0x00, 0x01, 0x01, 0x45, 0x00, 0x00, 0x00]);
    roundtrips(Ok::<u32, ()>(42u32), &[0x00, 0x2a, 0x00, 0x00, 0x00]);
    roundtrips(Err::<u32, ()>(()), &[0x01]);
    roundtrips(Some(69u8), &[0x01, 0x45]);
    roundtrips(None::<u8>, &[0x00]);
}

#[test]
fn struct_with_compact_field_layout() {
    // struct Example { number: u64, #[codec(compact)] compact_number: u64 }
    let encoded = (42u64, Compact(1337u64)).encode();
    assert_eq!(encoded, vec![0x2a, 0x00, 0x00, 0x00, 0x00, 0x00, 0x00, 0x00, 0xe5, 0x14]);
    // enum Choices { One(u64, #[codec(compact)] u64) }: the variant index comes first.
    let mut variant = vec![0x00];
    variant.extend_from_slice(&encoded);
    assert_eq!(variant, vec![0x00, 0x2a, 0x00, 0x00, 0x00, 0x00, 0x00, 0x00, 0x00, 0xe5, 0x14]);
}
