use parity_scale_codec::{
    io_error, Compact, Decode, DecodeAll, DecodeLength, Duration, Encode,
    EncodeAppend, Error, IoErrorKind, OptionBool, A_BILLION,
};
use std::collections::VecDeque;

fn check_roundtrip<T: Encode + Decode + PartialEq + std::fmt::Debug>(value: T) {
    let encoded = value.encode();
    let mut trailing = encoded.clone();
    trailing.extend_from_slice(&[7, 7, 7]);
    let mut input = &trailing[..];
    assert_eq!(T::decode(&mut input), Ok(value));
    assert_eq!(input, &[7, 7, 7]);
}

#[test]
fn decoding_an_encoding_reads_exactly_it() {
    check_roundtrip(0xdead_beef_u32);
    check_roundtrip(-5i128);
    check_roundtrip(Compact(1u64 << 40));
    check_roundtrip(vec![Some(1u16), None, Some(3)]);
    check_roundtrip(VecDeque::from(vec![String::from("a"), String::from("bc")]));
    check_roundtrip((1u8, Ok::<u64, bool>(9), Box::new(OptionBool(Some(false)))));
    check_roundtrip(Duration::new(5, 1_500_000_000));
    check_roundtrip([[1u8, 2], [3, 4]]);
    check_roundtrip(3u32..7u32);
    check_roundtrip(3u32..=7u32);
    check_roundtrip(std::rc::Rc::new(5u32));
    check_roundtrip(std::sync::Arc::new(vec![1u8, 2]));
    check_roundtrip(std::borrow::Cow::<'_, [u16]>::Owned(vec![9, 8]));
}

#[test]
fn encoded_size_is_encoding_length() {
    let v = (vec![1u64, 2, 3], String::from("xyz"), Compact(100_000u32));
    assert_eq!(v.encoded_size(), v.encode().len());
    assert_eq!(v.encoded_size(), 1 + 24 + 1 + 3 + 4);
}

#[test]
fn only_shortest_compact_encodings_decode() {
    // 0 written in the two-byte mode.
    assert!(<Compact<u32>>::decode(&mut &[0x01, 0x00][..]).is_err());
    // 63 written in the four-byte mode.
    assert!(<Compact<u32>>::decode(&mut &[0xfe, 0x00, 0x00, 0x00][..]).is_err());
    // 2^30 written with a zero most significant byte.
    assert!(<Compact<u64>>::decode(&mut &[0x07, 0x00, 0x00, 0x00, 0x40, 0x00][..]).is_err());
}

#[test]
fn compact_out_of_range() {
    let e = <Compact<u8>>::decode(&mut &Compact(256u32).encode()[..]).unwrap_err();
    assert_eq!(e.what(), "Out of range");
    let e = <Compact<u16>>::decode(&mut &Compact(65536u32).encode()[..]).unwrap_err();
    assert_eq!(e.what(), "Out of range");
    assert_eq!(<Compact<u8>>::decode(&mut &Compact(255u32).encode()[..]), Ok(Compact(255u8)));
}

#[test]
fn decode_error_descriptions() {
    assert_eq!(bool::decode(&mut &[2u8][..]).unwrap_err().what(), "Invalid boolean representation");
    assert_eq!(
        <Option<u8>>::decode(&mut &[2u8, 0][..]).unwrap_err().what(),
        "unexpected first byte decoding Option"
    );
    assert_eq!(
        <Result<u8, u8>>::decode(&mut &[2u8, 0][..]).unwrap_err().what(),
        "unexpected first byte decoding Result"
    );
    assert_eq!(
        OptionBool::decode(&mut &[3u8][..]).unwrap_err().what(),
        "unexpected first byte decoding OptionBool"
    );
    assert_eq!(
        String::decode(&mut &[0x04, 0xff][..]).unwrap_err().what(),
        "Invalid utf8 sequence"
    );
    assert_eq!(u32::decode(&mut &[1u8, 2][..]).unwrap_err().what(), "Not enough data to fill buffer");
    let mut bad = 1u64.encode();
    bad.extend_from_slice(&A_BILLION.encode());
    assert_eq!(
        Duration::decode(&mut &bad[..]).unwrap_err().what(),
        "Could not decode `Duration`: Number of nanoseconds should not be higher than 10^9."
    );
}

#[test]
fn appending_equals_encoding_the_whole() {
    let start = vec![1u32, 2, 3];
    let more = [4u32, 5];
    let appended = <Vec<u32> as EncodeAppend>::append_or_new(start.encode(), &more[..]).unwrap();
    assert_eq!(appended, vec![1u32, 2, 3, 4, 5].encode());
    let fresh = <Vec<u32> as EncodeAppend>::append_or_new(Vec::new(), &more[..]).unwrap();
    assert_eq!(fresh, vec![4u32, 5].encode());
    // 63 items take one length byte; 64 take two.
    let items: Vec<u8> = (0..63).collect();
    let grown = <Vec<u8> as EncodeAppend>::append_or_new(items.encode(), &[63u8][..]).unwrap();
    assert_eq!(grown, (0u8..64).collect::<Vec<u8>>().encode());
    assert!(<Vec<u8> as EncodeAppend>::append_or_new(vec![0x03], &[1u8][..]).is_err());
}

#[test]
fn length_is_read_without_decoding_items() {
    let v = vec![10u64; 70];
    assert_eq!(<Vec<u64> as DecodeLength>::len(&v.encode()), Ok(70));
    assert_eq!(<(Vec<u64>, u8) as DecodeLength>::len(&(v.clone(), 1u8).encode()), Ok(70));
    assert!(<Vec<u64> as DecodeLength>::len(&[]).is_err());
}

#[test]
fn decode_all_law() {
    let encoded = (5u16, vec![true]).encode();
    assert_eq!(<(u16, Vec<bool>)>::decode_all(&mut &encoded[..]), Ok((5, vec![true])));
    assert!(<(u16, Vec<bool>)>::decode_all(&mut &encoded[..3]).is_err());
}

#[test]
fn io_error_descriptions() {
    assert_eq!(io_error(IoErrorKind::UnexpectedEof), Error::from("io error: UnexpectedEof"));
    assert_eq!(io_error(IoErrorKind::NotFound).what(), "io error: NotFound");
    assert_eq!(io_error(IoErrorKind::Unknown).what(), "io error: Unknown");
}

#[test]
fn generated_names() {
    assert_eq!(parity_scale_codec::naming::stringify(0), *b"aa");
    assert_eq!(parity_scale_codec::naming::stringify(25), *b"za");
    assert_eq!(parity_scale_codec::naming::stringify(26), *b"ab");
    assert_eq!(parity_scale_codec::naming::stringify(255), *b"vj");
}

#[test]
fn error_display_with_indent() {
    let e = Error::from("root cause");
    assert_eq!(e.display_with_indent(2), "\t\troot cause");
    assert_eq!(e.clone().chain("wrap").what(), "root cause");
}

#[test]
fn long_tuples_encode_their_values_in_order() {
    let four = (1u8, 2u16, true, String::from("a"));
    assert_eq!(four.encode(), vec![1, 2, 0, 1, 4, b'a']);
    check_roundtrip(four);
    let ten = (1u8, 2u8, 3u8, 4u8, 5u8, 6u8, 7u8, 8u8, 9u8, 10u32);
    assert_eq!(ten.encode(), vec![1, 2, 3, 4, 5, 6, 7, 8, 9, 10, 0, 0, 0]);
    check_roundtrip(ten);
    let eighteen = (
        0u8, 1u8, 2u8, 3u8, 4u8, 5u8, 6u8, 7u8, 8u8, 9u8, 10u8, 11u8, 12u8, 13u8, 14u8, 15u8,
        16u8, Some(17u16),
    );
    let bytes = eighteen.encode();
    assert_eq!(bytes.len(), 17 + 3);
    assert_eq!(&bytes[..17], &[0, 1, 2, 3, 4, 5, 6, 7, 8, 9, 10, 11, 12, 13, 14, 15, 16]);
    assert_eq!(&bytes[17..], &[1, 17, 0]);
    let mut input = &bytes[..];
    let back = <(
        u8, u8, u8, u8, u8, u8, u8, u8, u8, u8, u8, u8, u8, u8, u8, u8, u8, Option<u16>,
    )>::decode(&mut input)
    .unwrap();
    assert!(input.is_empty());
    assert_eq!(back.encode(), bytes);
    assert_eq!((back.0, back.16, back.17), (0, 16, Some(17)));
    let mut short: &[u8] = &[1, 2, 0, 1];
    assert!(<(u8, u16, bool, String)>::decode(&mut short).is_err());
}

#[test]
fn fixed_sizes_of_integers() {
    assert_eq!(<u32 as Decode>::encoded_fixed_size(), Some(4));
    assert_eq!(<i128 as Decode>::encoded_fixed_size(), Some(16));
    assert_eq!(<Vec<u8> as Decode>::encoded_fixed_size(), None);
    assert_eq!(<bool as Decode>::encoded_fixed_size(), None);
}

#[test]
fn size_hints_add_up_the_hints_of_the_parts() {
    assert_eq!(Some(5u32).size_hint(), 5);
    assert_eq!(None::<u32>.size_hint(), 1);
    assert_eq!(Ok::<u16, u8>(1).size_hint(), 3);
    assert_eq!(Err::<u16, u8>(1).size_hint(), 2);
    assert_eq!((1u8,).size_hint(), 1);
    assert_eq!((1u8, 2u16, 3u32).size_hint(), 7);
    assert_eq!((1u8, 2u16, 3u32, 4u64).size_hint(), 15);
    assert_eq!((1u8, 2u8, 3u8, 4u8, 5u8, 6u8, 7u8, 8u8, 9u8, 10u128).size_hint(), 25);
    assert_eq!(Box::new(7u64).size_hint(), 8);
    assert_eq!(std::rc::Rc::new(7u16).size_hint(), 2);
    assert_eq!(std::sync::Arc::new(true).size_hint(), 1);
    assert_eq!((&9u32).size_hint(), 4);
    let mut m = 9u64;
    assert_eq!((&mut m).size_hint(), 8);
    assert_eq!(Encode::size_hint(&(1u32..5u32)), 8);
    assert_eq!(Encode::size_hint(&(1u16..=5u16)), 4);
    assert_eq!(std::borrow::Cow::<'_, u32>::Owned(4).size_hint(), 4);
    assert_eq!(std::borrow::Cow::<'_, [u16]>::Owned(vec![1, 2, 3]).size_hint(), 10);
    assert_eq!(std::borrow::Cow::<'_, str>::Borrowed("abc").size_hint(), 7);
}
