use parity_scale_codec::{
    Compact, Decode, Duration, Encode, EncodeLike, Error, Input, OptionBool, Output, A_BILLION,
    MAX_PREALLOCATION,
};
use std::borrow::Cow;
use std::collections::VecDeque;
use std::ops::{Range, RangeInclusive};

fn hexify(bytes: &[u8]) -> String {
    bytes.iter().map(|ref b| format!("{:02x}", b)).collect::<Vec<String>>().join(" ")
}

#[test]
fn vec_is_sliceable() {
    let v = b"Hello world".to_vec();
    v.using_encoded(|ref slice| assert_eq!(slice, &b"\x2cHello world"));
}

#[test]
fn encode_borrowed_tuple() {
    let x = vec![1u8, 2, 3, 4];
    let y = 128i64;

    let encoded = (&x, &y).encode();

    assert_eq!((x, y), Decode::decode(&mut &encoded[..]).unwrap());
}

#[test]
fn cow_works() {
    let x = &[1u32, 2, 3, 4, 5, 6][..];
    let y = Cow::Borrowed(&x);
    assert_eq!(x.encode(), y.encode());

    let z: Cow<'_, [u32]> = Cow::decode(&mut &x.encode()[..]).unwrap();
    assert_eq!(*z, *x);
}

#[test]
fn cow_string_works() {
    let x = "Hello world!";
    let y = Cow::Borrowed(&x);
    assert_eq!(x.encode(), y.encode());

    let z: Cow<'_, str> = Cow::decode(&mut &x.encode()[..]).unwrap();
    assert_eq!(*z, *x);
}

#[test]
fn string_encoded_as_expected() {
    let value = String::from("Hello, World!");
    let encoded = value.encode();
    assert_eq!(hexify(&encoded), "34 48 65 6c 6c 6f 2c 20 57 6f 72 6c 64 21");
    assert_eq!(<String>::decode(&mut &encoded[..]).unwrap(), value);
}

#[test]
fn vec_of_u8_encoded_as_expected() {
    let value = vec![0u8, 1, 1, 2, 3, 5, 8, 13, 21, 34];
    let encoded = value.encode();
    assert_eq!(hexify(&encoded), "28 00 01 01 02 03 05 08 0d 15 22");
    assert_eq!(<Vec<u8>>::decode(&mut &encoded[..]).unwrap(), value);
}

#[test]
fn vec_of_i16_encoded_as_expected() {
    let value = vec![0i16, 1, -1, 2, -2, 3, -3];
    let encoded = value.encode();
    assert_eq!(hexify(&encoded), "1c 00 00 01 00 ff ff 02 00 fe ff 03 00 fd ff");
    assert_eq!(<Vec<i16>>::decode(&mut &encoded[..]).unwrap(), value);
}

#[test]
fn vec_of_option_int_encoded_as_expected() {
    let value = vec![Some(1i8), Some(-1), None];
    let encoded = value.encode();
    assert_eq!(hexify(&encoded), "0c 01 01 01 ff 00");
    assert_eq!(<Vec<Option<i8>>>::decode(&mut &encoded[..]).unwrap(), value);
}

#[test]
fn vec_of_option_bool_encoded_as_expected() {
    let value = vec![OptionBool(Some(true)), OptionBool(Some(false)), OptionBool(None)];
    let encoded = value.encode();
    assert_eq!(hexify(&encoded), "0c 01 02 00");
    assert_eq!(<Vec<OptionBool>>::decode(&mut &encoded[..]).unwrap(), value);
}

#[test]
fn vec_of_string_encoded_as_expected() {
    let value = vec![
        "Hamlet".to_owned(),
        "Война и мир".to_owned(),
        "三国演义".to_owned(),
        "أَلْف لَيْلَة وَلَيْلَة‎".to_owned(),
    ];
    let encoded = value.encode();
    assert_eq!(
        hexify(&encoded),
        "10 18 48 61 6d 6c 65 74 50 d0 92 d0 be d0 b9 d0 bd d0 b0 20 d0 \
		b8 20 d0 bc d0 b8 d1 80 30 e4 b8 89 e5 9b bd e6 bc 94 e4 b9 89 bc d8 a3 d9 8e d9 84 d9 92 \
		d9 81 20 d9 84 d9 8e d9 8a d9 92 d9 84 d9 8e d8 a9 20 d9 88 d9 8e d9 84 d9 8e d9 8a d9 92 \
		d9 84 d9 8e d8 a9 e2 80 8e"
    );
    assert_eq!(<Vec<String>>::decode(&mut &encoded[..]).unwrap(), value);
}

#[test]
fn codec_vec_deque_u8_and_u16() {
    let mut v_u8 = VecDeque::new();
    let mut v_u16 = VecDeque::new();

    for i in 0..50 {
        v_u8.push_front(i as u8);
        v_u16.push_front(i as u16);
    }
    for i in 50..100 {
        v_u8.push_back(i as u8);
        v_u16.push_back(i as u16);
    }

    assert_eq!(Decode::decode(&mut &v_u8.encode()[..]), Ok(v_u8));
    assert_eq!(Decode::decode(&mut &v_u16.encode()[..]), Ok(v_u16));
}

#[test]
fn shared_references_implement_encode() {
    std::sync::Arc::new(10u32).encode();
    std::rc::Rc::new(10u32).encode();
}

#[test]
fn not_limit_input_test() {
    struct NoLimit<'a>(&'a [u8]);

    impl<'a> Input for NoLimit<'a> {
        fn remaining_len(&mut self) -> Result<Option<usize>, Error> {
            Ok(None)
        }

        fn read(&mut self, into: &mut [u8]) -> Result<(), Error> {
            self.0.read(into)
        }

        fn descend_ref(&mut self) -> Result<(), Error> {
            Ok(())
        }

        fn ascend_ref(&mut self) {}

        fn try_alloc(&mut self, _size: usize) -> Result<(), Error> {
            Ok(())
        }
    }

    let len = MAX_PREALLOCATION * 2 + 1;
    let mut i = Compact(len as u32).encode();
    i.resize(i.len() + len, 0);
    assert_eq!(<Vec<u8>>::decode(&mut NoLimit(&i[..])).unwrap(), vec![0u8; len]);

    let i = Compact(len as u32).encode();
    assert_eq!(
        <Vec<u8>>::decode(&mut NoLimit(&i[..])).err().unwrap().to_string(),
        "Not enough data to fill buffer",
    );

    let i = Compact(1000u32).encode();
    assert_eq!(
        <Vec<u8>>::decode(&mut NoLimit(&i[..])).err().unwrap().to_string(),
        "Not enough data to fill buffer",
    );
}

#[test]
fn boolean() {
    assert_eq!(true.encode(), vec![1]);
    assert_eq!(false.encode(), vec![0]);
    assert_eq!(bool::decode(&mut &[1][..]).unwrap(), true);
    assert_eq!(bool::decode(&mut &[0][..]).unwrap(), false);
}

#[test]
fn vec_deque_encode_like_vec() {
    let data: VecDeque<u32> = vec![1, 2, 3, 4, 5, 6].into();
    let encoded = data.encode();

    let decoded = Vec::<u32>::decode(&mut &encoded[..]).unwrap();
    assert!(decoded.iter().all(|v| data.contains(&v)));
    assert_eq!(data.len(), decoded.len());

    let encoded = decoded.encode();
    let decoded = VecDeque::<u32>::decode(&mut &encoded[..]).unwrap();
    assert_eq!(data, decoded);
}

#[test]
fn vec_decode_right_capacity() {
    let data: Vec<u32> = vec![1, 2, 3];
    let mut encoded = data.encode();
    encoded.resize(encoded.len() * 2, 0);
    let decoded = Vec::<u32>::decode(&mut &encoded[..]).unwrap();
    assert_eq!(data, decoded);
    assert_eq!(decoded.capacity(), decoded.len());
    // Check with non-integer type
    let data: Vec<String> = vec!["1".into(), "2".into(), "3".into()];
    let mut encoded = data.encode();
    encoded.resize(65536, 0);
    let decoded = Vec::<String>::decode(&mut &encoded[..]).unwrap();
    assert_eq!(data, decoded);
    assert_eq!(decoded.capacity(), decoded.len());
}

#[test]
fn duration() {
    let num_secs = 13;
    let num_nanos = 37;

    let duration = Duration::new(num_secs, num_nanos);
    let expected = (num_secs, num_nanos as u32).encode();

    assert_eq!(duration.encode(), expected);
    assert_eq!(Duration::decode(&mut &expected[..]).unwrap(), duration);
}

#[test]
fn malformed_duration_encoding_fails() {
    // This test should fail, as the number of nanoseconds encoded is exactly 10^9.
    let invalid_nanos = A_BILLION;
    let encoded = (0u64, invalid_nanos).encode();
    assert!(Duration::decode(&mut &encoded[..]).is_err());

    let num_secs = 1u64;
    let num_nanos = 37u32;
    let invalid_nanos = num_secs as u32 * A_BILLION + num_nanos;
    let encoded = (num_secs, invalid_nanos).encode();
    // This test should fail, as the number of nano seconds encoded is bigger than 10^9.
    assert!(Duration::decode(&mut &encoded[..]).is_err());

    // Now constructing a valid duration and encoding it. Those asserts should not fail.
    let duration = Duration::from_nanos(invalid_nanos as u64);
    let expected = (num_secs, num_nanos).encode();

    assert_eq!(duration.encode(), expected);
    assert_eq!(Duration::decode(&mut &expected[..]).unwrap(), duration);
}

#[test]
fn u64_max() {
    let num_secs = u64::max_value();
    let num_nanos = 0;
    let duration = Duration::new(num_secs, num_nanos);
    let expected = (num_secs, num_nanos).encode();

    assert_eq!(duration.encode(), expected);
    assert_eq!(Duration::decode(&mut &expected[..]).unwrap(), duration);
}

#[test]
fn decoding_does_not_overflow() {
    let num_secs = u64::max_value();
    let num_nanos = A_BILLION;

    // `num_nanos`' carry should make `num_secs` overflow if we were to call `Duration::new()`.
    // This test checks that the we do not call `Duration::new()`.
    let encoded = (num_secs, num_nanos).encode();
    assert!(Duration::decode(&mut &encoded[..]).is_err());
}

#[test]
fn string_invalid_utf8() {
    // `167, 10` is not a valid utf8 sequence, so this should be an error.
    let mut bytes: &[u8] = &[20, 114, 167, 10, 20, 114];

    let obj = <String>::decode(&mut bytes);
    assert!(obj.is_err());
}

#[test]
fn empty_array_encode_and_decode() {
    let data: [u32; 0] = [];
    let encoded = data.encode();
    assert!(encoded.is_empty());
    <[u32; 0]>::decode(&mut &encoded[..]).unwrap();
}

fn test_encoded_size(val: impl Encode) {
    let length = val.using_encoded(|v| v.len());

    assert_eq!(length, val.encoded_size());
}

struct TestStruct {
    data: Vec<u32>,
    other: u8,
    compact: Compact<u128>,
}

impl Encode for TestStruct {
    fn encode_to<W: Output>(&self, dest: &mut W) {
        self.data.encode_to(dest);
        self.other.encode_to(dest);
        self.compact.encode_to(dest);
    }
}

#[test]
fn encoded_size_works() {
    test_encoded_size(120u8);
    test_encoded_size(30u16);
    test_encoded_size(1u32);
    test_encoded_size(2343545u64);
    test_encoded_size(34358394245459854u128);
    test_encoded_size(vec![1, 2, 3, 4, 5, 6, 7, 8, 9, 10u32]);
    test_encoded_size(Compact(32445u32));
    test_encoded_size(Compact(34353454453545u128));
    test_encoded_size(TestStruct {
        data: vec![1, 2, 4, 5, 6],
        other: 45,
        compact: Compact(123234545),
    });
}

#[test]
fn ranges() {
    let range = Range { start: 1, end: 100 };
    let range_bytes = (1, 100).encode();
    assert_eq!(range.encode(), range_bytes);
    assert_eq!(Range::decode(&mut &range_bytes[..]), Ok(range));

    let range_inclusive = RangeInclusive::new(1, 100);
    let range_inclusive_bytes = (1, 100).encode();
    assert_eq!(range_inclusive.encode(), range_inclusive_bytes);
    assert_eq!(RangeInclusive::decode(&mut &range_inclusive_bytes[..]), Ok(range_inclusive));
}

#[test]
fn some_encode_like() {
    fn t<B: EncodeLike>() {}
    t::<&[u8]>();
    t::<&str>();
}

#[test]
#[should_panic(expected = "Not enough data to fill buffer")]
fn option_bool() {
    let input: [u8; 0] = [];
    OptionBool::decode(&mut &input[..]).unwrap();
}

#[test]
fn encode_like_lattice_matches_encodings() {
    fn same<A: EncodeLike<B>, B: Encode>(a: A, b: B) {
        assert_eq!(a.encode(), b.encode());
    }
    same(vec![1u16, 2], &[1u16, 2][..]);
    same(&[1u16, 2][..], vec![1u16, 2]);
    same(VecDeque::from(vec![3u8]), vec![3u8]);
    same(vec![3u8], VecDeque::from(vec![3u8]));
    same(Some(&5u32), Some(5u32));
    same(Ok::<Box<u8>, &bool>(Box::new(1)), Ok::<u8, bool>(1));
    same([&1u8, &2u8], [1u8, 2u8]);
    same((&1u8, Box::new(2u16), String::from("a")), (1u8, 2u16, "a"));
    same(String::from("ab"), "ab");
    same("ab", String::from("ab"));
    same(7u64, Box::new(7u64));
    same(std::rc::Rc::new(7u64), 7u64);
    same(Cow::<'_, u32>::Owned(4), 4u32);
    let mut x = 9u8;
    same(&mut x, 9u8);
    let boxed: Box<[u8]> = vec![1u8, 2].into_boxed_slice();
    assert_eq!(boxed.encode(), vec![8, 1, 2]);
    let boxed_str: Box<str> = String::from("hi").into_boxed_str();
    assert_eq!(boxed_str.encode(), vec![8, b'h', b'i']);
}
