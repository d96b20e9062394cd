use parity_scale_codec::{Decode, Encode, EncodeAppend, EncodeLike, Error, Input, Output};
use std::collections::VecDeque;

const TEST_VALUE: u32 = 1_000_000;

#[test]
fn vec_encode_append_works() {
    let encoded = (0..TEST_VALUE).fold(Vec::new(), |encoded, v| {
        <Vec<u32> as EncodeAppend>::append_or_new(encoded, &[&v]).unwrap()
    });

    let decoded = Vec::<u32>::decode(&mut &encoded[..]).unwrap();
    assert_eq!(decoded, (0..TEST_VALUE).collect::<Vec<_>>());
}

#[test]
fn vec_encode_append_multiple_items_works() {
    let encoded = (0..TEST_VALUE).fold(Vec::new(), |encoded, v| {
        <Vec<u32> as EncodeAppend>::append_or_new(encoded, &[v, v, v, v]).unwrap()
    });

    let decoded = Vec::<u32>::decode(&mut &encoded[..]).unwrap();
    let expected = (0..TEST_VALUE).fold(Vec::new(), |mut vec, i| {
        vec.append(&mut vec![i, i, i, i]);
        vec
    });
    assert_eq!(decoded, expected);
}

#[test]
fn vecdeque_encode_append_works() {
    let encoded = (0..TEST_VALUE).fold(Vec::new(), |encoded, v| {
        <VecDeque<u32> as EncodeAppend>::append_or_new(encoded, &[&v]).unwrap()
    });

    let decoded = VecDeque::<u32>::decode(&mut &encoded[..]).unwrap();
    assert_eq!(decoded, (0..TEST_VALUE).collect::<Vec<_>>());
}

#[test]
fn vecdeque_encode_append_multiple_items_works() {
    let encoded = (0..TEST_VALUE).fold(Vec::new(), |encoded, v| {
        <VecDeque<u32> as EncodeAppend>::append_or_new(encoded, &[v, v, v, v]).unwrap()
    });

    let decoded = VecDeque::<u32>::decode(&mut &encoded[..]).unwrap();
    let expected = (0..TEST_VALUE).fold(Vec::new(), |mut vec, i| {
        vec.append(&mut vec![i, i, i, i]);
        vec
    });
    assert_eq!(decoded, expected);
}

#[test]
fn append_non_copyable() {
    #[derive(Eq, PartialEq, Debug)]
    struct NoCopy {
        data: u32,
    }

    impl EncodeLike for NoCopy {}

    impl Encode for NoCopy {
        fn encode_to<W: Output>(&self, dest: &mut W) {
            self.data.encode_to(dest)
        }
    }

    impl Decode for NoCopy {
        fn decode<I: Input>(input: &mut I) -> Result<Self, Error> {
            u32::decode(input).map(|data| Self { data })
        }
    }

    let append = NoCopy { data: 100 };
    let data = Vec::new();
    let encoded = <Vec<NoCopy> as EncodeAppend>::append_or_new(data, &[&append]).unwrap();

    let decoded = <Vec<NoCopy>>::decode(&mut &encoded[..]).unwrap();
    assert_eq!(vec![append], decoded);
}

#[test]
fn vec_encode_like_append_works() {
    let encoded = (0..TEST_VALUE).fold(Vec::new(), |encoded, v| {
        <Vec<u32> as EncodeAppend>::append_or_new(encoded, &[Box::new(v as u32)]).unwrap()
    });

    let decoded = Vec::<u32>::decode(&mut &encoded[..]).unwrap();
    assert_eq!(decoded, (0..TEST_VALUE).collect::<Vec<_>>());
}

#[test]
fn appending_items_of_another_type_that_encode_alike() {
    let start = vec![1u32, 2].encode();
    let appended =
        <Vec<u32> as EncodeAppend>::append_or_new(start, &[Box::new(3u32), Box::new(4u32)]).unwrap();
    assert_eq!(appended, vec![1u32, 2, 3, 4].encode());

    let words = vec![String::from("a")].encode();
    let appended = <Vec<String> as EncodeAppend>::append_or_new(words, &["bc", "d"]).unwrap();
    assert_eq!(
        Vec::<String>::decode(&mut &appended[..]).unwrap(),
        vec![String::from("a"), String::from("bc"), String::from("d")]
    );
}
