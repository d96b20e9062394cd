use parity_scale_codec::{
    Compact, CompactAs, CompactLen, CompactRef, Decode, Encode, EncodeAsRef, Error, HasCompact,
};

#[test]
fn compact_using_encoded_arrayvec_size() {
    Compact(u8::MAX).using_encoded(|_| {});
    Compact(u16::MAX).using_encoded(|_| {});
    Compact(u32::MAX).using_encoded(|_| {});
    Compact(u64::MAX).using_encoded(|_| {});
    Compact(u128::MAX).using_encoded(|_| {});

    CompactRef(&u8::MAX).using_encoded(|_| {});
    CompactRef(&u16::MAX).using_encoded(|_| {});
    CompactRef(&u32::MAX).using_encoded(|_| {});
    CompactRef(&u64::MAX).using_encoded(|_| {});
    CompactRef(&u128::MAX).using_encoded(|_| {});
}

#[test]
fn compact_u64_test() {
    for a in [
        u64::MAX,
        u64::MAX - 1,
        u64::MAX << 8,
        (u64::MAX << 8) - 1,
        u64::MAX << 16,
        (u64::MAX << 16) - 1,
    ]
    .iter()
    {
        let e = Compact::<u64>::encode(&Compact(*a));
        let d = Compact::<u64>::decode(&mut &e[..]).unwrap().0;
        assert_eq!(*a, d);
    }
}

#[test]
fn compact_u128_test() {
    for a in [u64::MAX as u128, (u64::MAX - 10) as u128, u128::MAX, u128::MAX - 10].iter() {
        let e = Compact::<u128>::encode(&Compact(*a));
        let d = Compact::<u128>::decode(&mut &e[..]).unwrap().0;
        assert_eq!(*a, d);
    }
}

#[derive(Debug, PartialEq)]
struct Wrapper(u8);

impl CompactAs for Wrapper {
    type As = u8;
    fn encode_as(&self) -> &u8 {
        &self.0
    }
    fn decode_from(x: u8) -> Result<Wrapper, Error> {
        Ok(Wrapper(x))
    }
}

impl From<Compact<Wrapper>> for Wrapper {
    fn from(x: Compact<Wrapper>) -> Wrapper {
        x.0
    }
}

struct WithCompact<T: HasCompact> {
    _data: T,
}

#[test]
fn compact_as_has_compact() {
    let _data = WithCompact { _data: Wrapper(1) };
}

#[test]
fn compact_as_encodes_as_its_integer() {
    for n in [0u8, 63, 64, 255] {
        let encoded = Compact(Wrapper(n)).encode();
        assert_eq!(encoded, Compact(n).encode());
        let decoded = <Compact<Wrapper>>::decode(&mut &encoded[..]).unwrap();
        let wrapper: Wrapper = decoded.into();
        assert_eq!(wrapper, Wrapper(n));
    }
    assert_eq!(Compact(Wrapper(64)).encode(), vec![0x01, 0x01]);
}

#[derive(Debug, PartialEq)]
struct Even(u16);

impl CompactAs for Even {
    type As = u16;
    fn encode_as(&self) -> &u16 {
        &self.0
    }
    fn decode_from(x: u16) -> Result<Even, Error> {
        if x % 2 == 0 {
            Ok(Even(x))
        } else {
            Err("odd".into())
        }
    }
}

impl From<Compact<Even>> for Even {
    fn from(x: Compact<Even>) -> Even {
        x.0
    }
}

#[test]
fn compact_as_refusal_is_a_decoding_error() {
    assert_eq!(<Compact<Even>>::decode(&mut &Compact(4u16).encode()[..]), Ok(Compact(Even(4))));
    assert_eq!(<Compact<Even>>::decode(&mut &Compact(5u16).encode()[..]).unwrap_err().what(), "odd");
}

#[test]
fn compact_conversions_and_encoding_through_a_reference() {
    let c: Compact<u32> = 5u32.into();
    assert_eq!(c, Compact(5));
    assert_eq!(Compact::from(&7u64), Compact(7u64));
    let back: u32 = Compact(9u32).into();
    assert_eq!(back, 9);
    let unit: () = Compact(()).into();
    assert_eq!(unit, ());
    let by_ref = <Compact<u64> as EncodeAsRef<'_, u64>>::RefType::from(&300u64);
    assert_eq!(by_ref.encode(), vec![0xb1, 0x04]);
    assert_eq!(by_ref.encode(), Compact(300u64).encode());
    let has: <u16 as HasCompact>::Type = 70u16.into();
    assert_eq!(has.encode(), vec![0x19, 0x01]);
    let plain: u16 = has.into();
    assert_eq!(plain, 70);
}

#[test]
fn compact_128_encoding_works() {
    let tests = [
        (0u128, 1usize),
        (63, 1),
        (64, 2),
        (16383, 2),
        (16384, 4),
        (1073741823, 4),
        (1073741824, 5),
        ((1 << 32) - 1, 5),
        (1 << 32, 6),
        (1 << 40, 7),
        (1 << 48, 8),
        ((1 << 56) - 1, 8),
        (1 << 56, 9),
        ((1 << 64) - 1, 9),
        (1 << 64, 10),
        (1 << 72, 11),
        (1 << 80, 12),
        (1 << 88, 13),
        (1 << 96, 14),
        (1 << 104, 15),
        (1 << 112, 16),
        ((1 << 120) - 1, 16),
        (1 << 120, 17),
        (u128::MAX, 17),
    ];
    for &(n, l) in &tests {
        let encoded = Compact(n).encode();
        assert_eq!(encoded.len(), l);
        assert_eq!(<Compact<u128> as CompactLen<u128>>::compact_len(&n), l);
        assert_eq!(<Compact<u128>>::decode(&mut &encoded[..]).unwrap().0, n);
    }
}

#[test]
fn compact_64_encoding_works() {
    let tests = [
        (0u64, 1usize),
        (63, 1),
        (64, 2),
        (16383, 2),
        (16384, 4),
        (1073741823, 4),
        (1073741824, 5),
        ((1 << 32) - 1, 5),
        (1 << 32, 6),
        (1 << 40, 7),
        (1 << 48, 8),
        ((1 << 56) - 1, 8),
        (1 << 56, 9),
        (u64::MAX, 9),
    ];
    for &(n, l) in &tests {
        let encoded = Compact(n).encode();
        assert_eq!(encoded.len(), l);
        assert_eq!(<Compact<u64> as CompactLen<u64>>::compact_len(&n), l);
        assert_eq!(<Compact<u64>>::decode(&mut &encoded[..]).unwrap().0, n);
    }
}

#[test]
fn compact_32_encoding_works() {
    let tests = [
        (0u32, 1usize),
        (63, 1),
        (64, 2),
        (16383, 2),
        (16384, 4),
        (1073741823, 4),
        (1073741824, 5),
        (u32::MAX, 5),
    ];
    for &(n, l) in &tests {
        let encoded = Compact(n).encode();
        assert_eq!(encoded.len(), l);
        assert_eq!(<Compact<u32> as CompactLen<u32>>::compact_len(&n), l);
        assert_eq!(<Compact<u32>>::decode(&mut &encoded[..]).unwrap().0, n);
    }
}

#[test]
fn compact_16_encoding_works() {
    let tests = [(0u16, 1usize), (63, 1), (64, 2), (16383, 2), (16384, 4), (65535, 4)];
    for &(n, l) in &tests {
        let encoded = Compact(n).encode();
        assert_eq!(encoded.len(), l);
        assert_eq!(<Compact<u16> as CompactLen<u16>>::compact_len(&n), l);
        assert_eq!(<Compact<u16>>::decode(&mut &encoded[..]).unwrap().0, n);
    }
    assert!(<Compact<u16>>::decode(&mut &Compact(65536u32).encode()[..]).is_err());
}

#[test]
fn compact_8_encoding_works() {
    let tests = [(0u8, 1usize), (63, 1), (64, 2), (255, 2)];
    for &(n, l) in &tests {
        let encoded = Compact(n).encode();
        assert_eq!(encoded.len(), l);
        assert_eq!(<Compact<u8> as CompactLen<u8>>::compact_len(&n), l);
        assert_eq!(<Compact<u8>>::decode(&mut &encoded[..]).unwrap().0, n);
    }
    assert!(<Compact<u8>>::decode(&mut &Compact(256u32).encode()[..]).is_err());
}

fn compact_hex(bytes: &[u8]) -> String {
    bytes.iter().map(|b| format!("{:02x}", b)).collect::<Vec<String>>().join(" ")
}

#[test]
fn compact_integers_encoded_as_expected() {
    let tests = [
        (0u64, "00"),
        (63, "fc"),
        (64, "01 01"),
        (16383, "fd ff"),
        (16384, "02 00 01 00"),
        (1073741823, "fe ff ff ff"),
        (1073741824, "03 00 00 00 40"),
        ((1 << 32) - 1, "03 ff ff ff ff"),
        (1 << 32, "07 00 00 00 00 01"),
        (1 << 40, "0b 00 00 00 00 00 01"),
        (1 << 48, "0f 00 00 00 00 00 00 01"),
        ((1 << 56) - 1, "0f ff ff ff ff ff ff ff"),
        (1 << 56, "13 00 00 00 00 00 00 00 01"),
        (u64::MAX, "13 ff ff ff ff ff ff ff ff"),
    ];
    for &(n, s) in &tests {
        let encoded = Compact(n).encode();
        assert_eq!(compact_hex(&encoded), s);
        assert_eq!(<Compact<u64>>::decode(&mut &encoded[..]).unwrap().0, n);

        if n <= u32::MAX as u64 {
            assert_eq!(<Compact<u32>>::decode(&mut &encoded[..]).unwrap().0, n as u32);
            let encoded = Compact(n as u32).encode();
            assert_eq!(compact_hex(&encoded), s);
            assert_eq!(<Compact<u64>>::decode(&mut &encoded[..]).unwrap().0, n);
        }
        if n <= u16::MAX as u64 {
            assert_eq!(<Compact<u16>>::decode(&mut &encoded[..]).unwrap().0, n as u16);
            let encoded = Compact(n as u16).encode();
            assert_eq!(compact_hex(&encoded), s);
            assert_eq!(<Compact<u64>>::decode(&mut &encoded[..]).unwrap().0, n);
        }
        if n <= u8::MAX as u64 {
            assert_eq!(<Compact<u8>>::decode(&mut &encoded[..]).unwrap().0, n as u8);
            let encoded = Compact(n as u8).encode();
            assert_eq!(compact_hex(&encoded), s);
            assert_eq!(<Compact<u64>>::decode(&mut &encoded[..]).unwrap().0, n);
        }
    }
}

#[test]
fn compact_as_8_encoding_works() {
    let tests = [(0u8, 1usize), (63, 1), (64, 2), (255, 2)];
    for &(n, l) in &tests {
        let compact: Compact<Wrapper> = Wrapper(n).into();
        let encoded = compact.encode();
        assert_eq!(encoded.len(), l);
        assert_eq!(<Compact<u8> as CompactLen<u8>>::compact_len(&n), l);
        let decoded = <Compact<Wrapper>>::decode(&mut &encoded[..]).unwrap();
        let wrapper: Wrapper = decoded.into();
        assert_eq!(wrapper, Wrapper(n));
    }
}
