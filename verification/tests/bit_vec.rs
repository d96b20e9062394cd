use bitvec::boxed::BitBox;
use bitvec::order::{BitOrder, Lsb0, Msb0};
use bitvec::slice::BitSlice;
use bitvec::store::BitStore;
use bitvec::vec::BitVec;
use parity_scale_codec::{
    decode_bit_sequence, encode_bit_slice, required_elements, BitElement, Encode,
    MAX_PREALLOCATION,
};

fn encode_bits<O: BitOrder, T: BitStore + Encode>(slice: &BitSlice<O, T>) -> Vec<u8> {
    let mut out = Vec::new();
    encode_bit_slice(slice.len(), slice.as_slice(), &mut out);
    out
}

fn decode_bits<O: BitOrder, T: BitStore + BitElement>(encoded: &[u8]) -> BitVec<O, T> {
    let seq = decode_bit_sequence::<T, _>(&mut &encoded[..]).unwrap();
    let mut result = BitVec::<O, T>::try_from_vec(seq.store).unwrap();
    assert!(seq.bits as usize <= result.len());
    result.truncate(seq.bits as usize);
    result
}

fn from_bits<O: BitOrder, T: BitStore>(bits: &[u8]) -> BitVec<O, T> {
    let mut v = BitVec::<O, T>::new();
    for b in bits {
        v.push(*b == 1);
    }
    v
}

fn repeat<O: BitOrder, T: BitStore>(bit: u8, n: usize) -> BitVec<O, T> {
    let mut v = BitVec::<O, T>::new();
    for _ in 0..n {
        v.push(bit == 1);
    }
    v
}

fn test_data<T: BitStore>() -> Vec<BitVec<Msb0, T>> {
    vec![
        BitVec::<Msb0, T>::new(),
        from_bits(&[0]),
        from_bits(&[1]),
        from_bits(&[0, 0]),
        from_bits(&[1, 0]),
        from_bits(&[0, 1]),
        from_bits(&[1, 1]),
        from_bits(&[1, 0, 1]),
        from_bits(&[0, 1, 0, 1, 0, 1, 1]),
        from_bits(&[0, 1, 0, 1, 0, 1, 1, 0]),
        from_bits(&[1, 1, 0, 1, 0, 1, 1, 0, 1]),
        from_bits(&[1, 0, 1, 0, 1, 1, 0, 0, 1, 0, 1, 0, 1, 1, 0]),
        from_bits(&[0, 1, 0, 1, 0, 1, 1, 0, 0, 1, 0, 1, 0, 1, 1, 0]),
        from_bits(&[0, 1, 0, 1, 0, 1, 1, 0, 0, 1, 0, 1, 0, 1, 1, 0, 0]),
        repeat(0, 15),
        repeat(1, 16),
        repeat(0, 17),
        repeat(1, 31),
        repeat(0, 32),
        repeat(1, 33),
        repeat(0, 63),
        repeat(1, 64),
        repeat(0, 65),
        repeat(1, MAX_PREALLOCATION * 8 + 1),
        repeat(0, MAX_PREALLOCATION * 9),
        repeat(1, MAX_PREALLOCATION * 32 + 1),
        repeat(0, MAX_PREALLOCATION * 33),
    ]
}

#[test]
fn required_items_test() {
    assert_eq!(Ok(0), required_elements::<u8>(0));
    assert_eq!(Ok(1), required_elements::<u8>(1));
    assert_eq!(Ok(1), required_elements::<u8>(7));
    assert_eq!(Ok(1), required_elements::<u8>(8));
    assert_eq!(Ok(2), required_elements::<u8>(9));

    assert_eq!(Ok(0), required_elements::<u16>(0));
    assert_eq!(Ok(1), required_elements::<u16>(1));
    assert_eq!(Ok(1), required_elements::<u16>(15));
    assert_eq!(Ok(1), required_elements::<u16>(16));
    assert_eq!(Ok(2), required_elements::<u16>(17));

    assert_eq!(Ok(0), required_elements::<u32>(0));
    assert_eq!(Ok(1), required_elements::<u32>(1));
    assert_eq!(Ok(1), required_elements::<u32>(31));
    assert_eq!(Ok(1), required_elements::<u32>(32));
    assert_eq!(Ok(2), required_elements::<u32>(33));

    assert_eq!(Ok(0), required_elements::<u64>(0));
    assert_eq!(Ok(1), required_elements::<u64>(1));
    assert_eq!(Ok(1), required_elements::<u64>(63));
    assert_eq!(Ok(1), required_elements::<u64>(64));
    assert_eq!(Ok(2), required_elements::<u64>(65));
}

#[test]
fn bit_vec_bitvec_u8() {
    for v in &test_data::<u8>() {
        let encoded = encode_bits(v.as_bitslice());
        assert_eq!(*v, decode_bits::<Msb0, u8>(&encoded));
    }
}

#[test]
fn bitvec_u16() {
    for v in &test_data::<u16>() {
        let encoded = encode_bits(v.as_bitslice());
        assert_eq!(*v, decode_bits::<Msb0, u16>(&encoded));
    }
}

#[test]
fn bitvec_u32() {
    for v in &test_data::<u32>() {
        let encoded = encode_bits(v.as_bitslice());
        assert_eq!(*v, decode_bits::<Msb0, u32>(&encoded));
    }
}

#[test]
fn bitvec_u64() {
    for v in &test_data::<u64>() {
        let encoded = encode_bits(v.as_bitslice());
        assert_eq!(*v, decode_bits::<Msb0, u64>(&encoded));
    }
}

#[test]
fn bitslice() {
    let data: &[u8] = &[0x69];
    let slice = BitSlice::<Msb0, u8>::from_slice(data).unwrap();
    let encoded = encode_bits(slice);
    let decoded = decode_bits::<Msb0, u8>(&encoded);
    assert_eq!(slice, decoded.as_bitslice());
}

#[test]
fn bitbox() {
    let data: &[u8] = &[5, 10];
    let slice = BitSlice::<Msb0, u8>::from_slice(data).unwrap();
    let bb = BitBox::<Msb0, u8>::from_bitslice(slice);
    let encoded = encode_bits(bb.as_bitslice());
    let decoded = BitBox::<Msb0, u8>::from_bitslice(decode_bits::<Msb0, u8>(&encoded).as_bitslice());
    assert_eq!(bb, decoded);
}

#[test]
fn bitvec_bitvec_u8() {
    let vecs: Vec<BitVec<Lsb0, u8>> = vec![
        BitVec::new(),
        from_bits(&[0]),
        from_bits(&[1]),
        from_bits(&[0, 0]),
        from_bits(&[1, 0]),
        from_bits(&[0, 1]),
        from_bits(&[1, 1]),
        from_bits(&[0, 1, 0]),
        from_bits(&[0, 1, 0, 1, 1, 1, 1, 0, 0, 1, 0, 1, 0, 1]),
    ];

    for v in &vecs {
        let encoded = encode_bits(v.as_bitslice());
        assert_eq!(*v, decode_bits::<Lsb0, u8>(&encoded));
    }
}
