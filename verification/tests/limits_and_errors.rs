use parity_scale_codec::{
    compact_encode_len_to, decode_vec_with_len, decode_bit_sequence, required_elements, Compact, CountedInput, Count,
    Decode, DecodeLimit, DecodeMemLimit, Encode, Input, MemLimit, OptionBool,
    DECODE_ALL_ERR_MSG, DEPTH_LIMIT_ERR_MSG, MEM_LIMIT_ERR_MSG,
};

#[test]
fn depth_limit_refuses_exactly_past_the_nesting() {
    let boxed = Box::new(Box::new(7u8)).encode();
    let refused = <Box<Box<u8>>>::decode_with_depth_limit(1, &mut &boxed[..]).unwrap_err();
    assert_eq!(refused.what(), DEPTH_LIMIT_ERR_MSG);
    assert_eq!(<Box<Box<u8>>>::decode_with_depth_limit(2, &mut &boxed[..]), Ok(Box::new(Box::new(7u8))));

    let nested = vec![vec![1u8], vec![]].encode();
    assert_eq!(<Vec<Vec<u8>>>::decode_with_depth_limit(1, &mut &nested[..]).unwrap_err().what(), DEPTH_LIMIT_ERR_MSG);
    assert_eq!(<Vec<Vec<u8>>>::decode_with_depth_limit(2, &mut &nested[..]), Ok(vec![vec![1u8], vec![]]));

    assert_eq!(u32::decode_with_depth_limit(0, &mut &7u32.encode()[..]), Ok(7));
}

#[test]
fn decode_all_with_depth_limit_refusals() {
    let mut bytes = Box::new(3u16).encode();
    assert_eq!(<Box<u16>>::decode_all_with_depth_limit(0, &mut &bytes[..]).unwrap_err().what(), DEPTH_LIMIT_ERR_MSG);
    bytes.push(0);
    assert_eq!(<Box<u16>>::decode_all_with_depth_limit(1, &mut &bytes[..]).unwrap_err().what(), DECODE_ALL_ERR_MSG);
}

#[test]
fn memory_limit_refuses_exactly_past_the_budget() {
    let v = vec![1u32; 10];
    let bytes = v.encode();
    let needed = std::mem::size_of::<Vec<u32>>() + 10 * std::mem::size_of::<u32>();
    let refused = <Vec<u32>>::decode_with_mem_limit(MemLimit::from(needed - 1), &mut &bytes[..]);
    assert_eq!(refused.unwrap_err().what(), MEM_LIMIT_ERR_MSG);
    assert_eq!(<Vec<u32>>::decode_with_mem_limit(MemLimit::from(needed), &mut &bytes[..]), Ok(v));
    assert_eq!(u64::decode_with_mem_limit(MemLimit::from(0), &mut &5u64.encode()[..]), Ok(5));
}

#[test]
fn refused_tags_read_one_byte() {
    let mut input: &[u8] = &[2, 9];
    assert_eq!(<Result<u8, u8>>::decode(&mut input).unwrap_err().what(), "unexpected first byte decoding Result");
    assert_eq!(input, &[9]);
    let mut input: &[u8] = &[3, 9];
    assert_eq!(OptionBool::decode(&mut input).unwrap_err().what(), "unexpected first byte decoding OptionBool");
    assert_eq!(input, &[9]);
    assert_eq!(OptionBool::decode(&mut &[][..]).unwrap_err().what(), "Not enough data to fill buffer");
}

#[test]
fn short_slice_read_changes_nothing() {
    let mut input: &[u8] = &[1, 2];
    let mut buf = [7u8; 3];
    assert_eq!(input.read(&mut buf).unwrap_err().what(), "Not enough data to fill buffer");
    assert_eq!(input, &[1, 2]);
    assert_eq!(buf, [7, 7, 7]);
}

#[test]
fn too_many_elements_or_bits() {
    let mut out: Vec<u8> = Vec::new();
    let refused = compact_encode_len_to(&mut out, u32::MAX as usize + 1).unwrap_err();
    assert_eq!(refused.what(), "Attempted to serialize a collection with too many elements.");
    assert!(out.is_empty());
    assert_eq!(required_elements::<u8>(u32::MAX).unwrap_err().what(), "Attempt to decode bitvec with too many bits");
    let prefix = Compact(0x2000_0000u32).encode();
    let mut bytes = prefix.clone();
    bytes.extend_from_slice(&[0xff; 4]);
    let mut input = &bytes[..];
    let refused = decode_bit_sequence::<u8, _>(&mut input).err().unwrap();
    assert_eq!(refused.what(), "Attempt to decode a bitvec with too many bits");
    assert_eq!(input, &[0xff; 4]);
}

#[test]
fn counter_counts_all_bytes_read() {
    let mut bytes: &[u8] = &[1, 2, 3, 4, 5];
    let mut counted = CountedInput::new(&mut bytes);
    assert_eq!(counted.remaining_len(), Ok(Some(5)));
    let mut two = [0u8; 2];
    counted.read(&mut two).unwrap();
    assert_eq!(counted.read_byte(), Ok(3));
    counted.descend_ref().unwrap();
    counted.ascend_ref();
    let mut rest = [0u8; 2];
    counted.read(&mut rest).unwrap();
    assert_eq!(counted.read(&mut two).unwrap_err().what(), "Not enough data to fill buffer");
    assert_eq!(counted.count(), Count::Exact(5));
}

#[test]
fn known_short_input_is_refused_before_reading() {
    let mut input: &[u8] = &[1, 2, 3, 4, 5];
    let refused = decode_vec_with_len::<u32, _>(&mut input, 2).unwrap_err();
    assert_eq!(refused.what(), "Not enough data to decode vector");
    assert_eq!(input, &[1, 2, 3, 4, 5]);
    let mut input: &[u8] = &[1, 0, 0, 0, 2, 0, 0, 0];
    assert_eq!(decode_vec_with_len::<u32, _>(&mut input, 2), Ok(vec![1, 2]));
    let mut short: &[u8] = &[12, 0];
    assert_eq!(<Vec<u16>>::decode(&mut short).unwrap_err().what(), "Not enough data to decode vector");
}
