use parity_scale_codec::{Compact, DecodeMemLimit, Encode};
use std::mem;

#[test]
fn decode_with_mem_limit_oom_detected() {
    let bytes = (Compact(1024 as u32), vec![0u32; 1024]).encode();
    let mut input = &bytes[..];

    // Limit is one too small.
    let limit = 4096 + mem::size_of::<Vec<u32>>() - 1;
    let result = <Vec<u32>>::decode_with_mem_limit((limit as usize).into(), &mut input);
    assert_eq!(result, Err("Out of memory when decoding".into()));

    // Now it works:
    let limit = limit + 1;
    let result = <Vec<u32>>::decode_with_mem_limit((limit as usize).into(), &mut input);
    assert_eq!(result, Ok(vec![0u32; 1024]));
}

#[test]
fn decode_with_mem_limit_tuple_oom_detected() {
    // First entry is 1 KiB, second is 4 KiB.
    let data = (vec![0u8; 1024], vec![0u32; 1024]);
    let bytes = data.encode();

    // Limit is one too small.
    let limit = 1024 + 4096 + 2 * mem::size_of::<Vec<u32>>() - 1;
    let result =
        <(Vec<u8>, Vec<u32>)>::decode_with_mem_limit((limit as usize).into(), &mut &bytes[..]);
    assert_eq!(result, Err("Out of memory when decoding".into()));

    // Now it works:
    let limit = limit + 1;
    let result =
        <(Vec<u8>, Vec<u32>)>::decode_with_mem_limit((limit as usize).into(), &mut &bytes[..]);
    assert_eq!(result, Ok(data));
}
