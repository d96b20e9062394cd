use parity_scale_codec::{Decode, Encode, WrapperTypeDecode, WrapperTypeEncode};
use std::rc::Rc;
use std::sync::Arc;

fn encodes_as_target<W: WrapperTypeEncode + Encode>(w: W) -> Vec<u8>
where
    W::Target: Encode,
{
    let target = (*w).encode();
    assert_eq!(w.encode(), target);
    target
}

fn decodes_as_wrapped<W: WrapperTypeDecode + Decode>(bytes: &[u8]) -> W
where
    W::Wrapped: Decode,
{
    let inner = W::Wrapped::decode(&mut &bytes[..]).unwrap();
    let outer = W::decode(&mut &bytes[..]).unwrap();
    let _: W = inner.into();
    outer
}

#[test]
fn wrapper_types_encode_as_what_they_wrap() {
    assert_eq!(encodes_as_target(Box::new(7u32)), vec![7, 0, 0, 0]);
    assert_eq!(encodes_as_target(&5u16), vec![5, 0]);
    assert_eq!(encodes_as_target(Rc::new(true)), vec![1]);
    assert_eq!(encodes_as_target(Arc::new(1u8)), vec![1]);
    assert_eq!(encodes_as_target(String::from("ab")), vec![8, b'a', b'b']);
}

#[test]
fn wrapper_types_decode_as_what_they_wrap() {
    let b: Box<u32> = decodes_as_wrapped(&[1, 0, 0, 0]);
    assert_eq!(*b, 1);
    let r: Rc<u16> = decodes_as_wrapped(&[2, 1]);
    assert_eq!(*r, 0x0102);
    let a: Arc<u8> = decodes_as_wrapped(&[9]);
    assert_eq!(*a, 9);
}
