use parity_scale_codec::{Decode, DecodeAll, DecodeLimit, Encode, Error, Input, Output};

#[test]
fn decoding_documented_examples() {
    let array = [0u8, 1u8, 2u8, 3u8];
    let value: u32 = 50462976;

    assert_eq!(array.encode(), vec![0, 1, 2, 3]);
    assert_eq!(value.encode(), vec![0, 1, 2, 3]);
    assert_eq!(u32::decode(&mut &array.encode()[..]), Ok(50462976));
    assert_eq!(u16::decode(&mut &array.encode()[..]), Ok(256));
    assert_eq!(
        u16::decode_all(&mut &array.encode()[..]).unwrap_err().what(),
        "Input buffer has still data left after decoding!"
    );
    assert_eq!(
        u64::decode(&mut &array.encode()[..]).unwrap_err().what(),
        "Not enough data to fill buffer"
    );
}

#[test]
fn decode_all_consumes_everything() {
    let encoded = vec![1u16, 2, 3].encode();
    assert_eq!(<Vec<u16>>::decode_all(&mut &encoded[..]), Ok(vec![1, 2, 3]));
    let mut longer = encoded.clone();
    longer.push(0);
    assert!(<Vec<u16>>::decode_all(&mut &longer[..]).is_err());
    assert!(<Vec<u16>>::decode_all(&mut &encoded[..encoded.len() - 1]).is_err());
}

#[derive(Debug, PartialEq)]
enum Example {
    First,
    Second(Box<Example>),
}

impl Encode for Example {
    fn encode_to<W: Output>(&self, dest: &mut W) {
        match self {
            Example::First => dest.push_byte(0),
            Example::Second(inner) => {
                dest.push_byte(1);
                inner.encode_to(dest);
            },
        }
    }
}

impl Decode for Example {
    fn decode<I: Input>(input: &mut I) -> Result<Self, Error> {
        match input.read_byte().map_err(|e| e.chain("Could not decode `Example`, failed to read variant byte"))? {
            0 => Ok(Example::First),
            1 => Ok(Example::Second(
                <Box<Example>>::decode(input).map_err(|e| e.chain("Could not decode `Example::Second.0`"))?,
            )),
            _ => Err("Could not decode `Example`, variant doesn't exist".into()),
        }
    }
}

fn nested(depth: usize) -> Example {
    let mut v = Example::First;
    for _ in 0..depth {
        v = Example::Second(Box::new(v));
    }
    v
}

#[test]
fn depth_limit_documented_example() {
    let bytes = vec![1, 1, 1, 1, 1, 0];
    assert_eq!(Example::decode(&mut &bytes[..]), Ok(nested(5)));
    assert_eq!(Example::decode_with_depth_limit(10, &mut &bytes[..]), Ok(nested(5)));
    assert_eq!(
        Example::decode_with_depth_limit(3, &mut &bytes[..]).unwrap_err().what(),
        "Maximum recursion depth reached when decoding"
    );
}

#[test]
fn depth_limit_boundary() {
    let bytes = vec![1, 1, 1, 1, 1, 0];
    assert_eq!(Example::decode_with_depth_limit(5, &mut &bytes[..]), Ok(nested(5)));
    assert!(Example::decode_with_depth_limit(4, &mut &bytes[..]).is_err());
    assert_eq!(Example::decode_all_with_depth_limit(5, &mut &bytes[..]), Ok(nested(5)));
    let mut longer = bytes.clone();
    longer.push(7);
    assert_eq!(
        Example::decode_all_with_depth_limit(5, &mut &longer[..]).unwrap_err().what(),
        "Input buffer has still data left after decoding!"
    );
    assert_eq!(u32::decode_with_depth_limit(0, &mut &[1u8, 0, 0, 0][..]), Ok(1));
}

#[test]
fn unknown_parts_hint_nothing() {
    assert_eq!(Example::First.size_hint(), 0);
}
