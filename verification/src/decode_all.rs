//! Decoding a value that must take up all of the input.
use crate::codec::Decode;
use crate::error::Error;
use vstd::prelude::*;

verus! {

/// The description of the error for input left over after decoding.
pub const DECODE_ALL_ERR_MSG: &'static str = "Input buffer has still data left after decoding!";

/// Extension trait to [`Decode`] that ensures that the given input data is consumed completely
/// while decoding.
pub trait DecodeAll: Sized {
    /// Whether `bytes` is exactly the encoding of one value.
    spec fn spec_decodes_all(bytes: Seq<u8>) -> bool;

    /// Whether a value's encoding is at the front of `bytes`.
    spec fn spec_parses(bytes: Seq<u8>) -> bool;

    /// Decode `Self` and consume all of the given input data.
    ///
    /// If not all data is consumed, an error is returned.
    fn decode_all(input: &mut &[u8]) -> (r: Result<Self, Error>)
        ensures
            Self::spec_decodes_all(old(input)@) ==> r is Ok,
            Self::spec_parses(old(input)@) ==> (r is Ok <==> Self::spec_decodes_all(old(input)@)),
    ;
}

impl<T: Decode> DecodeAll for T {
    open spec fn spec_decodes_all(bytes: Seq<u8>) -> bool {
        T::spec_parse(bytes) == Some(bytes.len())
    }

    open spec fn spec_parses(bytes: Seq<u8>) -> bool {
        T::spec_parse(bytes) is Some
    }

    fn decode_all(input: &mut &[u8]) -> (r: Result<T, Error>)
        ensures
            T::spec_parse(old(input)@) is Some ==> (r matches Ok(v) ==> v.spec_encode() == old(
                input,
            )@ && (*final(input))@.len() == 0),
            r matches Err(e) ==> (T::spec_parse(old(input)@) is Some ==> e.description()
                == DECODE_ALL_ERR_MSG@),
    {
        let res = T::decode(input)?;
        if input.len() == 0 {
            assert(old(input)@.take(old(input)@.len() as int) =~= old(input)@);
            Ok(res)
        } else {
            Err(Error::new(DECODE_ALL_ERR_MSG))
        }
    }
}

} // verus!
