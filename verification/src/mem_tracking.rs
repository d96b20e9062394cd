//! Types whose decoding reports the memory it allocates to the input.
use crate::codec::Decode;
use crate::compact::{Compact, CompactAs, CompactValue};
use vstd::prelude::*;

verus! {

/// Marker trait used for identifying types that call the mem tracking hooks exposed by `Input`
/// while decoding.
pub trait DecodeWithMemTracking: Decode {

}

impl DecodeWithMemTracking for Compact<()> {

}

impl DecodeWithMemTracking for Compact<u8> {

}

impl DecodeWithMemTracking for Compact<u16> {

}

impl DecodeWithMemTracking for Compact<u32> {

}

impl DecodeWithMemTracking for Compact<u64> {

}

impl DecodeWithMemTracking for Compact<u128> {

}

impl<T: CompactAs> DecodeWithMemTracking for Compact<T> where T::As: CompactValue {

}

impl DecodeWithMemTracking for () {

}

impl<A: DecodeWithMemTracking> DecodeWithMemTracking for (A,) {

}

impl<A: DecodeWithMemTracking, B: DecodeWithMemTracking> DecodeWithMemTracking for (A, B) {

}

impl<
    A: DecodeWithMemTracking,
    B: DecodeWithMemTracking,
    C: DecodeWithMemTracking,
> DecodeWithMemTracking for (A, B, C) {

}

} // verus!
