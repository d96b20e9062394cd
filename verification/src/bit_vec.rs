//! Bit sequences, held as their number of bits and the store elements that hold the bits.
//!
//! A bit sequence is encoded as the compact encoding of its number of bits, followed by the
//! elements of its store, one after another.
use crate::codec::{Decode, DecodeLaws, Encode};
use crate::compact::decode_compact_max;
use crate::compact_spec::{
    compact_encoding, compact_parse, lemma_compact_encoding_len, lemma_compact_parse_canonical,
    lemma_compact_parse_encoding, lemma_compact_u128, write_compact,
};
use crate::error::Error;
use crate::io::{reads_fully, Input, Output};
use crate::sequence::{
    all_encodable, decode_vec_with_len, encode_slice_no_len, items_encoding, items_parse,
    lemma_items_parse_encoding,
};
use vstd::prelude::*;

verus! {

/// Equivalent of `BitStore::MAX_BITS` on 32bit machine.
pub const ARCH32BIT_BITSLICE_MAX_BITS: u32 = 0x1fff_ffff;

/// An element type of a bit store: an unsigned integer of a number of bits.
pub trait BitElement: Encode + DecodeLaws {
    /// The number of bits in an element.
    spec fn spec_bits() -> nat;

    /// The number of bits in an element.
    fn bits() -> (b: u32)
        ensures
            b == Self::spec_bits(),
            1 <= b <= 64,
    ;
}

impl BitElement for u8 {
    open spec fn spec_bits() -> nat {
        8
    }

    fn bits() -> (b: u32) {
        8
    }
}

impl BitElement for u16 {
    open spec fn spec_bits() -> nat {
        16
    }

    fn bits() -> (b: u32) {
        16
    }
}

impl BitElement for u32 {
    open spec fn spec_bits() -> nat {
        32
    }

    fn bits() -> (b: u32) {
        32
    }
}

impl BitElement for u64 {
    open spec fn spec_bits() -> nat {
        64
    }

    fn bits() -> (b: u32) {
        64
    }
}

/// The number of elements of `element_bits` bits that hold `bits` bits.
pub open spec fn spec_required_elements(bits: nat, element_bits: nat) -> nat
    recommends
        element_bits > 0,
{
    ((bits + element_bits - 1) / element_bits as int) as nat
}

/// Calculates the number of element `T` required to store given amount of `bits` as if they were
/// stored in `BitVec<_, T>`
///
/// Returns an error if the number of bits + number of bits in element overflow u32 capacity.
pub fn required_elements<T: BitElement>(bits: u32) -> (r: Result<u32, Error>)
    ensures
        r is Ok <==> bits + T::spec_bits() <= u32::MAX,
        r matches Ok(n) ==> n == spec_required_elements(bits as nat, T::spec_bits()),
        r matches Err(e) ==> e.description() == "Attempt to decode bitvec with too many bits"@,
{
    let element_bits = T::bits();
    match bits.checked_add(element_bits) {
        Some(sum) => Ok((sum - 1) / element_bits),
        None => Err(Error::new("Attempt to decode bitvec with too many bits")),
    }
}

/// The encoding of a bit sequence of `bits` bits held in `store`.
pub open spec fn bit_sequence_encoding<T: Encode>(bits: nat, store: Seq<T>) -> Seq<u8> {
    compact_encoding(bits) + items_encoding(store)
}

/// The length of an encoded bit sequence of elements `T` at the front of `bytes`, if `bytes`
/// starts with one: a number of bits up to `ARCH32BIT_BITSLICE_MAX_BITS`, then as many elements
/// as hold that many bits.
pub open spec fn bit_sequence_parse<T: BitElement>(bytes: Seq<u8>) -> Option<nat> {
    match compact_parse(bytes) {
        Some((b, k)) => if b <= ARCH32BIT_BITSLICE_MAX_BITS {
            match items_parse::<T>(
                bytes.skip(k as int),
                spec_required_elements(b, T::spec_bits()),
            ) {
                Some(m) => Some(k + m),
                None => None,
            }
        } else {
            None
        },
        None => None,
    }
}

/// Encodes a bit sequence of `bit_len` bits held in the elements of `store`.
pub fn encode_bit_slice<T: Encode, W: Output>(bit_len: usize, store: &[T], dest: &mut W)
    requires
        bit_len <= u32::MAX,
        all_encodable(store@),
        old(dest).written().len() + 5 + items_encoding(store@).len() <= usize::MAX,
    ensures
        final(dest).written() == old(dest).written() + bit_sequence_encoding(
            bit_len as nat,
            store@,
        ),
{
    proof {
        crate::compact_spec::lemma_compact_u32(bit_len as nat);
    }
    write_compact(dest, bit_len as u128);
    encode_slice_no_len(store, dest);
    assert(dest.written() =~= old(dest).written() + bit_sequence_encoding(bit_len as nat, store@));
}

/// A decoded bit sequence: its number of bits and the elements that hold them.
pub struct BitSequence<T> {
    /// The number of bits.
    pub bits: u32,
    /// The elements that hold the bits.
    pub store: Vec<T>,
}

/// Decodes a bit sequence held in elements `T`.
pub fn decode_bit_sequence<T: BitElement, I: Input>(input: &mut I) -> (r: Result<
    BitSequence<T>,
    Error,
>)
    ensures
        final(input).hooks_succeed() == old(input).hooks_succeed(),
        bit_sequence_parse::<T>(old(input).unread()) is Some ==> (r matches Ok(b) ==> ({
            let e = bit_sequence_encoding(b.bits as nat, b.store@);
            &&& b.bits <= ARCH32BIT_BITSLICE_MAX_BITS
            &&& b.store@.len() == spec_required_elements(b.bits as nat, T::spec_bits())
            &&& all_encodable(b.store@)
            &&& bit_sequence_parse::<T>(old(input).unread()) == Some(e.len())
            &&& e.len() <= old(input).unread().len()
            &&& old(input).unread().take(e.len() as int) == e
            &&& final(input).unread() == old(input).unread().skip(e.len() as int)
        })),
        r is Err ==> bit_sequence_parse::<T>(old(input).unread()) is None || !old(
            input,
        ).hooks_succeed(),
        reads_fully(old(input)) && compact_parse(old(input).unread()) is Some
            && ARCH32BIT_BITSLICE_MAX_BITS < compact_parse(
            old(input).unread(),
        ).unwrap().0 <= u32::MAX ==> (r matches Err(e) && e.description()
            == "Attempt to decode a bitvec with too many bits"@ && final(input).unread() == old(
            input,
        ).unread().skip(compact_parse(old(input).unread()).unwrap().1 as int)),
{
    let ghost s = old(input).unread();
    let bits = decode_compact_max(input, u32::MAX as u128)?;
    let ghost k = compact_encoding(bits as nat).len();
    if bits > ARCH32BIT_BITSLICE_MAX_BITS as u128 {
        return Err(Error::new("Attempt to decode a bitvec with too many bits"));
    }
    let bits = bits as u32;
    let _element_bits = T::bits();
    let required = required_elements::<T>(bits)?;
    let store = decode_vec_with_len::<T, I>(input, required as usize)?;
    proof {
        if bit_sequence_parse::<T>(s) is Some {
            let m = items_encoding(store@).len();
            assert(s.take((k + m) as int) =~= s.take(k as int) + s.skip(k as int).take(m as int));
            assert(input.unread() =~= s.skip((k + m) as int));
        }
    }
    Ok(BitSequence { bits, store })
}

/// Decoding the encoding of a bit sequence gives back its number of bits and its elements.
pub proof fn lemma_bit_sequence_roundtrip<T: BitElement>(bits: nat, store: Seq<T>, rest: Seq<u8>)
    requires
        bits <= ARCH32BIT_BITSLICE_MAX_BITS,
        store.len() == spec_required_elements(bits, T::spec_bits()),
        all_encodable(store),
    ensures
        bit_sequence_parse::<T>(bit_sequence_encoding(bits, store) + rest) == Some(
            bit_sequence_encoding(bits, store).len(),
        ),
{
    let c = compact_encoding(bits);
    let body = items_encoding(store) + rest;
    assert(bit_sequence_encoding(bits, store) + rest =~= c + body);
    lemma_compact_u128(bits);
    lemma_compact_parse_encoding(bits, body);
    assert((c + body).skip(c.len() as int) =~= body);
    lemma_items_parse_encoding::<T>(store, rest);
}

} // verus!
