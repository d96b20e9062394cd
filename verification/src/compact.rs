//! Compact encoding of unsigned integers: `Compact<T>` and `CompactRef<'a, T>`.
use crate::codec::{decodes_to, lemma_no_hooks, mem_alignment, Decode, DecodeLaws, Encode, EncodeAsRef};
use crate::compact_spec::{
    byte_len, compact_encoding, compact_mode_len, compact_parse, lemma_compact_encoding_len, lemma_compact_parse_canonical,
    lemma_compact_encoding_injective, lemma_compact_parse_encoding, lemma_compact_u128, read_compact,
    write_compact,
};
use crate::error::Error;
use crate::io::{reads_fully, Input, Output};
use vstd::prelude::*;

verus! {

/// Something that can return the compact encoded length for a given value.
pub trait CompactLen<T> {
    /// Returns the compact encoded length for the given value.
    fn compact_len(val: &T) -> usize;
}

/// Compact-encoded variant of T. This is more space-efficient but less compute-efficient.
#[derive(Eq, PartialEq, Clone, Copy, Ord, PartialOrd, Debug)]
pub struct Compact<T>(pub T);

/// Compact-encoded variant of &'a T. This is more space-efficient but less compute-efficient.
#[derive(Eq, PartialEq, Clone, Copy, Debug)]
pub struct CompactRef<'a, T>(pub &'a T);

impl<T> From<T> for Compact<T> {
    fn from(x: T) -> (r: Compact<T>) {
        Compact(x)
    }
}

impl<T> vstd::std_specs::convert::FromSpecImpl<T> for Compact<T> {
    open spec fn obeys_from_spec() -> bool {
        true
    }

    open spec fn from_spec(v: T) -> Compact<T> {
        Compact(v)
    }
}

impl<'a, T: Copy> From<&'a T> for Compact<T> {
    fn from(x: &'a T) -> (r: Compact<T>) {
        Compact(*x)
    }
}

impl<'a, T: Copy> vstd::std_specs::convert::FromSpecImpl<&'a T> for Compact<T> {
    open spec fn obeys_from_spec() -> bool {
        true
    }

    open spec fn from_spec(v: &'a T) -> Compact<T> {
        Compact(*v)
    }
}

impl<'a, T> From<&'a T> for CompactRef<'a, T> {
    fn from(x: &'a T) -> (r: CompactRef<'a, T>) {
        CompactRef(x)
    }
}

impl<'a, T> vstd::std_specs::convert::FromSpecImpl<&'a T> for CompactRef<'a, T> {
    open spec fn obeys_from_spec() -> bool {
        true
    }

    open spec fn from_spec(v: &'a T) -> CompactRef<'a, T> {
        CompactRef(v)
    }
}

impl From<Compact<u8>> for u8 {
    fn from(x: Compact<u8>) -> (r: u8) {
        x.0
    }
}

impl vstd::std_specs::convert::FromSpecImpl<Compact<u8>> for u8 {
    open spec fn obeys_from_spec() -> bool {
        true
    }

    open spec fn from_spec(v: Compact<u8>) -> u8 {
        v.0
    }
}

impl From<Compact<u16>> for u16 {
    fn from(x: Compact<u16>) -> (r: u16) {
        x.0
    }
}

impl vstd::std_specs::convert::FromSpecImpl<Compact<u16>> for u16 {
    open spec fn obeys_from_spec() -> bool {
        true
    }

    open spec fn from_spec(v: Compact<u16>) -> u16 {
        v.0
    }
}

impl From<Compact<u32>> for u32 {
    fn from(x: Compact<u32>) -> (r: u32) {
        x.0
    }
}

impl vstd::std_specs::convert::FromSpecImpl<Compact<u32>> for u32 {
    open spec fn obeys_from_spec() -> bool {
        true
    }

    open spec fn from_spec(v: Compact<u32>) -> u32 {
        v.0
    }
}

impl From<Compact<u64>> for u64 {
    fn from(x: Compact<u64>) -> (r: u64) {
        x.0
    }
}

impl vstd::std_specs::convert::FromSpecImpl<Compact<u64>> for u64 {
    open spec fn obeys_from_spec() -> bool {
        true
    }

    open spec fn from_spec(v: Compact<u64>) -> u64 {
        v.0
    }
}

impl From<Compact<u128>> for u128 {
    fn from(x: Compact<u128>) -> (r: u128) {
        x.0
    }
}

impl vstd::std_specs::convert::FromSpecImpl<Compact<u128>> for u128 {
    open spec fn obeys_from_spec() -> bool {
        true
    }

    open spec fn from_spec(v: Compact<u128>) -> u128 {
        v.0
    }
}

impl From<Compact<()>> for () {
    fn from(x: Compact<()>) -> (r: ()) {
        x.0
    }
}

impl vstd::std_specs::convert::FromSpecImpl<Compact<()>> for () {
    open spec fn obeys_from_spec() -> bool {
        true
    }

    open spec fn from_spec(v: Compact<()>) -> () {
        v.0
    }
}

/// The compact encoding of a value is taken through a reference to it.
impl<'a, T: 'a> EncodeAsRef<'a, T> for Compact<T> where CompactRef<'a, T>: Encode + From<&'a T> {
    type RefType = CompactRef<'a, T>;
}

/// Allow foreign structs to be wrapped in `Compact`: a type that is compactly encoded as
/// another.
pub trait CompactAs: From<Compact<Self>> {
    /// A compact-encodable type that should be used as the encoding.
    type As;

    /// The value this one is encoded as.
    ///
    /// A type implemented outside verified code keeps this default, of which nothing is known.
    closed spec fn spec_encode_as(&self) -> Self::As {
        vstd::pervasive::arbitrary()
    }

    /// Whether `decode_from` accepts `x`.
    ///
    /// The default is `false`: for a type that keeps it, the contract of `decode_from` says that
    /// it refuses every value, so a type implemented outside verified code is assumed to accept
    /// nothing.
    open spec fn spec_accepts(x: Self::As) -> bool {
        false
    }

    /// Returns the compact-encodable type.
    fn encode_as(&self) -> (r: &Self::As)
        ensures
            *r == self.spec_encode_as(),
    ;

    /// Decode `Self` from the compact-decoded type.
    fn decode_from(x: Self::As) -> (r: Result<Self, Error>)
        ensures
            r is Ok <==> Self::spec_accepts(x),
            r matches Ok(v) ==> v.spec_encode_as() == x,
    ;
}

/// An unsigned integer that compact encodings hold, seen as a number.
pub trait CompactValue: Sized + Copy {
    /// The number this value is.
    spec fn spec_value(self) -> nat;

    /// The largest number of this type.
    spec fn spec_max() -> nat;

    /// The value that is the number `v`, for `v` up to the largest.
    spec fn spec_from(v: nat) -> Self;

    /// The largest number of this type.
    fn max_value() -> (m: u128)
        ensures
            m == Self::spec_max(),
    ;

    /// The number this value is.
    fn to_u128(self) -> (r: u128)
        ensures
            r == self.spec_value(),
    ;

    /// The value that is the number `v`.
    fn from_u128(v: u128) -> (r: Self)
        requires
            v <= Self::spec_max(),
        ensures
            r == Self::spec_from(v as nat),
    ;

    /// Values are numbers up to the largest, and each such number is exactly one value.
    proof fn lemma_value(self, v: nat)
        ensures
            self.spec_value() <= Self::spec_max(),
            Self::spec_max() < 0x1_0000_0000_0000_0000_0000_0000_0000_0000,
            v <= Self::spec_max() ==> Self::spec_from(v).spec_value() == v,
            Self::spec_from(self.spec_value()) == self,
    ;
}

impl CompactValue for u8 {
    open spec fn spec_value(self) -> nat {
        self as nat
    }

    open spec fn spec_max() -> nat {
        0xff
    }

    open spec fn spec_from(v: nat) -> u8 {
        v as u8
    }

    fn max_value() -> (m: u128) {
        0xff
    }

    fn to_u128(self) -> (r: u128) {
        self as u128
    }

    fn from_u128(v: u128) -> (r: u8) {
        v as u8
    }

    proof fn lemma_value(self, v: nat) {
    }
}

impl CompactValue for u16 {
    open spec fn spec_value(self) -> nat {
        self as nat
    }

    open spec fn spec_max() -> nat {
        0xffff
    }

    open spec fn spec_from(v: nat) -> u16 {
        v as u16
    }

    fn max_value() -> (m: u128) {
        0xffff
    }

    fn to_u128(self) -> (r: u128) {
        self as u128
    }

    fn from_u128(v: u128) -> (r: u16) {
        v as u16
    }

    proof fn lemma_value(self, v: nat) {
    }
}

impl CompactValue for u32 {
    open spec fn spec_value(self) -> nat {
        self as nat
    }

    open spec fn spec_max() -> nat {
        0xffff_ffff
    }

    open spec fn spec_from(v: nat) -> u32 {
        v as u32
    }

    fn max_value() -> (m: u128) {
        0xffff_ffff
    }

    fn to_u128(self) -> (r: u128) {
        self as u128
    }

    fn from_u128(v: u128) -> (r: u32) {
        v as u32
    }

    proof fn lemma_value(self, v: nat) {
    }
}

impl CompactValue for u64 {
    open spec fn spec_value(self) -> nat {
        self as nat
    }

    open spec fn spec_max() -> nat {
        0xffff_ffff_ffff_ffff
    }

    open spec fn spec_from(v: nat) -> u64 {
        v as u64
    }

    fn max_value() -> (m: u128) {
        0xffff_ffff_ffff_ffff
    }

    fn to_u128(self) -> (r: u128) {
        self as u128
    }

    fn from_u128(v: u128) -> (r: u64) {
        v as u64
    }

    proof fn lemma_value(self, v: nat) {
    }
}

impl CompactValue for u128 {
    open spec fn spec_value(self) -> nat {
        self as nat
    }

    open spec fn spec_max() -> nat {
        0xffff_ffff_ffff_ffff_ffff_ffff_ffff_ffff
    }

    open spec fn spec_from(v: nat) -> u128 {
        v as u128
    }

    fn max_value() -> (m: u128) {
        0xffff_ffff_ffff_ffff_ffff_ffff_ffff_ffff
    }

    fn to_u128(self) -> (r: u128) {
        self as u128
    }

    fn from_u128(v: u128) -> (r: u128) {
        v as u128
    }

    proof fn lemma_value(self, v: nat) {
    }
}

/// Trait that tells you if a given type can be encoded/decoded in a compact way.
pub trait HasCompact: Sized {
    /// The compact type.
    type Type: Encode + Decode + From<Self> + Into<Self>;
}

impl HasCompact for u8 {
    type Type = Compact<u8>;
}

impl HasCompact for u16 {
    type Type = Compact<u16>;
}

impl HasCompact for u32 {
    type Type = Compact<u32>;
}

impl HasCompact for u64 {
    type Type = Compact<u64>;
}

impl HasCompact for u128 {
    type Type = Compact<u128>;
}

impl HasCompact for () {
    type Type = Compact<()>;
}

/// The length of the compact encoding at the front of `bytes` whose value is at most `max`.
pub open spec fn compact_parse_max(bytes: Seq<u8>, max: nat) -> Option<nat> {
    match compact_parse(bytes) {
        Some((v, k)) => if v <= max {
            Some(k)
        } else {
            None
        },
        None => None,
    }
}

/// The length of the compact encoding of `v`.
pub(crate) fn compact_len_u128(v: u128) -> (n: usize)
    ensures
        n == compact_encoding(v as nat).len(),
{
    proof {
        lemma_compact_encoding_len(v as nat);
    }
    if v < 0x40 {
        1
    } else if v < 0x4000 {
        2
    } else if v < 0x4000_0000 {
        4
    } else {
        1 + byte_len(v)
    }
}

/// Reads a compact encoding whose value is at most `max`.
pub(crate) fn decode_compact_max<I: Input>(input: &mut I, max: u128) -> (r: Result<u128, Error>)
    ensures
        final(input).depth_count() == old(input).depth_count(),
        final(input).mem_budget() == old(input).mem_budget(),
        final(input).short_read_error() == old(input).short_read_error(),
        r matches Err(e) ==> (reads_fully(old(input)) && compact_mode_len(old(input).unread())
            <= old(input).unread().len() ==> e.description() == "Out of range"@),
        final(input).hooks_succeed() == old(input).hooks_succeed(),
        r is Ok ==> compact_parse_max(old(input).unread(), max as nat) is Some,
        reads_fully(old(input)) && compact_parse_max(old(input).unread(), max as nat) is Some
            ==> r is Ok,
        r matches Ok(v) ==> v <= max && compact_parse_max(old(input).unread(), max as nat) == Some(
            compact_encoding(v as nat).len(),
        ) && compact_parse(old(input).unread()) == Some(
            (v as nat, compact_encoding(v as nat).len()),
        ),
        r matches Ok(v) ==> compact_encoding(v as nat).len() <= old(input).unread().len()
            && old(input).unread().take(compact_encoding(v as nat).len() as int) == compact_encoding(
            v as nat,
        ) && final(input).unread() == old(input).unread().skip(
            compact_encoding(v as nat).len() as int,
        ),
{
    proof {
        if compact_parse(old(input).unread()) is Some {
            lemma_compact_parse_canonical(old(input).unread());
        }
    }
    read_compact(input, max)
}

proof fn lemma_compact_roundtrip(v: nat, max: nat, rest: Seq<u8>)
    requires
        v <= max,
        max < 0x1_0000_0000_0000_0000_0000_0000_0000_0000,
    ensures
        compact_parse_max(compact_encoding(v) + rest, max) == Some(compact_encoding(v).len()),
{
    lemma_compact_u128(v);
    lemma_compact_parse_encoding(v, rest);
}

proof fn lemma_compact_bounded(bytes: Seq<u8>, max: nat)
    ensures
        compact_parse_max(bytes, max) matches Some(n) ==> n <= bytes.len(),
{
    if compact_parse(bytes) is Some {
        lemma_compact_parse_canonical(bytes);
    }
}

impl Encode for Compact<u8> {
    open spec fn spec_encode(&self) -> Seq<u8> {
        compact_encoding(self.0 as nat)
    }

    open spec fn encodable(&self) -> bool {
        true
    }

    fn size_hint(&self) -> (n: usize)
        ensures
            n == compact_encoding(self.0 as nat).len(),
    {
        compact_len_u128(self.0 as u128)
    }

    fn encode_to<W: Output>(&self, dest: &mut W) {
        write_compact(dest, self.0 as u128);
    }
}

impl<'a> Encode for CompactRef<'a, u8> {
    open spec fn spec_encode(&self) -> Seq<u8> {
        compact_encoding(*self.0 as nat)
    }

    open spec fn encodable(&self) -> bool {
        true
    }

    fn size_hint(&self) -> (n: usize)
        ensures
            n == compact_encoding(*self.0 as nat).len(),
    {
        compact_len_u128(*self.0 as u128)
    }

    fn encode_to<W: Output>(&self, dest: &mut W) {
        write_compact(dest, *self.0 as u128);
    }
}

impl Decode for Compact<u8> {
    open spec fn spec_parse(bytes: Seq<u8>) -> Option<nat> {
        compact_parse_max(bytes, u8::MAX as nat)
    }

    /// On an input that reads fully, where the bytes that the first byte announces are there, a
    /// refusal is "Out of range".
    fn decode<I: Input>(input: &mut I) -> (r: Result<Compact<u8>, Error>)
        ensures
            r matches Err(e) ==> (reads_fully(old(input)) && compact_mode_len(old(input).unread())
                <= old(input).unread().len() ==> e.description() == "Out of range"@),
    {
        let v = decode_compact_max(input, 0xff as u128)?;
        proof {
            assert(Self::spec_depth(old(input).unread()) == 0);
            assert(Self::spec_mem(old(input).unread(), mem_alignment(*old(input))) == 0);
            lemma_no_hooks(*old(input), *input, Compact(v as u8));
        }
        Ok(Compact(v as u8))
    }
}

impl DecodeLaws for Compact<u8> {
    proof fn lemma_parse_bounded(bytes: Seq<u8>) {
        lemma_compact_bounded(bytes, u8::MAX as nat);
    }

    proof fn lemma_parse_encoding(v: Compact<u8>, rest: Seq<u8>) {
        lemma_compact_roundtrip(v.0 as nat, u8::MAX as nat, rest);
    }

    open spec fn same_value(a: Compact<u8>, b: Compact<u8>) -> bool {
        a == b
    }

    proof fn lemma_encoding_injective(a: Compact<u8>, b: Compact<u8>) {
        lemma_compact_u128(a.0 as nat);
        lemma_compact_u128(b.0 as nat);
        lemma_compact_encoding_injective(a.0 as nat, b.0 as nat);
    }
}

impl CompactLen<u8> for Compact<u8> {
    fn compact_len(val: &u8) -> (n: usize)
        ensures
            n == compact_encoding(*val as nat).len(),
    {
        compact_len_u128(*val as u128)
    }
}

impl Encode for Compact<u16> {
    open spec fn spec_encode(&self) -> Seq<u8> {
        compact_encoding(self.0 as nat)
    }

    open spec fn encodable(&self) -> bool {
        true
    }

    fn size_hint(&self) -> (n: usize)
        ensures
            n == compact_encoding(self.0 as nat).len(),
    {
        compact_len_u128(self.0 as u128)
    }

    fn encode_to<W: Output>(&self, dest: &mut W) {
        write_compact(dest, self.0 as u128);
    }
}

impl<'a> Encode for CompactRef<'a, u16> {
    open spec fn spec_encode(&self) -> Seq<u8> {
        compact_encoding(*self.0 as nat)
    }

    open spec fn encodable(&self) -> bool {
        true
    }

    fn size_hint(&self) -> (n: usize)
        ensures
            n == compact_encoding(*self.0 as nat).len(),
    {
        compact_len_u128(*self.0 as u128)
    }

    fn encode_to<W: Output>(&self, dest: &mut W) {
        write_compact(dest, *self.0 as u128);
    }
}

impl Decode for Compact<u16> {
    open spec fn spec_parse(bytes: Seq<u8>) -> Option<nat> {
        compact_parse_max(bytes, u16::MAX as nat)
    }

    /// On an input that reads fully, where the bytes that the first byte announces are there, a
    /// refusal is "Out of range".
    fn decode<I: Input>(input: &mut I) -> (r: Result<Compact<u16>, Error>)
        ensures
            r matches Err(e) ==> (reads_fully(old(input)) && compact_mode_len(old(input).unread())
                <= old(input).unread().len() ==> e.description() == "Out of range"@),
    {
        let v = decode_compact_max(input, 0xffff as u128)?;
        proof {
            assert(Self::spec_depth(old(input).unread()) == 0);
            assert(Self::spec_mem(old(input).unread(), mem_alignment(*old(input))) == 0);
            lemma_no_hooks(*old(input), *input, Compact(v as u16));
        }
        Ok(Compact(v as u16))
    }
}

impl DecodeLaws for Compact<u16> {
    proof fn lemma_parse_bounded(bytes: Seq<u8>) {
        lemma_compact_bounded(bytes, u16::MAX as nat);
    }

    proof fn lemma_parse_encoding(v: Compact<u16>, rest: Seq<u8>) {
        lemma_compact_roundtrip(v.0 as nat, u16::MAX as nat, rest);
    }

    open spec fn same_value(a: Compact<u16>, b: Compact<u16>) -> bool {
        a == b
    }

    proof fn lemma_encoding_injective(a: Compact<u16>, b: Compact<u16>) {
        lemma_compact_u128(a.0 as nat);
        lemma_compact_u128(b.0 as nat);
        lemma_compact_encoding_injective(a.0 as nat, b.0 as nat);
    }
}

impl CompactLen<u16> for Compact<u16> {
    fn compact_len(val: &u16) -> (n: usize)
        ensures
            n == compact_encoding(*val as nat).len(),
    {
        compact_len_u128(*val as u128)
    }
}

impl Encode for Compact<u32> {
    open spec fn spec_encode(&self) -> Seq<u8> {
        compact_encoding(self.0 as nat)
    }

    open spec fn encodable(&self) -> bool {
        true
    }

    fn size_hint(&self) -> (n: usize)
        ensures
            n == compact_encoding(self.0 as nat).len(),
    {
        compact_len_u128(self.0 as u128)
    }

    fn encode_to<W: Output>(&self, dest: &mut W) {
        write_compact(dest, self.0 as u128);
    }
}

impl<'a> Encode for CompactRef<'a, u32> {
    open spec fn spec_encode(&self) -> Seq<u8> {
        compact_encoding(*self.0 as nat)
    }

    open spec fn encodable(&self) -> bool {
        true
    }

    fn size_hint(&self) -> (n: usize)
        ensures
            n == compact_encoding(*self.0 as nat).len(),
    {
        compact_len_u128(*self.0 as u128)
    }

    fn encode_to<W: Output>(&self, dest: &mut W) {
        write_compact(dest, *self.0 as u128);
    }
}

impl Decode for Compact<u32> {
    open spec fn spec_parse(bytes: Seq<u8>) -> Option<nat> {
        compact_parse_max(bytes, u32::MAX as nat)
    }

    /// On an input that reads fully, where the bytes that the first byte announces are there, a
    /// refusal is "Out of range".
    fn decode<I: Input>(input: &mut I) -> (r: Result<Compact<u32>, Error>)
        ensures
            r matches Err(e) ==> (reads_fully(old(input)) && compact_mode_len(old(input).unread())
                <= old(input).unread().len() ==> e.description() == "Out of range"@),
    {
        let v = decode_compact_max(input, 0xffff_ffff as u128)?;
        proof {
            assert(Self::spec_depth(old(input).unread()) == 0);
            assert(Self::spec_mem(old(input).unread(), mem_alignment(*old(input))) == 0);
            lemma_no_hooks(*old(input), *input, Compact(v as u32));
        }
        Ok(Compact(v as u32))
    }
}

impl DecodeLaws for Compact<u32> {
    proof fn lemma_parse_bounded(bytes: Seq<u8>) {
        lemma_compact_bounded(bytes, u32::MAX as nat);
    }

    proof fn lemma_parse_encoding(v: Compact<u32>, rest: Seq<u8>) {
        lemma_compact_roundtrip(v.0 as nat, u32::MAX as nat, rest);
    }

    open spec fn same_value(a: Compact<u32>, b: Compact<u32>) -> bool {
        a == b
    }

    proof fn lemma_encoding_injective(a: Compact<u32>, b: Compact<u32>) {
        lemma_compact_u128(a.0 as nat);
        lemma_compact_u128(b.0 as nat);
        lemma_compact_encoding_injective(a.0 as nat, b.0 as nat);
    }
}

impl CompactLen<u32> for Compact<u32> {
    fn compact_len(val: &u32) -> (n: usize)
        ensures
            n == compact_encoding(*val as nat).len(),
    {
        compact_len_u128(*val as u128)
    }
}

impl Encode for Compact<u64> {
    open spec fn spec_encode(&self) -> Seq<u8> {
        compact_encoding(self.0 as nat)
    }

    open spec fn encodable(&self) -> bool {
        true
    }

    fn size_hint(&self) -> (n: usize)
        ensures
            n == compact_encoding(self.0 as nat).len(),
    {
        compact_len_u128(self.0 as u128)
    }

    fn encode_to<W: Output>(&self, dest: &mut W) {
        write_compact(dest, self.0 as u128);
    }
}

impl<'a> Encode for CompactRef<'a, u64> {
    open spec fn spec_encode(&self) -> Seq<u8> {
        compact_encoding(*self.0 as nat)
    }

    open spec fn encodable(&self) -> bool {
        true
    }

    fn size_hint(&self) -> (n: usize)
        ensures
            n == compact_encoding(*self.0 as nat).len(),
    {
        compact_len_u128(*self.0 as u128)
    }

    fn encode_to<W: Output>(&self, dest: &mut W) {
        write_compact(dest, *self.0 as u128);
    }
}

impl Decode for Compact<u64> {
    open spec fn spec_parse(bytes: Seq<u8>) -> Option<nat> {
        compact_parse_max(bytes, u64::MAX as nat)
    }

    /// On an input that reads fully, where the bytes that the first byte announces are there, a
    /// refusal is "Out of range".
    fn decode<I: Input>(input: &mut I) -> (r: Result<Compact<u64>, Error>)
        ensures
            r matches Err(e) ==> (reads_fully(old(input)) && compact_mode_len(old(input).unread())
                <= old(input).unread().len() ==> e.description() == "Out of range"@),
    {
        let v = decode_compact_max(input, 0xffff_ffff_ffff_ffff as u128)?;
        proof {
            assert(Self::spec_depth(old(input).unread()) == 0);
            assert(Self::spec_mem(old(input).unread(), mem_alignment(*old(input))) == 0);
            lemma_no_hooks(*old(input), *input, Compact(v as u64));
        }
        Ok(Compact(v as u64))
    }
}

impl DecodeLaws for Compact<u64> {
    proof fn lemma_parse_bounded(bytes: Seq<u8>) {
        lemma_compact_bounded(bytes, u64::MAX as nat);
    }

    proof fn lemma_parse_encoding(v: Compact<u64>, rest: Seq<u8>) {
        lemma_compact_roundtrip(v.0 as nat, u64::MAX as nat, rest);
    }

    open spec fn same_value(a: Compact<u64>, b: Compact<u64>) -> bool {
        a == b
    }

    proof fn lemma_encoding_injective(a: Compact<u64>, b: Compact<u64>) {
        lemma_compact_u128(a.0 as nat);
        lemma_compact_u128(b.0 as nat);
        lemma_compact_encoding_injective(a.0 as nat, b.0 as nat);
    }
}

impl CompactLen<u64> for Compact<u64> {
    fn compact_len(val: &u64) -> (n: usize)
        ensures
            n == compact_encoding(*val as nat).len(),
    {
        compact_len_u128(*val as u128)
    }
}

impl Encode for Compact<u128> {
    open spec fn spec_encode(&self) -> Seq<u8> {
        compact_encoding(self.0 as nat)
    }

    open spec fn encodable(&self) -> bool {
        true
    }

    fn size_hint(&self) -> (n: usize)
        ensures
            n == compact_encoding(self.0 as nat).len(),
    {
        compact_len_u128(self.0 as u128)
    }

    fn encode_to<W: Output>(&self, dest: &mut W) {
        write_compact(dest, self.0 as u128);
    }
}

impl<'a> Encode for CompactRef<'a, u128> {
    open spec fn spec_encode(&self) -> Seq<u8> {
        compact_encoding(*self.0 as nat)
    }

    open spec fn encodable(&self) -> bool {
        true
    }

    fn size_hint(&self) -> (n: usize)
        ensures
            n == compact_encoding(*self.0 as nat).len(),
    {
        compact_len_u128(*self.0 as u128)
    }

    fn encode_to<W: Output>(&self, dest: &mut W) {
        write_compact(dest, *self.0 as u128);
    }
}

impl Decode for Compact<u128> {
    open spec fn spec_parse(bytes: Seq<u8>) -> Option<nat> {
        compact_parse_max(bytes, u128::MAX as nat)
    }

    /// On an input that reads fully, where the bytes that the first byte announces are there, a
    /// refusal is "Out of range".
    fn decode<I: Input>(input: &mut I) -> (r: Result<Compact<u128>, Error>)
        ensures
            r matches Err(e) ==> (reads_fully(old(input)) && compact_mode_len(old(input).unread())
                <= old(input).unread().len() ==> e.description() == "Out of range"@),
    {
        let v = decode_compact_max(input, u128::MAX as u128)?;
        proof {
            assert(Self::spec_depth(old(input).unread()) == 0);
            assert(Self::spec_mem(old(input).unread(), mem_alignment(*old(input))) == 0);
            lemma_no_hooks(*old(input), *input, Compact(v as u128));
        }
        Ok(Compact(v as u128))
    }
}

impl DecodeLaws for Compact<u128> {
    proof fn lemma_parse_bounded(bytes: Seq<u8>) {
        lemma_compact_bounded(bytes, u128::MAX as nat);
    }

    proof fn lemma_parse_encoding(v: Compact<u128>, rest: Seq<u8>) {
        lemma_compact_roundtrip(v.0 as nat, u128::MAX as nat, rest);
    }

    open spec fn same_value(a: Compact<u128>, b: Compact<u128>) -> bool {
        a == b
    }

    proof fn lemma_encoding_injective(a: Compact<u128>, b: Compact<u128>) {
        lemma_compact_u128(a.0 as nat);
        lemma_compact_u128(b.0 as nat);
        lemma_compact_encoding_injective(a.0 as nat, b.0 as nat);
    }
}

impl CompactLen<u128> for Compact<u128> {
    fn compact_len(val: &u128) -> (n: usize)
        ensures
            n == compact_encoding(*val as nat).len(),
    {
        compact_len_u128(*val as u128)
    }
}

impl Encode for Compact<()> {
    open spec fn spec_encode(&self) -> Seq<u8> {
        Seq::empty()
    }

    open spec fn encodable(&self) -> bool {
        true
    }

    fn size_hint(&self) -> (n: usize)
        ensures
            n == 0,
    {
        0
    }

    fn encode_to<W: Output>(&self, dest: &mut W) {
        assert(old(dest).written() + Seq::<u8>::empty() =~= old(dest).written());
    }
}

impl<'a> Encode for CompactRef<'a, ()> {
    open spec fn spec_encode(&self) -> Seq<u8> {
        Seq::empty()
    }

    open spec fn encodable(&self) -> bool {
        true
    }

    fn size_hint(&self) -> (n: usize)
        ensures
            n == 0,
    {
        0
    }

    fn encode_to<W: Output>(&self, dest: &mut W) {
        assert(old(dest).written() + Seq::<u8>::empty() =~= old(dest).written());
    }
}

impl Decode for Compact<()> {
    open spec fn spec_parse(bytes: Seq<u8>) -> Option<nat> {
        Some(0)
    }

    fn decode<I: Input>(input: &mut I) -> (r: Result<Compact<()>, Error>) {
        assert(old(input).unread().take(0) =~= Seq::<u8>::empty());
        assert(old(input).unread().skip(0) =~= old(input).unread());
        proof {
            assert(Self::spec_depth(old(input).unread()) == 0);
            assert(Self::spec_mem(old(input).unread(), mem_alignment(*old(input))) == 0);
            lemma_no_hooks(*old(input), *input, Compact(()));
        }
        Ok(Compact(()))
    }
}

impl DecodeLaws for Compact<()> {
    proof fn lemma_parse_bounded(bytes: Seq<u8>) {
    }

    proof fn lemma_parse_encoding(v: Compact<()>, rest: Seq<u8>) {
    }

    open spec fn same_value(a: Compact<()>, b: Compact<()>) -> bool {
        a == b
    }

    proof fn lemma_encoding_injective(a: Compact<()>, b: Compact<()>) {
        let Compact(x) = a;
        let Compact(y) = b;
        assert(x == y);
    }
}

/// A value that stands for a compact integer encodes as the compact encoding of that integer.
impl<T: CompactAs> Encode for Compact<T> where T::As: CompactValue {
    open spec fn spec_encode(&self) -> Seq<u8> {
        compact_encoding(self.0.spec_encode_as().spec_value())
    }

    /// A value can be encoded when what it stands for is accepted back.
    open spec fn encodable(&self) -> bool {
        T::spec_accepts(self.0.spec_encode_as())
    }

    fn size_hint(&self) -> (n: usize)
        ensures
            n == self.spec_encode().len(),
    {
        compact_len_u128(self.0.encode_as().to_u128())
    }

    fn encode_to<W: Output>(&self, dest: &mut W) {
        write_compact(dest, self.0.encode_as().to_u128());
    }
}

impl<'a, T: CompactAs> Encode for CompactRef<'a, T> where T::As: CompactValue {
    open spec fn spec_encode(&self) -> Seq<u8> {
        compact_encoding(self.0.spec_encode_as().spec_value())
    }

    open spec fn encodable(&self) -> bool {
        T::spec_accepts(self.0.spec_encode_as())
    }

    fn size_hint(&self) -> (n: usize)
        ensures
            n == self.spec_encode().len(),
    {
        compact_len_u128(self.0.encode_as().to_u128())
    }

    fn encode_to<W: Output>(&self, dest: &mut W) {
        write_compact(dest, self.0.encode_as().to_u128());
    }
}

/// A value that stands for a compact integer is decoded from that integer, where it accepts it.
/// A `u8` stands in a compact encoding for the integer it is: a value whose compact form is a
/// `u8` encodes as the compact encoding of that integer, the same bytes as `Compact` of the
/// integer itself, and the number read back is the `u8` handed to `decode_from`.
pub proof fn lemma_compact_as_u8<T: CompactAs<As = u8>>(t: T, x: u8)
    ensures
        x.spec_value() == x as nat,
        <u8>::spec_max() == 0xff,
        <u8>::spec_from(x as nat) == x,
        Compact(t).spec_encode() == compact_encoding(t.spec_encode_as() as nat),
        Compact(t).spec_encode() == Compact(t.spec_encode_as()).spec_encode(),
{
}

/// A `u16` stands in a compact encoding for the integer it is: a value whose compact form is a
/// `u16` encodes as the compact encoding of that integer, the same bytes as `Compact` of the
/// integer itself, and the number read back is the `u16` handed to `decode_from`.
pub proof fn lemma_compact_as_u16<T: CompactAs<As = u16>>(t: T, x: u16)
    ensures
        x.spec_value() == x as nat,
        <u16>::spec_max() == 0xffff,
        <u16>::spec_from(x as nat) == x,
        Compact(t).spec_encode() == compact_encoding(t.spec_encode_as() as nat),
        Compact(t).spec_encode() == Compact(t.spec_encode_as()).spec_encode(),
{
}

/// A `u32` stands in a compact encoding for the integer it is: a value whose compact form is a
/// `u32` encodes as the compact encoding of that integer, the same bytes as `Compact` of the
/// integer itself, and the number read back is the `u32` handed to `decode_from`.
pub proof fn lemma_compact_as_u32<T: CompactAs<As = u32>>(t: T, x: u32)
    ensures
        x.spec_value() == x as nat,
        <u32>::spec_max() == 0xffff_ffff,
        <u32>::spec_from(x as nat) == x,
        Compact(t).spec_encode() == compact_encoding(t.spec_encode_as() as nat),
        Compact(t).spec_encode() == Compact(t.spec_encode_as()).spec_encode(),
{
}

/// A `u64` stands in a compact encoding for the integer it is: a value whose compact form is a
/// `u64` encodes as the compact encoding of that integer, the same bytes as `Compact` of the
/// integer itself, and the number read back is the `u64` handed to `decode_from`.
pub proof fn lemma_compact_as_u64<T: CompactAs<As = u64>>(t: T, x: u64)
    ensures
        x.spec_value() == x as nat,
        <u64>::spec_max() == 0xffff_ffff_ffff_ffff,
        <u64>::spec_from(x as nat) == x,
        Compact(t).spec_encode() == compact_encoding(t.spec_encode_as() as nat),
        Compact(t).spec_encode() == Compact(t.spec_encode_as()).spec_encode(),
{
}

/// A `u128` stands in a compact encoding for the integer it is: a value whose compact form is a
/// `u128` encodes as the compact encoding of that integer, the same bytes as `Compact` of the
/// integer itself, and the number read back is the `u128` handed to `decode_from`.
pub proof fn lemma_compact_as_u128<T: CompactAs<As = u128>>(t: T, x: u128)
    ensures
        x.spec_value() == x as nat,
        <u128>::spec_max() == 0xffff_ffff_ffff_ffff_ffff_ffff_ffff_ffff,
        <u128>::spec_from(x as nat) == x,
        Compact(t).spec_encode() == compact_encoding(t.spec_encode_as() as nat),
        Compact(t).spec_encode() == Compact(t.spec_encode_as()).spec_encode(),
{
}

impl<T: CompactAs> Decode for Compact<T> where T::As: CompactValue {
    open spec fn spec_parse(bytes: Seq<u8>) -> Option<nat> {
        match compact_parse(bytes) {
            Some((v, k)) => if v <= T::As::spec_max() && T::spec_accepts(T::As::spec_from(v)) {
                Some(k)
            } else {
                None
            },
            None => None,
        }
    }

    fn decode<I: Input>(input: &mut I) -> (r: Result<Compact<T>, Error>) {
        let v = decode_compact_max(input, T::As::max_value())?;
        let a = T::As::from_u128(v);
        proof {
            a.lemma_value(v as nat);
        }
        let t = T::decode_from(a)?;
        proof {
            assert(Self::spec_depth(old(input).unread()) == 0);
            assert(Self::spec_mem(old(input).unread(), mem_alignment(*old(input))) == 0);
            lemma_no_hooks(*old(input), *input, Compact(t));
        }
        Ok(Compact(t))
    }
}

impl<T: CompactAs> DecodeLaws for Compact<T> where T::As: CompactValue {
    proof fn lemma_parse_bounded(bytes: Seq<u8>) {
        if compact_parse(bytes) is Some {
            lemma_compact_parse_canonical(bytes);
        }
    }

    proof fn lemma_parse_encoding(v: Compact<T>, rest: Seq<u8>) {
        let a = v.0.spec_encode_as();
        a.lemma_value(a.spec_value());
        lemma_compact_u128(a.spec_value());
        lemma_compact_parse_encoding(a.spec_value(), rest);
    }

    /// Values are the same when they stand for the same integer.
    open spec fn same_value(a: Compact<T>, b: Compact<T>) -> bool {
        a.0.spec_encode_as() == b.0.spec_encode_as()
    }

    proof fn lemma_encoding_injective(a: Compact<T>, b: Compact<T>) {
        let (x, y) = (a.0.spec_encode_as(), b.0.spec_encode_as());
        x.lemma_value(x.spec_value());
        y.lemma_value(y.spec_value());
        lemma_compact_u128(x.spec_value());
        lemma_compact_u128(y.spec_value());
        lemma_compact_encoding_injective(x.spec_value(), y.spec_value());
    }
}

/// A value that stands for a compact integer has a compact form.
impl<T: CompactAs + 'static> HasCompact for T where T::As: CompactValue {
    type Type = Compact<T>;
}


} // verus!
