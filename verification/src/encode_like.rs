//! Types that encode the same way as other types.
use crate::codec::{hint_of, size_hint_of, Decode, Encode};
use crate::compact::{Compact, CompactAs, CompactRef, CompactValue};
use crate::composite::{Duration, OptionBool};
use std::borrow::Cow;
use std::collections::VecDeque;
use vstd::prelude::*;

verus! {

/// A marker trait that tells that a type encodes to the same representation as another type,
/// so that one can stand for the other where an encoding is expected.
pub trait EncodeLike<T: Encode = Self>: Sized + Encode {

}

impl<'a, T: Encode + ?Sized> Encode for &'a T {
    open spec fn spec_encode(&self) -> Seq<u8> {
        (**self).spec_encode()
    }

    open spec fn encodable(&self) -> bool {
        (**self).encodable()
    }

    fn size_hint(&self) -> (n: usize)
        ensures
            size_hint_of(*self, n),
    {
        hint_of(*self)
    }

    fn encode_to<W: crate::io::Output>(&self, dest: &mut W) {
        assert(self.encodable() == (**self).encodable());
        assert(self.spec_encode() == (**self).spec_encode());
        (**self).encode_to(dest);
    }
}

impl<'a, T: Encode + ?Sized> Encode for &'a mut T {
    open spec fn spec_encode(&self) -> Seq<u8> {
        (**self).spec_encode()
    }

    open spec fn encodable(&self) -> bool {
        (**self).encodable()
    }

    fn size_hint(&self) -> (n: usize)
        ensures
            size_hint_of(&*old(*self), n),
    {
        hint_of(&**self)
    }

    fn encode_to<W: crate::io::Output>(&self, dest: &mut W) {
        (**self).encode_to(dest);
    }
}

// A reference encodes like what it refers to, and the other way round.
impl<'a, T: Encode + ?Sized> EncodeLike for &'a T {

}

impl<'a, T: Encode> EncodeLike<T> for &'a T {

}

impl<'a, T: Encode> EncodeLike<&'a T> for T {

}

impl<'a, 'b, T: Encode> EncodeLike<T> for &'a &'b T {

}

impl<'a, 'b, T: Encode> EncodeLike<&'a &'b T> for T {

}

impl<'a, T: Encode + ?Sized> EncodeLike for &'a mut T {

}

impl<'a, T: Encode> EncodeLike<T> for &'a mut T {

}

impl<'a, T: Encode> EncodeLike<&'a mut T> for T {

}

// A pointer encodes like what it points to, and the other way round.
impl<T: Encode + ?Sized> EncodeLike for Box<T> {

}

impl<T: Encode> EncodeLike<T> for Box<T> {

}

impl<T: Encode> EncodeLike<Box<T>> for T {

}

impl<T: Encode + ?Sized> EncodeLike for std::rc::Rc<T> {

}

impl<T: Encode> EncodeLike<T> for std::rc::Rc<T> {

}

impl<T: Encode> EncodeLike<std::rc::Rc<T>> for T {

}

impl<T: Encode + ?Sized> EncodeLike for std::sync::Arc<T> {

}

impl<T: Encode> EncodeLike<T> for std::sync::Arc<T> {

}

impl<T: Encode> EncodeLike<std::sync::Arc<T>> for T {

}

// A borrowed-or-owned value encodes like the value.
impl<'a, T: Encode + Clone> EncodeLike for Cow<'a, T> {

}

impl<'a, T: Encode + Clone> EncodeLike<T> for Cow<'a, T> {

}

impl<'a, T: Encode + Clone> EncodeLike<Cow<'a, T>> for T {

}

impl<'a, T: Encode + Clone> EncodeLike for Cow<'a, [T]> {

}

impl<'a> EncodeLike for Cow<'a, str> {

}

// A string encodes like a string slice with the same characters.
impl EncodeLike for String {

}

impl<'a> EncodeLike<&'a str> for String {

}

impl<'a> EncodeLike<String> for &'a str {

}

// Containers encode alike when their items do.
impl<T: EncodeLike<U>, U: Encode> EncodeLike<Option<U>> for Option<T> {

}

impl<T: EncodeLike<LikeT>, LikeT: Encode, E: EncodeLike<LikeE>, LikeE: Encode> EncodeLike<
    Result<LikeT, LikeE>,
> for Result<T, E> {

}

impl<T: EncodeLike<U>, U: Encode, const N: usize> EncodeLike<[U; N]> for [T; N] {

}

impl<T: EncodeLike<U>, U: Encode> EncodeLike<Vec<U>> for Vec<T> {

}

impl<'a, T: EncodeLike<U>, U: Encode> EncodeLike<&'a [U]> for Vec<T> {

}

impl<'a, T: EncodeLike<U>, U: Encode> EncodeLike<Vec<U>> for &'a [T] {

}

impl<T: Encode> EncodeLike for VecDeque<T> {

}

impl<'a, T: EncodeLike<U>, U: Encode> EncodeLike<&'a [U]> for VecDeque<T> {

}

impl<'a, T: EncodeLike<U>, U: Encode> EncodeLike<VecDeque<U>> for &'a [T] {

}

impl<T: EncodeLike<U>, U: Encode> EncodeLike<Vec<U>> for VecDeque<T> {

}

impl<T: EncodeLike<U>, U: Encode> EncodeLike<VecDeque<U>> for Vec<T> {

}

impl<A: EncodeLike<A2>, A2: Encode> EncodeLike<(A2,)> for (A,) {

}

impl<A: EncodeLike<A2>, A2: Encode, B: EncodeLike<B2>, B2: Encode> EncodeLike<(A2, B2)> for (A, B) {

}

impl<
    A: EncodeLike<A2>,
    A2: Encode,
    B: EncodeLike<B2>,
    B2: Encode,
    C: EncodeLike<C2>,
    C2: Encode,
> EncodeLike<(A2, B2, C2)> for (A, B, C) {

}

impl<T: CompactAs> EncodeLike for Compact<T> where T::As: CompactValue {

}

impl<'a, T: CompactAs> EncodeLike for CompactRef<'a, T> where T::As: CompactValue {

}

impl EncodeLike for u8 {

}

impl EncodeLike for i8 {

}

impl EncodeLike for u16 {

}

impl EncodeLike for i16 {

}

impl EncodeLike for u32 {

}

impl EncodeLike for i32 {

}

impl EncodeLike for u64 {

}

impl EncodeLike for i64 {

}

impl EncodeLike for u128 {

}

impl EncodeLike for i128 {

}

impl EncodeLike for bool {

}

impl EncodeLike for () {

}

impl EncodeLike for OptionBool {

}

impl EncodeLike for Duration {

}

impl EncodeLike for Compact<u8> {

}

impl<'a> EncodeLike for CompactRef<'a, u8> {

}

impl EncodeLike for Compact<u16> {

}

impl<'a> EncodeLike for CompactRef<'a, u16> {

}

impl EncodeLike for Compact<u32> {

}

impl<'a> EncodeLike for CompactRef<'a, u32> {

}

impl EncodeLike for Compact<u64> {

}

impl<'a> EncodeLike for CompactRef<'a, u64> {

}

impl EncodeLike for Compact<u128> {

}

impl<'a> EncodeLike for CompactRef<'a, u128> {

}

impl EncodeLike for Compact<()> {

}

impl<'a> EncodeLike for CompactRef<'a, ()> {

}

impl<T> EncodeLike for core::marker::PhantomData<T> {

}

impl<T: Encode> EncodeLike for core::ops::Range<T> {

}

impl<T: Encode> EncodeLike for core::ops::RangeInclusive<T> {

}

/// Trait that bound `EncodeLike` along with `Encode`. Useful for generic being used in function
/// with `EncodeLike` parameters.
pub trait FullEncode: Encode + EncodeLike {

}

impl<S: Encode + EncodeLike> FullEncode for S {

}

/// Trait that bound `EncodeLike` along with `Codec`. Useful for generic being used in function
/// with `EncodeLike` parameters.
pub trait FullCodec: Decode + FullEncode {

}

impl<S: Decode + FullEncode> FullCodec for S {

}

/// A double-ended queue encodes like a vector with the same items.
pub proof fn lemma_vec_deque_encodes_like_vec<T: Encode>(d: VecDeque<T>, v: Vec<T>)
    requires
        d@ == v@,
    ensures
        d.spec_encode() == v.spec_encode(),
        d.encodable() == v.encodable(),
{
}

/// A slice encodes like a vector with the same items.
pub proof fn lemma_slice_encodes_like_vec<T: Encode>(s: &[T], v: Vec<T>)
    requires
        s@ == v@,
    ensures
        s.spec_encode() == v.spec_encode(),
        s.encodable() == v.encodable(),
{
}

/// A string slice encodes like a string with the same characters.
pub proof fn lemma_str_encodes_like_string(s: &str, t: String)
    requires
        s@ == t@,
    ensures
        s.spec_encode() == t.spec_encode(),
        s.encodable() == t.encodable(),
{
}

/// A reference and a box encode like the value they point to.
pub proof fn lemma_pointers_encode_like_value<T: Encode>(v: T)
    ensures
        (&v).spec_encode() == v.spec_encode(),
        Box::new(v).spec_encode() == v.spec_encode(),
{
}

} // verus!
