//! Values made of other values: options, results, tuples, boxes, and the `OptionBool` shim.
use crate::codec::{
    deeper, decodes_to, limits_kept, hint_of, lemma_limits_nested, lemma_limits_same, lemma_limits_stop, lemma_limits_then,
    lemma_no_hooks, lemma_split_encodings, mem_alignment, saturated, size_hint_of, Decode,
    DecodeLaws, Encode,
};
use crate::endian::{le_bytes, le_value, lemma_le_bytes_len, lemma_le_value_of_bytes, lemma_pow256_small};
use crate::error::Error;
use crate::io::{reads_fully, Input, Output};
use crate::depth_limit::DEPTH_LIMIT_ERR_MSG;
use crate::memory_limit::MemAlignment;
use crate::sequence::{
    all_encodable, mul_or_max, prefixed_items_encoding, prefixed_items_parse, same_items, string_encoding,
    string_parse,
};
use std::borrow::Cow;
use vstd::prelude::*;
use vstd::utf8::encode_utf8;

verus! {

/// The length of a value's encoding behind a one-byte tag, when the value's own encoding has
/// length `inner`.
pub open spec fn tagged_parse(inner: Option<nat>) -> Option<nat> {
    match inner {
        Some(n) => Some(n + 1),
        None => None,
    }
}

/// What is read behind a tag byte `tag` is the tag followed by the encoding of the value read.
proof fn lemma_tagged(s: Seq<u8>, tag: u8, e: Seq<u8>, after: Seq<u8>)
    requires
        s.len() > 0,
        s[0] == tag,
        e.len() <= s.drop_first().len(),
        s.drop_first().take(e.len() as int) == e,
        after == s.drop_first().skip(e.len() as int),
    ensures
        seq![tag].add(e).len() <= s.len(),
        s.take(seq![tag].add(e).len() as int) == seq![tag].add(e),
        after == s.skip(seq![tag].add(e).len() as int),
{
    assert(s.take(e.len() as int + 1) =~= seq![tag] + e);
    assert(after =~= s.skip(e.len() as int + 1));
}

impl<T: Encode> Encode for Option<T> {
    open spec fn spec_encode(&self) -> Seq<u8> {
        match self {
            Some(t) => seq![1u8] + t.spec_encode(),
            None => seq![0u8],
        }
    }

    open spec fn encodable(&self) -> bool {
        match self {
            Some(t) => t.encodable(),
            None => true,
        }
    }

    fn size_hint(&self) -> (n: usize)
        ensures
            match self {
                Some(t) => exists|h: usize| size_hint_of(t, h) && n == saturated(h + 1),
                None => n == 1,
            },
    {
        match self {
            Some(t) => hint_of(t).saturating_add(1),
            None => 1,
        }
    }

    fn encode_to<W: Output>(&self, dest: &mut W) {
        match self {
            Some(t) => {
                dest.push_byte(1);
                t.encode_to(dest);
                assert(dest.written() =~= old(dest).written() + self.spec_encode());
            },
            None => {
                dest.push_byte(0);
                assert(dest.written() =~= old(dest).written() + self.spec_encode());
            },
        }
    }
}

impl<T: Decode> Decode for Option<T> {
    open spec fn spec_parse(bytes: Seq<u8>) -> Option<nat> {
        if bytes.len() == 0 {
            None
        } else if bytes[0] == 0 {
            Some(1)
        } else if bytes[0] == 1 {
            tagged_parse(T::spec_parse(bytes.drop_first()))
        } else {
            None
        }
    }

    open spec fn spec_depth(bytes: Seq<u8>) -> nat {
        if bytes.len() > 0 && bytes[0] == 1 {
            T::spec_depth(bytes.drop_first())
        } else {
            0
        }
    }

    open spec fn spec_mem(bytes: Seq<u8>, align: Option<MemAlignment>) -> nat {
        if bytes.len() > 0 && bytes[0] == 1 {
            T::spec_mem(bytes.drop_first(), align)
        } else {
            0
        }
    }

    /// A first byte other than 0 and 1 is refused as "unexpected first byte decoding Option",
    /// with only that byte read.
    fn decode<I: Input>(input: &mut I) -> (r: Result<Option<T>, Error>)
        ensures
            reads_fully(old(input)) && old(input).unread().len() > 0 && old(input).unread()[0] > 1 ==> (r matches Err(e)
                && e.description() == "unexpected first byte decoding Option"@),
            reads_fully(old(input)) && old(input).unread().len() > 0 && old(input).unread()[0] > 1 ==> final(input).unread()
                == old(input).unread().drop_first(),
    {
        let ghost s = old(input).unread();
        let ghost s0 = *old(input);
        let tag = match input.read_byte() {
            Ok(b) => b,
            Err(e) => {
                return Err(e.chain("Could not decode variant byte for `Option`"));
            },
        };
        let ghost s1 = *input;
        assert(s.skip(1) =~= s.drop_first());
        assert(s.take(1) =~= seq![tag]);
        proof {
            lemma_no_hooks(s0, s1, tag);
        }
        if tag == 0 {
            proof {
                assert(Self::spec_depth(s) == 0);
                assert(Self::spec_mem(s, mem_alignment(s0)) == 0);
                lemma_no_hooks(s0, *input, None::<T>);
            }
            Ok(None)
        } else if tag == 1 {
            let rt = T::decode(input);
            let ghost rt_g = rt;
            let r = match rt {
                Ok(v) => {
                    proof {
                        if T::spec_parse(s.drop_first()) is Some {
                            lemma_tagged(s, 1u8, v.spec_encode(), input.unread());
                        }
                    }
                    Ok(Some(v))
                },
                Err(e) => Err(e.chain("Could not decode `Option::Some(T)`")),
            };
            proof {
                assert(mem_alignment(s1) == mem_alignment(s0));
                assert(Self::spec_depth(s) == deeper(0, T::spec_depth(s.drop_first())));
                assert(Self::spec_mem(s, mem_alignment(s0)) == 0 + T::spec_mem(
                    s.drop_first(),
                    mem_alignment(s1),
                ));
                if T::spec_parse(s.drop_first()) is Some {
                    lemma_limits_then(
                        s0,
                        s1,
                        *input,
                        Ok::<u8, Error>(tag),
                        rt_g,
                        r,
                        0,
                        0,
                        T::spec_depth(s.drop_first()),
                        T::spec_mem(s.drop_first(), mem_alignment(s1)),
                    );
                }
            }
            r
        } else {
            Err(Error::new("unexpected first byte decoding Option"))
        }
    }
}

impl<T: DecodeLaws> DecodeLaws for Option<T> {
    proof fn lemma_parse_bounded(bytes: Seq<u8>) {
        if bytes.len() > 0 {
            T::lemma_parse_bounded(bytes.drop_first());
        }
    }

    proof fn lemma_parse_encoding(v: Option<T>, rest: Seq<u8>) {
        match v {
            Some(t) => {
                assert((seq![1u8] + t.spec_encode() + rest).drop_first() =~= t.spec_encode()
                    + rest);
                T::lemma_parse_encoding(t, rest);
            },
            None => {
            },
        }
    }

    open spec fn same_value(a: Option<T>, b: Option<T>) -> bool {
        match (a, b) {
            (Some(x), Some(y)) => T::same_value(x, y),
            (None, None) => true,
            _ => false,
        }
    }

    proof fn lemma_encoding_injective(a: Option<T>, b: Option<T>) {
        assert(a.spec_encode()[0] == b.spec_encode()[0]);
        match (a, b) {
            (Some(x), Some(y)) => {
                assert(a.spec_encode().drop_first() =~= x.spec_encode());
                assert(b.spec_encode().drop_first() =~= y.spec_encode());
                T::lemma_encoding_injective(x, y);
            },
            (Some(x), None) => {
                assert(a.spec_encode()[0] == 1u8);
            },
            (None, Some(y)) => {
                assert(b.spec_encode()[0] == 1u8);
            },
            (None, None) => {},
        }
    }
}

/// Reading `ea` and then `eb` from the front of `s` reads `ea + eb`.
pub(crate) proof fn lemma_two_parts(s: Seq<u8>, ea: Seq<u8>, mid: Seq<u8>, eb: Seq<u8>, after: Seq<u8>)
    requires
        ea.len() <= s.len(),
        s.take(ea.len() as int) == ea,
        mid == s.skip(ea.len() as int),
        eb.len() <= mid.len(),
        mid.take(eb.len() as int) == eb,
        after == mid.skip(eb.len() as int),
    ensures
        (ea + eb).len() <= s.len(),
        s.take((ea + eb).len() as int) == ea + eb,
        after == s.skip((ea + eb).len() as int),
{
    assert(s.take((ea + eb).len() as int) =~= ea + eb);
    assert(after =~= s.skip((ea + eb).len() as int));
}

/// The length of an `A` followed by a `B` at the front of `bytes`.
pub open spec fn pair_parse(a: Option<nat>, rest: spec_fn(nat) -> Option<nat>) -> Option<nat> {
    match a {
        Some(n) => match rest(n) {
            Some(m) => Some(n + m),
            None => None,
        },
        None => None,
    }
}

impl<T: Encode, E: Encode> Encode for Result<T, E> {
    open spec fn spec_encode(&self) -> Seq<u8> {
        match self {
            Ok(t) => seq![0u8] + t.spec_encode(),
            Err(e) => seq![1u8] + e.spec_encode(),
        }
    }

    open spec fn encodable(&self) -> bool {
        match self {
            Ok(t) => t.encodable(),
            Err(e) => e.encodable(),
        }
    }

    fn size_hint(&self) -> (n: usize)
        ensures
            match self {
                Ok(t) => exists|h: usize| size_hint_of(t, h) && n == saturated(h + 1),
                Err(e) => exists|h: usize| size_hint_of(e, h) && n == saturated(h + 1),
            },
    {
        match self {
            Ok(t) => hint_of(t).saturating_add(1),
            Err(e) => hint_of(e).saturating_add(1),
        }
    }

    fn encode_to<W: Output>(&self, dest: &mut W) {
        match self {
            Ok(t) => {
                dest.push_byte(0);
                t.encode_to(dest);
            },
            Err(e) => {
                dest.push_byte(1);
                e.encode_to(dest);
            },
        }
        assert(dest.written() =~= old(dest).written() + self.spec_encode());
    }
}

impl<T: Decode, E: Decode> Decode for Result<T, E> {
    open spec fn spec_parse(bytes: Seq<u8>) -> Option<nat> {
        if bytes.len() == 0 {
            None
        } else if bytes[0] == 0 {
            tagged_parse(T::spec_parse(bytes.drop_first()))
        } else if bytes[0] == 1 {
            tagged_parse(E::spec_parse(bytes.drop_first()))
        } else {
            None
        }
    }

    open spec fn spec_depth(bytes: Seq<u8>) -> nat {
        if bytes.len() > 0 && bytes[0] == 0 {
            T::spec_depth(bytes.drop_first())
        } else if bytes.len() > 0 && bytes[0] == 1 {
            E::spec_depth(bytes.drop_first())
        } else {
            0
        }
    }

    open spec fn spec_mem(bytes: Seq<u8>, align: Option<MemAlignment>) -> nat {
        if bytes.len() > 0 && bytes[0] == 0 {
            T::spec_mem(bytes.drop_first(), align)
        } else if bytes.len() > 0 && bytes[0] == 1 {
            E::spec_mem(bytes.drop_first(), align)
        } else {
            0
        }
    }

    /// A first byte other than 0 and 1 is refused as "unexpected first byte decoding Result",
    /// with only that byte read.
    fn decode<I: Input>(input: &mut I) -> (r: Result<Result<T, E>, Error>)
        ensures
            reads_fully(old(input)) && old(input).unread().len() > 0 && old(input).unread()[0] > 1 ==> (r matches Err(e)
                && e.description() == "unexpected first byte decoding Result"@),
            reads_fully(old(input)) && old(input).unread().len() > 0 && old(input).unread()[0] > 1 ==> final(input).unread()
                == old(input).unread().drop_first(),
    {
        let ghost s = old(input).unread();
        let ghost s0 = *old(input);
        let tag = match input.read_byte() {
            Ok(b) => b,
            Err(e) => {
                return Err(e.chain("Could not result variant byte for `Result`"));
            },
        };
        let ghost s1 = *input;
        assert(s.skip(1) =~= s.drop_first());
        proof {
            lemma_no_hooks(s0, s1, tag);
        }
        if tag == 0 {
            let rt = T::decode(input);
            let ghost rt_g = rt;
            let r = match rt {
                Ok(v) => {
                    proof {
                        if T::spec_parse(s.drop_first()) is Some {
                            lemma_tagged(s, 0u8, v.spec_encode(), input.unread());
                        }
                    }
                    Ok(Ok(v))
                },
                Err(e) => Err(e.chain("Could not Decode `Result::Ok(T)`")),
            };
            proof {
                assert(mem_alignment(s1) == mem_alignment(s0));
                assert(Self::spec_depth(s) == deeper(0, T::spec_depth(s.drop_first())));
                assert(Self::spec_mem(s, mem_alignment(s0)) == 0 + T::spec_mem(
                    s.drop_first(),
                    mem_alignment(s1),
                ));
                if T::spec_parse(s.drop_first()) is Some {
                    lemma_limits_then(
                        s0,
                        s1,
                        *input,
                        Ok::<u8, Error>(tag),
                        rt_g,
                        r,
                        0,
                        0,
                        T::spec_depth(s.drop_first()),
                        T::spec_mem(s.drop_first(), mem_alignment(s1)),
                    );
                }
            }
            r
        } else if tag == 1 {
            let re = E::decode(input);
            let ghost re_g = re;
            let r = match re {
                Ok(v) => {
                    proof {
                        if E::spec_parse(s.drop_first()) is Some {
                            lemma_tagged(s, 1u8, v.spec_encode(), input.unread());
                        }
                    }
                    Ok(Err(v))
                },
                Err(e) => Err(e.chain("Could not decode `Result::Error(E)`")),
            };
            proof {
                assert(mem_alignment(s1) == mem_alignment(s0));
                assert(Self::spec_depth(s) == deeper(0, E::spec_depth(s.drop_first())));
                assert(Self::spec_mem(s, mem_alignment(s0)) == 0 + E::spec_mem(
                    s.drop_first(),
                    mem_alignment(s1),
                ));
                if E::spec_parse(s.drop_first()) is Some {
                    lemma_limits_then(
                        s0,
                        s1,
                        *input,
                        Ok::<u8, Error>(tag),
                        re_g,
                        r,
                        0,
                        0,
                        E::spec_depth(s.drop_first()),
                        E::spec_mem(s.drop_first(), mem_alignment(s1)),
                    );
                }
            }
            r
        } else {
            Err(Error::new("unexpected first byte decoding Result"))
        }
    }
}

impl<T: DecodeLaws, E: DecodeLaws> DecodeLaws for Result<T, E> {
    proof fn lemma_parse_bounded(bytes: Seq<u8>) {
        if bytes.len() > 0 {
            T::lemma_parse_bounded(bytes.drop_first());
            E::lemma_parse_bounded(bytes.drop_first());
        }
    }

    proof fn lemma_parse_encoding(v: Result<T, E>, rest: Seq<u8>) {
        match v {
            Ok(t) => {
                assert((seq![0u8] + t.spec_encode() + rest).drop_first() =~= t.spec_encode()
                    + rest);
                T::lemma_parse_encoding(t, rest);
            },
            Err(e) => {
                assert((seq![1u8] + e.spec_encode() + rest).drop_first() =~= e.spec_encode()
                    + rest);
                E::lemma_parse_encoding(e, rest);
            },
        }
    }

    open spec fn same_value(a: Result<T, E>, b: Result<T, E>) -> bool {
        match (a, b) {
            (Ok(x), Ok(y)) => T::same_value(x, y),
            (Err(x), Err(y)) => E::same_value(x, y),
            _ => false,
        }
    }

    proof fn lemma_encoding_injective(a: Result<T, E>, b: Result<T, E>) {
        assert(a.spec_encode()[0] == b.spec_encode()[0]);
        match (a, b) {
            (Ok(x), Ok(y)) => {
                assert(a.spec_encode().drop_first() =~= x.spec_encode());
                assert(b.spec_encode().drop_first() =~= y.spec_encode());
                T::lemma_encoding_injective(x, y);
            },
            (Err(x), Err(y)) => {
                assert(a.spec_encode().drop_first() =~= x.spec_encode());
                assert(b.spec_encode().drop_first() =~= y.spec_encode());
                E::lemma_encoding_injective(x, y);
            },
            (Ok(x), Err(y)) => {
                assert(a.spec_encode()[0] == 0u8);
                assert(b.spec_encode()[0] == 1u8);
            },
            (Err(x), Ok(y)) => {
                assert(a.spec_encode()[0] == 1u8);
                assert(b.spec_encode()[0] == 0u8);
            },
        }
    }
}

/// Shim type because we can't do a specialised implementation for `Option<bool>` directly.
#[derive(Eq, PartialEq, Clone, Copy, Debug)]
pub struct OptionBool(pub Option<bool>);

impl OptionBool {
    /// The byte an `OptionBool` encodes to: `None` is 0, `Some(true)` is 1, `Some(false)` is 2.
    pub open spec fn spec_byte(&self) -> u8 {
        match self.0 {
            None => 0u8,
            Some(true) => 1u8,
            Some(false) => 2u8,
        }
    }
}

impl Encode for OptionBool {
    open spec fn spec_encode(&self) -> Seq<u8> {
        seq![self.spec_byte()]
    }

    open spec fn encodable(&self) -> bool {
        true
    }

    fn size_hint(&self) -> (n: usize)
        ensures
            n == 1,
    {
        1
    }

    fn encode_to<W: Output>(&self, dest: &mut W) {
        let b: u8 = match self.0 {
            None => 0,
            Some(true) => 1,
            Some(false) => 2,
        };
        dest.push_byte(b);
        assert(dest.written() =~= old(dest).written() + self.spec_encode());
    }
}

impl Decode for OptionBool {
    open spec fn spec_parse(bytes: Seq<u8>) -> Option<nat> {
        if bytes.len() >= 1 && bytes[0] <= 2 {
            Some(1)
        } else {
            None
        }
    }

    /// A first byte above 2 is refused as "unexpected first byte decoding OptionBool", with only
    /// that byte read; an empty input is refused as a read past its end.
    fn decode<I: Input>(input: &mut I) -> (r: Result<OptionBool, Error>)
        ensures
            reads_fully(old(input)) && old(input).unread().len() > 0 && old(input).unread()[0] > 2 ==> (r matches Err(e)
                && e.description() == "unexpected first byte decoding OptionBool"@),
            reads_fully(old(input)) && old(input).unread().len() > 0 && old(input).unread()[0] > 2 ==> final(input).unread()
                == old(input).unread().drop_first(),
            old(input).unread().len() == 0 && old(input).short_read_error() is Some ==> (r matches Err(
                e,
            ) && old(input).short_read_error() == Some(e.description())),
    {
        let ghost s = old(input).unread();
        let b = input.read_byte()?;
        assert(s.skip(1) =~= s.drop_first());
        let v = if b == 0 {
            OptionBool(None)
        } else if b == 1 {
            OptionBool(Some(true))
        } else if b == 2 {
            OptionBool(Some(false))
        } else {
            return Err(Error::new("unexpected first byte decoding OptionBool"));
        };
        assert(s.take(1) =~= v.spec_encode());
        proof {
            assert(Self::spec_depth(old(input).unread()) == 0);
            assert(Self::spec_mem(old(input).unread(), mem_alignment(*old(input))) == 0);
            lemma_no_hooks(*old(input), *input, v);
        }
        Ok(v)
    }
}

impl DecodeLaws for OptionBool {
    proof fn lemma_parse_bounded(bytes: Seq<u8>) {
    }

    proof fn lemma_parse_encoding(v: OptionBool, rest: Seq<u8>) {
    }

    open spec fn same_value(a: OptionBool, b: OptionBool) -> bool {
        a == b
    }

    proof fn lemma_encoding_injective(a: OptionBool, b: OptionBool) {
        assert(a.spec_encode()[0] == a.spec_byte());
        assert(b.spec_encode()[0] == b.spec_byte());
    }
}

impl<A: Encode> Encode for (A,) {
    open spec fn spec_encode(&self) -> Seq<u8> {
        self.0.spec_encode()
    }

    open spec fn encodable(&self) -> bool {
        self.0.encodable()
    }

    fn size_hint(&self) -> (n: usize)
        ensures
            size_hint_of(&self.0, n),
    {
        hint_of(&self.0)
    }

    fn encode_to<W: Output>(&self, dest: &mut W) {
        self.0.encode_to(dest);
    }
}

impl<A: Decode> Decode for (A,) {
    open spec fn spec_parse(bytes: Seq<u8>) -> Option<nat> {
        A::spec_parse(bytes)
    }

    open spec fn spec_depth(bytes: Seq<u8>) -> nat {
        A::spec_depth(bytes)
    }

    open spec fn spec_mem(bytes: Seq<u8>, align: Option<MemAlignment>) -> nat {
        A::spec_mem(bytes, align)
    }

    fn decode<I: Input>(input: &mut I) -> (r: Result<(A,), Error>) {
        let ghost s = old(input).unread();
        let ghost s0 = *old(input);
        let ra = A::decode(input);
        let ghost ra_g = ra;
        let r = match ra {
            Err(e) => Err(e),
            Ok(a) => Ok((a,)),
        };
        proof {
            let al = mem_alignment(s0);
            assert(Self::spec_depth(s) == A::spec_depth(s));
            assert(Self::spec_mem(s, al) == A::spec_mem(s, al));
            if A::spec_parse(s) is Some {
                lemma_limits_same(s0, *input, ra_g, r, A::spec_depth(s), A::spec_mem(s, al));
            }
        }
        r
    }
}

impl<A: DecodeLaws> DecodeLaws for (A,) {
    proof fn lemma_parse_bounded(bytes: Seq<u8>) {
        A::lemma_parse_bounded(bytes);
    }

    proof fn lemma_parse_encoding(v: (A,), rest: Seq<u8>) {
        A::lemma_parse_encoding(v.0, rest);
    }

    open spec fn same_value(a: (A,), b: (A,)) -> bool {
        A::same_value(a.0, b.0)
    }

    proof fn lemma_encoding_injective(a: (A,), b: (A,)) {
        A::lemma_encoding_injective(a.0, b.0);
    }
}

impl<A: Encode, B: Encode> Encode for (A, B) {
    open spec fn spec_encode(&self) -> Seq<u8> {
        self.0.spec_encode() + self.1.spec_encode()
    }

    open spec fn encodable(&self) -> bool {
        self.0.encodable() && self.1.encodable()
    }

    fn size_hint(&self) -> (n: usize)
        ensures
            exists|h0: usize, h1: usize|
                size_hint_of(&self.0, h0) && size_hint_of(&self.1, h1) && n == saturated(h0 + h1),
    {
        let h0 = hint_of(&self.0);
        let h1 = hint_of(&self.1);
        h0.saturating_add(h1)
    }

    fn encode_to<W: Output>(&self, dest: &mut W) {
        self.0.encode_to(dest);
        self.1.encode_to(dest);
        assert(dest.written() =~= old(dest).written() + self.spec_encode());
    }
}

impl<A: Decode, B: Decode> Decode for (A, B) {
    open spec fn spec_parse(bytes: Seq<u8>) -> Option<nat> {
        pair_parse(A::spec_parse(bytes), |n: nat| B::spec_parse(bytes.skip(n as int)))
    }

    open spec fn spec_depth(bytes: Seq<u8>) -> nat {
        match A::spec_parse(bytes) {
            Some(n) => deeper(A::spec_depth(bytes), B::spec_depth(bytes.skip(n as int))),
            None => A::spec_depth(bytes),
        }
    }

    open spec fn spec_mem(bytes: Seq<u8>, align: Option<MemAlignment>) -> nat {
        match A::spec_parse(bytes) {
            Some(n) => A::spec_mem(bytes, align) + B::spec_mem(bytes.skip(n as int), align),
            None => A::spec_mem(bytes, align),
        }
    }

    fn decode<I: Input>(input: &mut I) -> (r: Result<(A, B), Error>) {
        let ghost s = old(input).unread();
        let ghost s0 = *old(input);
        let ghost al = mem_alignment(s0);
        let ra = A::decode(input);
        let ghost ra_g = ra;
        let ghost s1 = *input;
        let ghost da = A::spec_depth(s);
        let ghost ma = A::spec_mem(s, al);
        let ghost rest = s.skip(A::spec_parse(s).unwrap() as int);
        proof {
            if Self::spec_parse(s) is Some {
                assert(Self::spec_depth(s) == deeper(da, B::spec_depth(rest)));
                assert(Self::spec_mem(s, al) == ma + B::spec_mem(rest, al));
            }
        }
        let a = match ra {
            Ok(a) => a,
            Err(e) => {
                proof {
                    if Self::spec_parse(s) is Some {
                        lemma_limits_stop(
                            s0,
                            s1,
                            ra_g,
                            Err::<(A, B), Error>(e),
                            da,
                            ma,
                            B::spec_depth(rest),
                            B::spec_mem(rest, al),
                        );
                    }
                }
                return Err(e);
            },
        };
        let ghost mid = input.unread();
        let rb = B::decode(input);
        let ghost rb_g = rb;
        let b = match rb {
            Ok(b) => b,
            Err(e) => {
                proof {
                    if Self::spec_parse(s) is Some {
                        assert(mem_alignment(s1) == al);
                        lemma_limits_then(
                            s0,
                            s1,
                            *input,
                            ra_g,
                            rb_g,
                            Err::<(A, B), Error>(e),
                            da,
                            ma,
                            B::spec_depth(mid),
                            B::spec_mem(mid, al),
                        );
                    }
                }
                return Err(e);
            },
        };
        proof {
            if Self::spec_parse(s) is Some {
                lemma_two_parts(s, a.spec_encode(), mid, b.spec_encode(), input.unread());
                assert(mem_alignment(s1) == al);
                lemma_limits_then(
                    s0,
                    s1,
                    *input,
                    ra_g,
                    rb_g,
                    Ok::<(A, B), Error>((a, b)),
                    da,
                    ma,
                    B::spec_depth(mid),
                    B::spec_mem(mid, al),
                );
            }
        }
        Ok((a, b))
    }
}

impl<A: DecodeLaws, B: DecodeLaws> DecodeLaws for (A, B) {
    proof fn lemma_parse_bounded(bytes: Seq<u8>) {
        A::lemma_parse_bounded(bytes);
        if let Some(n) = A::spec_parse(bytes) {
            B::lemma_parse_bounded(bytes.skip(n as int));
        }
    }

    proof fn lemma_parse_encoding(v: (A, B), rest: Seq<u8>) {
        let ea = v.0.spec_encode();
        let eb = v.1.spec_encode();
        assert(ea + eb + rest =~= ea + (eb + rest));
        A::lemma_parse_encoding(v.0, eb + rest);
        assert((ea + (eb + rest)).skip(ea.len() as int) =~= eb + rest);
        B::lemma_parse_encoding(v.1, rest);
    }

    open spec fn same_value(a: (A, B), b: (A, B)) -> bool {
        A::same_value(a.0, b.0) && B::same_value(a.1, b.1)
    }

    proof fn lemma_encoding_injective(a: (A, B), b: (A, B)) {
        lemma_split_encodings(a.0, a.1.spec_encode(), b.0, b.1.spec_encode());
        A::lemma_encoding_injective(a.0, b.0);
        B::lemma_encoding_injective(a.1, b.1);
    }
}

impl<A: Encode, B: Encode, C: Encode> Encode for (A, B, C) {
    open spec fn spec_encode(&self) -> Seq<u8> {
        self.0.spec_encode() + self.1.spec_encode() + self.2.spec_encode()
    }

    open spec fn encodable(&self) -> bool {
        self.0.encodable() && self.1.encodable() && self.2.encodable()
    }

    fn size_hint(&self) -> (n: usize)
        ensures
            exists|h0: usize, h1: usize, h2: usize|
                size_hint_of(&self.0, h0) && size_hint_of(&self.1, h1) && size_hint_of(&self.2, h2)
                    && n == saturated(h0 + h1 + h2),
    {
        let h0 = hint_of(&self.0);
        let h1 = hint_of(&self.1);
        let h2 = hint_of(&self.2);
        h0.saturating_add(h1).saturating_add(h2)
    }

    fn encode_to<W: Output>(&self, dest: &mut W) {
        self.0.encode_to(dest);
        self.1.encode_to(dest);
        self.2.encode_to(dest);
        assert(dest.written() =~= old(dest).written() + self.spec_encode());
    }
}

impl<A: Decode, B: Decode, C: Decode> Decode for (A, B, C) {
    open spec fn spec_parse(bytes: Seq<u8>) -> Option<nat> {
        pair_parse(
            A::spec_parse(bytes),
            |n: nat|
                pair_parse(
                    B::spec_parse(bytes.skip(n as int)),
                    |m: nat| C::spec_parse(bytes.skip(n as int).skip(m as int)),
                ),
        )
    }

    open spec fn spec_depth(bytes: Seq<u8>) -> nat {
        match A::spec_parse(bytes) {
            Some(n) => deeper(A::spec_depth(bytes), <(B, C)>::spec_depth(bytes.skip(n as int))),
            None => A::spec_depth(bytes),
        }
    }

    open spec fn spec_mem(bytes: Seq<u8>, align: Option<MemAlignment>) -> nat {
        match A::spec_parse(bytes) {
            Some(n) => A::spec_mem(bytes, align) + <(B, C)>::spec_mem(bytes.skip(n as int), align),
            None => A::spec_mem(bytes, align),
        }
    }

    fn decode<I: Input>(input: &mut I) -> (r: Result<(A, B, C), Error>) {
        let ghost s = old(input).unread();
        let ghost s0 = *old(input);
        let ghost al = mem_alignment(s0);
        let ra = A::decode(input);
        let ghost ra_g = ra;
        let ghost s1 = *input;
        let ghost da = A::spec_depth(s);
        let ghost ma = A::spec_mem(s, al);
        let ghost rest = s.skip(A::spec_parse(s).unwrap() as int);
        proof {
            if Self::spec_parse(s) is Some {
                assert(Self::spec_depth(s) == deeper(da, <(B, C)>::spec_depth(rest)));
                assert(Self::spec_mem(s, al) == ma + <(B, C)>::spec_mem(rest, al));
            }
        }
        let a = match ra {
            Ok(a) => a,
            Err(e) => {
                proof {
                    if Self::spec_parse(s) is Some {
                        lemma_limits_stop(
                            s0,
                            s1,
                            ra_g,
                            Err::<(A, B, C), Error>(e),
                            da,
                            ma,
                            <(B, C)>::spec_depth(rest),
                            <(B, C)>::spec_mem(rest, al),
                        );
                    }
                }
                return Err(e);
            },
        };
        let ghost mid = input.unread();
        let rb = <(B, C)>::decode(input);
        let ghost rb_g = rb;
        let (b, c) = match rb {
            Ok(b) => b,
            Err(e) => {
                proof {
                    if Self::spec_parse(s) is Some {
                        assert(mem_alignment(s1) == al);
                        lemma_limits_then(
                            s0,
                            s1,
                            *input,
                            ra_g,
                            rb_g,
                            Err::<(A, B, C), Error>(e),
                            da,
                            ma,
                            <(B, C)>::spec_depth(mid),
                            <(B, C)>::spec_mem(mid, al),
                        );
                    }
                }
                return Err(e);
            },
        };
        proof {
            assert(a.spec_encode() + (b, c).spec_encode() =~= (a, b, c).spec_encode());
            if Self::spec_parse(s) is Some {
                lemma_two_parts(s, a.spec_encode(), mid, (b, c).spec_encode(), input.unread());
                assert(mem_alignment(s1) == al);
                lemma_limits_then(
                    s0,
                    s1,
                    *input,
                    ra_g,
                    rb_g,
                    Ok::<(A, B, C), Error>((a, b, c)),
                    da,
                    ma,
                    <(B, C)>::spec_depth(mid),
                    <(B, C)>::spec_mem(mid, al),
                );
            }
        }
        Ok((a, b, c))
    }
}

impl<A: DecodeLaws, B: DecodeLaws, C: DecodeLaws> DecodeLaws for (A, B, C) {
    proof fn lemma_parse_bounded(bytes: Seq<u8>) {
        A::lemma_parse_bounded(bytes);
        if let Some(n) = A::spec_parse(bytes) {
            B::lemma_parse_bounded(bytes.skip(n as int));
            if let Some(m) = B::spec_parse(bytes.skip(n as int)) {
                C::lemma_parse_bounded(bytes.skip(n as int).skip(m as int));
            }
        }
    }

    proof fn lemma_parse_encoding(v: (A, B, C), rest: Seq<u8>) {
        let ea = v.0.spec_encode();
        let eb = v.1.spec_encode();
        let ec = v.2.spec_encode();
        assert(ea + eb + ec + rest =~= ea + (eb + (ec + rest)));
        A::lemma_parse_encoding(v.0, eb + (ec + rest));
        assert((ea + (eb + (ec + rest))).skip(ea.len() as int) =~= eb + (ec + rest));
        B::lemma_parse_encoding(v.1, ec + rest);
        assert((eb + (ec + rest)).skip(eb.len() as int) =~= ec + rest);
        C::lemma_parse_encoding(v.2, rest);
    }

    open spec fn same_value(a: (A, B, C), b: (A, B, C)) -> bool {
        A::same_value(a.0, b.0) && B::same_value(a.1, b.1) && C::same_value(a.2, b.2)
    }

    proof fn lemma_encoding_injective(a: (A, B, C), b: (A, B, C)) {
        let (a0, a1, a2) = (a.0.spec_encode(), a.1.spec_encode(), a.2.spec_encode());
        let (b0, b1, b2) = (b.0.spec_encode(), b.1.spec_encode(), b.2.spec_encode());
        assert(a0 + a1 + a2 =~= a0 + (a1 + a2));
        assert(b0 + b1 + b2 =~= b0 + (b1 + b2));
        lemma_split_encodings(a.0, a1 + a2, b.0, b1 + b2);
        lemma_split_encodings(a.1, a2, b.1, b2);
        A::lemma_encoding_injective(a.0, b.0);
        B::lemma_encoding_injective(a.1, b.1);
        C::lemma_encoding_injective(a.2, b.2);
    }
}

/// A marker for types that are a reference to, or an owner of, a value of their `Deref::Target`.
///
/// Such types carry nothing more that would need to be encoded: each encodes as the value it
/// refers to, as their `Encode` impls state.
pub trait WrapperTypeEncode: core::ops::Deref {

}

impl<T: ?Sized> WrapperTypeEncode for Box<T> {

}

impl<'a, T: ?Sized> WrapperTypeEncode for &'a T {

}

impl<'a, T: ?Sized> WrapperTypeEncode for &'a mut T {

}

impl<T: ?Sized> WrapperTypeEncode for std::rc::Rc<T> {

}

impl<T: ?Sized> WrapperTypeEncode for std::sync::Arc<T> {

}

impl WrapperTypeEncode for String {

}

/// A marker for types that can be made solely from a value of another decodable type, and
/// decode as it does, as their `Decode` impls state.
pub trait WrapperTypeDecode: Sized {
    /// The wrapped type.
    type Wrapped: Into<Self>;
}

impl<T> WrapperTypeDecode for Box<T> {
    type Wrapped = T;
}

impl<T> WrapperTypeDecode for std::rc::Rc<T> {
    type Wrapped = T;
}

impl<T> WrapperTypeDecode for std::sync::Arc<T> {
    type Wrapped = T;
}

impl<T: Encode + ?Sized> Encode for Box<T> {
    open spec fn spec_encode(&self) -> Seq<u8> {
        (**self).spec_encode()
    }

    open spec fn encodable(&self) -> bool {
        (**self).encodable()
    }

    fn size_hint(&self) -> (n: usize) {
        (**self).size_hint()
    }

    fn encode_to<W: Output>(&self, dest: &mut W) {
        (**self).encode_to(dest);
    }
}

impl<T: Decode> Decode for Box<T> {
    open spec fn spec_parse(bytes: Seq<u8>) -> Option<nat> {
        T::spec_parse(bytes)
    }

    open spec fn spec_depth(bytes: Seq<u8>) -> nat {
        T::spec_depth(bytes) + 1
    }

    open spec fn spec_mem(bytes: Seq<u8>, align: Option<MemAlignment>) -> nat {
        T::spec_mem(bytes, align)
    }

    /// The input is descended into before the value is read, and ascended from after it; a
    /// refused descent is returned with nothing read.
    fn decode<I: Input>(input: &mut I) -> (r: Result<Box<T>, Error>)
        ensures
            old(input).depth_count() matches Some((d, m)) && d >= m ==> (r matches Err(e)
                && e.description() == DEPTH_LIMIT_ERR_MSG@ && final(input).unread() == old(
                input,
            ).unread()),
    {
        let ghost s = old(input).unread();
        let ghost s0 = *old(input);
        let ghost al = mem_alignment(s0);
        let ghost dv = T::spec_depth(s);
        let ghost mv = T::spec_mem(s, al);
        let rd = input.descend_ref();
        let ghost rd_g = rd;
        let ghost s1 = *input;
        proof {
            assert(Self::spec_depth(s) == dv + 1);
            assert(Self::spec_mem(s, al) == mv);
            assert(mem_alignment(s1) == al);
        }
        match rd {
            Ok(()) => {},
            Err(e) => {
                proof {
                    if T::spec_parse(s) is Some {
                        lemma_limits_nested(
                            s0,
                            s1,
                            s1,
                            s1,
                            rd_g,
                            Err::<T, Error>(e),
                            Err::<Box<T>, Error>(e),
                            dv,
                            mv,
                        );
                    }
                }
                return Err(e);
            },
        }
        let rv = T::decode(input);
        let ghost rv_g = rv;
        let ghost s2 = *input;
        let v = match rv {
            Ok(v) => v,
            Err(e) => {
                proof {
                    if T::spec_parse(s) is Some {
                        lemma_limits_nested(s0, s1, s2, s2, rd_g, rv_g, Err::<Box<T>, Error>(e), dv, mv);
                    }
                }
                return Err(e);
            },
        };
        input.ascend_ref();
        proof {
            if T::spec_parse(s) is Some {
                lemma_limits_nested(
                    s0,
                    s1,
                    s2,
                    *input,
                    rd_g,
                    rv_g,
                    Ok::<Box<T>, Error>(Box::new(v)),
                    dv,
                    mv,
                );
            }
        }
        Ok(Box::new(v))
    }
}

impl<T: DecodeLaws> DecodeLaws for Box<T> {
    proof fn lemma_parse_bounded(bytes: Seq<u8>) {
        T::lemma_parse_bounded(bytes);
    }

    proof fn lemma_parse_encoding(v: Box<T>, rest: Seq<u8>) {
        T::lemma_parse_encoding(*v, rest);
    }

    open spec fn same_value(a: Box<T>, b: Box<T>) -> bool {
        T::same_value(*a, *b)
    }

    proof fn lemma_encoding_injective(a: Box<T>, b: Box<T>) {
        T::lemma_encoding_injective(*a, *b);
    }
}

impl<T> Encode for core::marker::PhantomData<T> {
    open spec fn spec_encode(&self) -> Seq<u8> {
        Seq::empty()
    }

    open spec fn encodable(&self) -> bool {
        true
    }

    fn size_hint(&self) -> (n: usize)
        ensures
            n == 0,
    {
        0
    }

    fn encode_to<W: Output>(&self, dest: &mut W) {
        assert(old(dest).written() + Seq::<u8>::empty() =~= old(dest).written());
    }
}

impl<T> Decode for core::marker::PhantomData<T> {
    open spec fn spec_parse(bytes: Seq<u8>) -> Option<nat> {
        Some(0)
    }

    fn decode<I: Input>(input: &mut I) -> (r: Result<core::marker::PhantomData<T>, Error>) {
        assert(old(input).unread().take(0) =~= Seq::<u8>::empty());
        assert(old(input).unread().skip(0) =~= old(input).unread());
        proof {
            assert(Self::spec_depth(old(input).unread()) == 0);
            assert(Self::spec_mem(old(input).unread(), mem_alignment(*old(input))) == 0);
            lemma_no_hooks(*old(input), *input, core::marker::PhantomData::<T>);
        }
        Ok(core::marker::PhantomData)
    }
}

impl<T> DecodeLaws for core::marker::PhantomData<T> {
    proof fn lemma_parse_bounded(bytes: Seq<u8>) {
    }

    proof fn lemma_parse_encoding(v: core::marker::PhantomData<T>, rest: Seq<u8>) {
    }

    open spec fn same_value(a: core::marker::PhantomData<T>, b: core::marker::PhantomData<T>) -> bool {
        a == b
    }

    proof fn lemma_encoding_injective(a: core::marker::PhantomData<T>, b: core::marker::PhantomData<T>) {
    }
}

/// The decoding of `(A, B)` read from `input`, for the two halves of a range.
fn decode_two<T: Decode, I: Input>(input: &mut I) -> (r: Result<(T, T), Error>)
    ensures
        final(input).hooks_succeed() == old(input).hooks_succeed(),
        <(T, T)>::spec_parse(old(input).unread()) is Some ==> (r matches Ok(v) ==> <(
            T,
            T,
        )>::spec_parse(old(input).unread()) == Some(v.spec_encode().len())),
        <(T, T)>::spec_parse(old(input).unread()) is Some ==> (r matches Ok(v) ==> decodes_to(
            v,
            old(input).unread(),
            final(input).unread(),
        )),
        r is Err ==> <(T, T)>::spec_parse(old(input).unread()) is None || !old(
            input,
        ).hooks_succeed(),
        <(T, T)>::spec_parse(old(input).unread()) is Some ==> limits_kept(
            *old(input),
            *final(input),
            r,
            <(T, T)>::spec_depth(old(input).unread()),
            <(T, T)>::spec_mem(old(input).unread(), mem_alignment(*old(input))),
        ),
{
    <(T, T)>::decode(input)
}

impl<T: Encode> Encode for core::ops::Range<T> {
    open spec fn spec_encode(&self) -> Seq<u8> {
        self.start.spec_encode() + self.end.spec_encode()
    }

    open spec fn encodable(&self) -> bool {
        self.start.encodable() && self.end.encodable()
    }

    fn size_hint(&self) -> (n: usize)
        ensures
            exists|h0: usize, h1: usize|
                size_hint_of(&self.start, h0) && size_hint_of(&self.end, h1) && n == saturated(h0 + h1),
    {
        let h0 = hint_of(&self.start);
        let h1 = hint_of(&self.end);
        h0.saturating_add(h1)
    }

    fn encode_to<W: Output>(&self, dest: &mut W) {
        self.start.encode_to(dest);
        self.end.encode_to(dest);
        assert(dest.written() =~= old(dest).written() + self.spec_encode());
    }
}

impl<T: Decode> Decode for core::ops::Range<T> {
    open spec fn spec_parse(bytes: Seq<u8>) -> Option<nat> {
        <(T, T)>::spec_parse(bytes)
    }

    open spec fn spec_depth(bytes: Seq<u8>) -> nat {
        <(T, T)>::spec_depth(bytes)
    }

    open spec fn spec_mem(bytes: Seq<u8>, align: Option<MemAlignment>) -> nat {
        <(T, T)>::spec_mem(bytes, align)
    }

    fn decode<I: Input>(input: &mut I) -> (r: Result<core::ops::Range<T>, Error>) {
        let ghost s = old(input).unread();
        let ghost s0 = *old(input);
        let ghost al = mem_alignment(s0);
        let ri = decode_two::<T, I>(input);
        let ghost ri_g = ri;
        let r = match ri {
            Ok((start, end)) => Ok(core::ops::Range { start, end }),
            Err(e) => Err(e.chain("Could not decode `Range<T>`")),
        };
        proof {
            assert(Self::spec_depth(s) == <(T, T)>::spec_depth(s));
            assert(Self::spec_mem(s, al) == <(T, T)>::spec_mem(s, al));
            if <(T, T)>::spec_parse(s) is Some {
                lemma_limits_same(s0, *input, ri_g, r, <(T, T)>::spec_depth(s), <(T, T)>::spec_mem(s, al));
            }
        }
        r
    }
}

impl<T: DecodeLaws> DecodeLaws for core::ops::Range<T> {
    proof fn lemma_parse_bounded(bytes: Seq<u8>) {
        <(T, T)>::lemma_parse_bounded(bytes);
    }

    proof fn lemma_parse_encoding(v: core::ops::Range<T>, rest: Seq<u8>) {
        <(T, T)>::lemma_parse_encoding((v.start, v.end), rest);
    }

    open spec fn same_value(a: core::ops::Range<T>, b: core::ops::Range<T>) -> bool {
        T::same_value(a.start, b.start) && T::same_value(a.end, b.end)
    }

    proof fn lemma_encoding_injective(a: core::ops::Range<T>, b: core::ops::Range<T>) {
        lemma_split_encodings(a.start, a.end.spec_encode(), b.start, b.end.spec_encode());
        T::lemma_encoding_injective(a.start, b.start);
        T::lemma_encoding_injective(a.end, b.end);
    }
}

/// Calls std's `RangeInclusive::start`, documented to return the range's lower bound. The
/// contract claims that the result is the `start` of the range's view.
#[verifier::external_body]
fn range_inclusive_start<T>(r: &core::ops::RangeInclusive<T>) -> (s: &T)
    ensures
        *s == r@.start,
{
    r.start()
}

/// Calls std's `RangeInclusive::end`, documented to return the range's upper bound. The
/// contract claims that the result is the `end` of the range's view.
#[verifier::external_body]
fn range_inclusive_end<T>(r: &core::ops::RangeInclusive<T>) -> (e: &T)
    ensures
        *e == r@.end,
{
    r.end()
}

impl<T: Encode> Encode for core::ops::RangeInclusive<T> {
    open spec fn spec_encode(&self) -> Seq<u8> {
        self@.start.spec_encode() + self@.end.spec_encode()
    }

    open spec fn encodable(&self) -> bool {
        self@.start.encodable() && self@.end.encodable()
    }

    fn size_hint(&self) -> (n: usize)
        ensures
            exists|h0: usize, h1: usize|
                size_hint_of(&self@.start, h0) && size_hint_of(&self@.end, h1) && n == saturated(h0 + h1),
    {
        let h0 = hint_of(range_inclusive_start(self));
        let h1 = hint_of(range_inclusive_end(self));
        h0.saturating_add(h1)
    }

    fn encode_to<W: Output>(&self, dest: &mut W) {
        range_inclusive_start(self).encode_to(dest);
        range_inclusive_end(self).encode_to(dest);
        assert(dest.written() =~= old(dest).written() + self.spec_encode());
    }
}

impl<T: Decode> Decode for core::ops::RangeInclusive<T> {
    open spec fn spec_parse(bytes: Seq<u8>) -> Option<nat> {
        <(T, T)>::spec_parse(bytes)
    }

    open spec fn spec_depth(bytes: Seq<u8>) -> nat {
        <(T, T)>::spec_depth(bytes)
    }

    open spec fn spec_mem(bytes: Seq<u8>, align: Option<MemAlignment>) -> nat {
        <(T, T)>::spec_mem(bytes, align)
    }

    fn decode<I: Input>(input: &mut I) -> (r: Result<core::ops::RangeInclusive<T>, Error>) {
        let ghost s = old(input).unread();
        let ghost s0 = *old(input);
        let ghost al = mem_alignment(s0);
        let ri = decode_two::<T, I>(input);
        let ghost ri_g = ri;
        let r = match ri {
            Ok((start, end)) => Ok(core::ops::RangeInclusive::new(start, end)),
            Err(e) => Err(e.chain("Could not decode `RangeInclusive<T>`")),
        };
        proof {
            assert(Self::spec_depth(s) == <(T, T)>::spec_depth(s));
            assert(Self::spec_mem(s, al) == <(T, T)>::spec_mem(s, al));
            if <(T, T)>::spec_parse(s) is Some {
                lemma_limits_same(s0, *input, ri_g, r, <(T, T)>::spec_depth(s), <(T, T)>::spec_mem(s, al));
            }
        }
        r
    }
}

impl<T: DecodeLaws> DecodeLaws for core::ops::RangeInclusive<T> {
    proof fn lemma_parse_bounded(bytes: Seq<u8>) {
        <(T, T)>::lemma_parse_bounded(bytes);
    }

    proof fn lemma_parse_encoding(v: core::ops::RangeInclusive<T>, rest: Seq<u8>) {
        <(T, T)>::lemma_parse_encoding((v@.start, v@.end), rest);
    }

    open spec fn same_value(a: core::ops::RangeInclusive<T>, b: core::ops::RangeInclusive<T>) -> bool {
        T::same_value(a@.start, b@.start) && T::same_value(a@.end, b@.end)
    }

    proof fn lemma_encoding_injective(a: core::ops::RangeInclusive<T>, b: core::ops::RangeInclusive<T>) {
        lemma_split_encodings(a@.start, a@.end.spec_encode(), b@.start, b@.end.spec_encode());
        T::lemma_encoding_injective(a@.start, b@.start);
        T::lemma_encoding_injective(a@.end, b@.end);
    }
}

/// The number of nanoseconds in a second.
pub const A_BILLION: u32 = 1_000_000_000;

/// A span of time: whole seconds and the nanoseconds below a second.
#[derive(PartialEq, Eq, Clone, Copy, Debug)]
pub struct Duration {
    secs: u64,
    nanos: u32,
}

impl Duration {
    /// The whole seconds.
    pub closed spec fn spec_secs(&self) -> u64 {
        self.secs
    }

    /// The nanoseconds below a second.
    pub closed spec fn spec_nanos(&self) -> u32 {
        self.nanos
    }

    /// A duration of `secs` seconds and `nanos` nanoseconds; whole seconds in `nanos` carry over.
    pub fn new(secs: u64, nanos: u32) -> (d: Duration)
        requires
            secs + nanos / A_BILLION <= u64::MAX,
        ensures
            d.spec_secs() == secs + nanos / A_BILLION,
            d.spec_nanos() == nanos % A_BILLION,
            d.encodable(),
    {
        Duration { secs: secs + (nanos / A_BILLION) as u64, nanos: nanos % A_BILLION }
    }

    /// A duration of `nanos` nanoseconds.
    pub fn from_nanos(nanos: u64) -> (d: Duration)
        ensures
            d.spec_secs() == nanos / (A_BILLION as u64),
            d.spec_nanos() == nanos % (A_BILLION as u64),
            d.encodable(),
    {
        Duration { secs: nanos / (A_BILLION as u64), nanos: (nanos % (A_BILLION as u64)) as u32 }
    }

    /// The whole seconds of the duration.
    pub fn as_secs(&self) -> (s: u64)
        ensures
            s == self.spec_secs(),
    {
        self.secs
    }

    /// The nanoseconds below a second.
    pub fn subsec_nanos(&self) -> (n: u32)
        ensures
            n == self.spec_nanos(),
    {
        self.nanos
    }
}

impl Encode for Duration {
    open spec fn spec_encode(&self) -> Seq<u8> {
        (self.spec_secs(), self.spec_nanos()).spec_encode()
    }

    /// A duration is well formed when it has fewer than a billion nanoseconds below its seconds.
    open spec fn encodable(&self) -> bool {
        self.spec_nanos() < A_BILLION
    }

    fn size_hint(&self) -> (n: usize)
        ensures
            n == 12,
    {
        12
    }

    fn encode_to<W: Output>(&self, dest: &mut W) {
        let secs = self.as_secs();
        let nanos = self.subsec_nanos();
        (secs, nanos).encode_to(dest);
    }
}

impl Decode for Duration {
    open spec fn spec_parse(bytes: Seq<u8>) -> Option<nat> {
        if bytes.len() >= 12 && le_value(bytes.subrange(8, 12)) < A_BILLION {
            Some(12)
        } else {
            None
        }
    }

    open spec fn spec_depth(bytes: Seq<u8>) -> nat {
        <(u64, u32)>::spec_depth(bytes)
    }

    open spec fn spec_mem(bytes: Seq<u8>, align: Option<MemAlignment>) -> nat {
        <(u64, u32)>::spec_mem(bytes, align)
    }

    /// Twelve bytes whose last four hold a billion or more are refused as "Could not decode
    /// `Duration`: Number of nanoseconds should not be higher than 10^9.", where the input's
    /// hooks succeed.
    fn decode<I: Input>(input: &mut I) -> (r: Result<Duration, Error>)
        ensures
            old(input).hooks_succeed() && old(input).unread().len() >= 12 && le_value(
                old(input).unread().subrange(8, 12),
            ) >= A_BILLION ==> (r matches Err(e) && e.description()
                == "Could not decode `Duration`: Number of nanoseconds should not be higher than 10^9."@),
    {
        let ghost s = old(input).unread();
        proof {
            lemma_le_bytes_len(0, 8);
            lemma_le_bytes_len(0, 4);
        }
        let ghost s0 = *old(input);
        let ghost al = mem_alignment(s0);
        let rp = <(u64, u32)>::decode(input);
        let ghost rp_g = rp;
        proof {
            assert(Self::spec_depth(s) == <(u64, u32)>::spec_depth(s));
            assert(Self::spec_mem(s, al) == <(u64, u32)>::spec_mem(s, al));
        }
        let (secs, nanos) = match rp {
            Ok(p) => p,
            Err(e) => {
                let e = e.chain("Could not decode `Duration(u64, u32)`");
                proof {
                    if <(u64, u32)>::spec_parse(s) is Some {
                        lemma_limits_same(
                            s0,
                            *input,
                            rp_g,
                            Err::<Duration, Error>(e),
                            <(u64, u32)>::spec_depth(s),
                            <(u64, u32)>::spec_mem(s, al),
                        );
                    }
                }
                return Err(e);
            },
        };
        proof {
            lemma_le_bytes_len(secs as nat, 8);
            lemma_le_bytes_len(nanos as nat, 4);
            lemma_pow256_small();
            if <(u64, u32)>::spec_parse(s) is Some {
                assert(s.subrange(8, 12) =~= s.take(12).skip(8));
                assert(s.take(12).skip(8) =~= le_bytes(nanos as nat, 4));
                lemma_le_value_of_bytes(nanos as nat, 4);
            }
        }
        if nanos >= A_BILLION {
            Err(
                Error::new(
                    "Could not decode `Duration`: Number of nanoseconds should not be higher than 10^9.",
                ),
            )
        } else {
            proof {
                if <(u64, u32)>::spec_parse(s) is Some {
                    lemma_limits_same(
                        s0,
                        *input,
                        rp_g,
                        Ok::<Duration, Error>(Duration { secs, nanos }),
                        <(u64, u32)>::spec_depth(s),
                        <(u64, u32)>::spec_mem(s, al),
                    );
                }
            }
            Ok(Duration { secs, nanos })
        }
    }
}

impl DecodeLaws for Duration {
    proof fn lemma_parse_bounded(bytes: Seq<u8>) {
    }

    proof fn lemma_parse_encoding(v: Duration, rest: Seq<u8>) {
        let es = le_bytes(v.spec_secs() as nat, 8);
        let en = le_bytes(v.spec_nanos() as nat, 4);
        lemma_le_bytes_len(v.spec_secs() as nat, 8);
        lemma_le_bytes_len(v.spec_nanos() as nat, 4);
        lemma_pow256_small();
        lemma_le_value_of_bytes(v.spec_nanos() as nat, 4);
        assert((es + en + rest).subrange(8, 12) =~= en);
    }

    open spec fn same_value(a: Duration, b: Duration) -> bool {
        a == b
    }

    proof fn lemma_encoding_injective(a: Duration, b: Duration) {
        <(u64, u32)>::lemma_encoding_injective(
            (a.spec_secs(), a.spec_nanos()),
            (b.spec_secs(), b.spec_nanos()),
        );
    }
}

impl<T: Encode + ?Sized> Encode for std::rc::Rc<T> {
    open spec fn spec_encode(&self) -> Seq<u8> {
        (**self).spec_encode()
    }

    open spec fn encodable(&self) -> bool {
        (**self).encodable()
    }

    fn size_hint(&self) -> (n: usize) {
        (**self).size_hint()
    }

    fn encode_to<W: Output>(&self, dest: &mut W) {
        (**self).encode_to(dest);
    }
}


/// The value a shared pointer points to.
pub open spec fn rc_value<T>(p: std::rc::Rc<T>) -> T {
    *p
}

impl<T: Decode> Decode for std::rc::Rc<T> {
    open spec fn spec_parse(bytes: Seq<u8>) -> Option<nat> {
        T::spec_parse(bytes)
    }

    open spec fn spec_depth(bytes: Seq<u8>) -> nat {
        T::spec_depth(bytes) + 1
    }

    open spec fn spec_mem(bytes: Seq<u8>, align: Option<MemAlignment>) -> nat {
        T::spec_mem(bytes, align)
    }

    /// The input is descended into before the value is read, and ascended from after it; a
    /// refused descent is returned with nothing read.
    fn decode<I: Input>(input: &mut I) -> (r: Result<std::rc::Rc<T>, Error>)
        ensures
            old(input).depth_count() matches Some((d, m)) && d >= m ==> (r matches Err(e)
                && e.description() == DEPTH_LIMIT_ERR_MSG@ && final(input).unread() == old(
                input,
            ).unread()),
    {
        let ghost s = old(input).unread();
        let ghost s0 = *old(input);
        let ghost al = mem_alignment(s0);
        let ghost dv = T::spec_depth(s);
        let ghost mv = T::spec_mem(s, al);
        let rd = input.descend_ref();
        let ghost rd_g = rd;
        let ghost s1 = *input;
        proof {
            assert(Self::spec_depth(s) == dv + 1);
            assert(Self::spec_mem(s, al) == mv);
            assert(mem_alignment(s1) == al);
        }
        match rd {
            Ok(()) => {},
            Err(e) => {
                proof {
                    if T::spec_parse(s) is Some {
                        lemma_limits_nested(
                            s0,
                            s1,
                            s1,
                            s1,
                            rd_g,
                            Err::<T, Error>(e),
                            Err::<std::rc::Rc<T>, Error>(e),
                            dv,
                            mv,
                        );
                    }
                }
                return Err(e);
            },
        }
        let rv = T::decode(input);
        let ghost rv_g = rv;
        let ghost s2 = *input;
        let v = match rv {
            Ok(v) => v,
            Err(e) => {
                proof {
                    if T::spec_parse(s) is Some {
                        lemma_limits_nested(s0, s1, s2, s2, rd_g, rv_g, Err::<std::rc::Rc<T>, Error>(e), dv, mv);
                    }
                }
                return Err(e);
            },
        };
        input.ascend_ref();
        proof {
            if T::spec_parse(s) is Some {
                lemma_limits_nested(
                    s0,
                    s1,
                    s2,
                    *input,
                    rd_g,
                    rv_g,
                    Ok::<std::rc::Rc<T>, Error>(std::rc::Rc::new(v)),
                    dv,
                    mv,
                );
            }
        }
        Ok(std::rc::Rc::new(v))
    }
}

impl<T: DecodeLaws> DecodeLaws for std::rc::Rc<T> {
    proof fn lemma_parse_bounded(bytes: Seq<u8>) {
        T::lemma_parse_bounded(bytes);
    }

    proof fn lemma_parse_encoding(v: std::rc::Rc<T>, rest: Seq<u8>) {
        T::lemma_parse_encoding(rc_value(v), rest);
    }

    open spec fn same_value(a: std::rc::Rc<T>, b: std::rc::Rc<T>) -> bool {
        T::same_value(rc_value(a), rc_value(b))
    }

    proof fn lemma_encoding_injective(a: std::rc::Rc<T>, b: std::rc::Rc<T>) {
        T::lemma_encoding_injective(rc_value(a), rc_value(b));
    }
}

impl<T: Encode + ?Sized> Encode for std::sync::Arc<T> {
    open spec fn spec_encode(&self) -> Seq<u8> {
        (**self).spec_encode()
    }

    open spec fn encodable(&self) -> bool {
        (**self).encodable()
    }

    fn size_hint(&self) -> (n: usize) {
        (**self).size_hint()
    }

    fn encode_to<W: Output>(&self, dest: &mut W) {
        (**self).encode_to(dest);
    }
}

/// The value a shared pointer points to.
pub open spec fn arc_value<T>(p: std::sync::Arc<T>) -> T {
    *p
}

impl<T: Decode> Decode for std::sync::Arc<T> {
    open spec fn spec_parse(bytes: Seq<u8>) -> Option<nat> {
        T::spec_parse(bytes)
    }

    open spec fn spec_depth(bytes: Seq<u8>) -> nat {
        T::spec_depth(bytes) + 1
    }

    open spec fn spec_mem(bytes: Seq<u8>, align: Option<MemAlignment>) -> nat {
        T::spec_mem(bytes, align)
    }

    /// The input is descended into before the value is read, and ascended from after it; a
    /// refused descent is returned with nothing read.
    fn decode<I: Input>(input: &mut I) -> (r: Result<std::sync::Arc<T>, Error>)
        ensures
            old(input).depth_count() matches Some((d, m)) && d >= m ==> (r matches Err(e)
                && e.description() == DEPTH_LIMIT_ERR_MSG@ && final(input).unread() == old(
                input,
            ).unread()),
    {
        let ghost s = old(input).unread();
        let ghost s0 = *old(input);
        let ghost al = mem_alignment(s0);
        let ghost dv = T::spec_depth(s);
        let ghost mv = T::spec_mem(s, al);
        let rd = input.descend_ref();
        let ghost rd_g = rd;
        let ghost s1 = *input;
        proof {
            assert(Self::spec_depth(s) == dv + 1);
            assert(Self::spec_mem(s, al) == mv);
            assert(mem_alignment(s1) == al);
        }
        match rd {
            Ok(()) => {},
            Err(e) => {
                proof {
                    if T::spec_parse(s) is Some {
                        lemma_limits_nested(
                            s0,
                            s1,
                            s1,
                            s1,
                            rd_g,
                            Err::<T, Error>(e),
                            Err::<std::sync::Arc<T>, Error>(e),
                            dv,
                            mv,
                        );
                    }
                }
                return Err(e);
            },
        }
        let rv = T::decode(input);
        let ghost rv_g = rv;
        let ghost s2 = *input;
        let v = match rv {
            Ok(v) => v,
            Err(e) => {
                proof {
                    if T::spec_parse(s) is Some {
                        lemma_limits_nested(s0, s1, s2, s2, rd_g, rv_g, Err::<std::sync::Arc<T>, Error>(e), dv, mv);
                    }
                }
                return Err(e);
            },
        };
        input.ascend_ref();
        proof {
            if T::spec_parse(s) is Some {
                lemma_limits_nested(
                    s0,
                    s1,
                    s2,
                    *input,
                    rd_g,
                    rv_g,
                    Ok::<std::sync::Arc<T>, Error>(std::sync::Arc::new(v)),
                    dv,
                    mv,
                );
            }
        }
        Ok(std::sync::Arc::new(v))
    }
}

impl<T: DecodeLaws> DecodeLaws for std::sync::Arc<T> {
    proof fn lemma_parse_bounded(bytes: Seq<u8>) {
        T::lemma_parse_bounded(bytes);
    }

    proof fn lemma_parse_encoding(v: std::sync::Arc<T>, rest: Seq<u8>) {
        T::lemma_parse_encoding(arc_value(v), rest);
    }

    open spec fn same_value(a: std::sync::Arc<T>, b: std::sync::Arc<T>) -> bool {
        T::same_value(arc_value(a), arc_value(b))
    }

    proof fn lemma_encoding_injective(a: std::sync::Arc<T>, b: std::sync::Arc<T>) {
        T::lemma_encoding_injective(arc_value(a), arc_value(b));
    }
}



/// A borrowed or owned value encodes as the value itself.
impl<'a, T: Encode + Clone> Encode for Cow<'a, T> {
    open spec fn spec_encode(&self) -> Seq<u8> {
        match self {
            Cow::Borrowed(b) => (**b).spec_encode(),
            Cow::Owned(o) => o.spec_encode(),
        }
    }

    open spec fn encodable(&self) -> bool {
        match self {
            Cow::Borrowed(b) => (**b).encodable(),
            Cow::Owned(o) => o.encodable(),
        }
    }

    fn size_hint(&self) -> (n: usize) {
        match self {
            Cow::Borrowed(b) => (**b).size_hint(),
            Cow::Owned(o) => o.size_hint(),
        }
    }

    fn encode_to<W: Output>(&self, dest: &mut W) {
        match self {
            Cow::Borrowed(b) => (**b).encode_to(dest),
            Cow::Owned(o) => o.encode_to(dest),
        }
    }
}

/// A value is decoded as an owned one.
impl<'a, T: Decode + Clone> Decode for Cow<'a, T> {
    open spec fn spec_parse(bytes: Seq<u8>) -> Option<nat> {
        T::spec_parse(bytes)
    }

    open spec fn spec_depth(bytes: Seq<u8>) -> nat {
        T::spec_depth(bytes)
    }

    open spec fn spec_mem(bytes: Seq<u8>, align: Option<MemAlignment>) -> nat {
        T::spec_mem(bytes, align)
    }

    fn decode<I: Input>(input: &mut I) -> (r: Result<Cow<'a, T>, Error>) {
        let ghost s = old(input).unread();
        let ghost s0 = *old(input);
        let ghost al = mem_alignment(s0);
        let ri = T::decode(input);
        let ghost ri_g = ri;
        let r = match ri {
            Ok(v) => Ok(Cow::Owned(v)),
            Err(e) => Err(e),
        };
        proof {
            assert(Self::spec_depth(s) == T::spec_depth(s));
            assert(Self::spec_mem(s, al) == T::spec_mem(s, al));
            if T::spec_parse(s) is Some {
                lemma_limits_same(s0, *input, ri_g, r, T::spec_depth(s), T::spec_mem(s, al));
            }
        }
        r
    }
}

impl<'a, T: DecodeLaws + Clone> DecodeLaws for Cow<'a, T> {
    proof fn lemma_parse_bounded(bytes: Seq<u8>) {
        T::lemma_parse_bounded(bytes);
    }

    proof fn lemma_parse_encoding(v: Cow<'a, T>, rest: Seq<u8>) {
        match v {
            Cow::Borrowed(b) => T::lemma_parse_encoding(*b, rest),
            Cow::Owned(o) => T::lemma_parse_encoding(o, rest),
        }
    }

    open spec fn same_value(a: Cow<'a, T>, b: Cow<'a, T>) -> bool {
        T::same_value(cow_value(a), cow_value(b))
    }

    proof fn lemma_encoding_injective(a: Cow<'a, T>, b: Cow<'a, T>) {
        T::lemma_encoding_injective(cow_value(a), cow_value(b));
    }
}

/// The value that a borrowed or owned value stands for.
pub open spec fn cow_value<'a, T: Clone>(c: Cow<'a, T>) -> T {
    match c {
        Cow::Borrowed(b) => *b,
        Cow::Owned(o) => o,
    }
}

/// The items of a borrowed or owned slice.
pub open spec fn cow_items<'a, T: Clone>(c: &Cow<'a, [T]>) -> Seq<T> {
    match c {
        Cow::Borrowed(b) => b@,
        Cow::Owned(o) => o@,
    }
}

/// A borrowed or owned slice encodes as its items, with their number in front.
impl<'a, T: Encode + Clone> Encode for Cow<'a, [T]> {
    open spec fn spec_encode(&self) -> Seq<u8> {
        prefixed_items_encoding(cow_items(self))
    }

    open spec fn encodable(&self) -> bool {
        cow_items(self).len() <= u32::MAX && all_encodable(cow_items(self))
    }

    fn size_hint(&self) -> (n: usize)
        ensures
            n == saturated(4 + core::mem::size_of::<T>() * cow_items(self).len()),
    {
        let len = match self {
            Cow::Borrowed(b) => b.len(),
            Cow::Owned(o) => o.len(),
        };
        4usize.saturating_add(mul_or_max(core::mem::size_of::<T>(), len))
    }

    fn encode_to<W: Output>(&self, dest: &mut W) {
        match self {
            Cow::Borrowed(b) => b.encode_to(dest),
            Cow::Owned(o) => o.as_slice().encode_to(dest),
        }
    }
}

/// A slice is decoded as an owned vector.
impl<'a, T: Decode + Clone> Decode for Cow<'a, [T]> {
    open spec fn spec_parse(bytes: Seq<u8>) -> Option<nat> {
        prefixed_items_parse::<T>(bytes)
    }

    open spec fn spec_depth(bytes: Seq<u8>) -> nat {
        <Vec<T>>::spec_depth(bytes)
    }

    open spec fn spec_mem(bytes: Seq<u8>, align: Option<MemAlignment>) -> nat {
        <Vec<T>>::spec_mem(bytes, align)
    }

    fn decode<I: Input>(input: &mut I) -> (r: Result<Cow<'a, [T]>, Error>) {
        let ghost s = old(input).unread();
        let ghost s0 = *old(input);
        let ghost al = mem_alignment(s0);
        let ri = <Vec<T>>::decode(input);
        let ghost ri_g = ri;
        let r = match ri {
            Ok(v) => Ok(Cow::Owned(v)),
            Err(e) => Err(e),
        };
        proof {
            assert(Self::spec_depth(s) == <Vec<T>>::spec_depth(s));
            assert(Self::spec_mem(s, al) == <Vec<T>>::spec_mem(s, al));
            if <Vec<T>>::spec_parse(s) is Some {
                lemma_limits_same(s0, *input, ri_g, r, <Vec<T>>::spec_depth(s), <Vec<T>>::spec_mem(s, al));
            }
        }
        r
    }
}

impl<'a, T: DecodeLaws + Clone> DecodeLaws for Cow<'a, [T]> {
    proof fn lemma_parse_bounded(bytes: Seq<u8>) {
        <Vec<T>>::lemma_parse_bounded(bytes);
    }

    proof fn lemma_parse_encoding(v: Cow<'a, [T]>, rest: Seq<u8>) {
        let items = cow_items(&v);
        crate::sequence::lemma_prefixed_parse_encoding::<T>(items, rest);
    }

    open spec fn same_value(a: Cow<'a, [T]>, b: Cow<'a, [T]>) -> bool {
        same_items(cow_items(&a), cow_items(&b))
    }

    proof fn lemma_encoding_injective(a: Cow<'a, [T]>, b: Cow<'a, [T]>) {
        crate::sequence::lemma_prefixed_items_injective(cow_items(&a), cow_items(&b));
    }
}

/// The characters of a borrowed or owned string.
pub open spec fn cow_chars<'a>(c: &Cow<'a, str>) -> Seq<char> {
    match c {
        Cow::Borrowed(b) => b@,
        Cow::Owned(o) => o@,
    }
}

/// A borrowed or owned string encodes as the string.
impl<'a> Encode for Cow<'a, str> {
    open spec fn spec_encode(&self) -> Seq<u8> {
        string_encoding(cow_chars(self))
    }

    open spec fn encodable(&self) -> bool {
        encode_utf8(cow_chars(self)).len() <= u32::MAX
    }

    fn size_hint(&self) -> (n: usize)
        ensures
            n == saturated(4 + encode_utf8(cow_chars(self)).len() as int),
    {
        let len = match self {
            Cow::Borrowed(b) => b.as_bytes().len(),
            Cow::Owned(o) => o.as_str().as_bytes().len(),
        };
        4usize.saturating_add(len)
    }

    fn encode_to<W: Output>(&self, dest: &mut W) {
        match self {
            Cow::Borrowed(b) => b.encode_to(dest),
            Cow::Owned(o) => o.encode_to(dest),
        }
    }
}

/// A string is decoded as an owned one.
impl<'a> Decode for Cow<'a, str> {
    open spec fn spec_parse(bytes: Seq<u8>) -> Option<nat> {
        string_parse(bytes)
    }

    open spec fn spec_depth(bytes: Seq<u8>) -> nat {
        String::spec_depth(bytes)
    }

    open spec fn spec_mem(bytes: Seq<u8>, align: Option<MemAlignment>) -> nat {
        String::spec_mem(bytes, align)
    }

    fn decode<I: Input>(input: &mut I) -> (r: Result<Cow<'a, str>, Error>) {
        let ghost s = old(input).unread();
        let ghost s0 = *old(input);
        let ghost al = mem_alignment(s0);
        let ri = String::decode(input);
        let ghost ri_g = ri;
        let r = match ri {
            Ok(v) => Ok(Cow::Owned(v)),
            Err(e) => Err(e),
        };
        proof {
            assert(Self::spec_depth(s) == String::spec_depth(s));
            assert(Self::spec_mem(s, al) == String::spec_mem(s, al));
            if String::spec_parse(s) is Some {
                lemma_limits_same(s0, *input, ri_g, r, String::spec_depth(s), String::spec_mem(s, al));
            }
        }
        r
    }
}

impl<'a> DecodeLaws for Cow<'a, str> {
    proof fn lemma_parse_bounded(bytes: Seq<u8>) {
        String::lemma_parse_bounded(bytes);
    }

    proof fn lemma_parse_encoding(v: Cow<'a, str>, rest: Seq<u8>) {
        crate::sequence::lemma_string_parse_encoding(cow_chars(&v), rest);
    }

    open spec fn same_value(a: Cow<'a, str>, b: Cow<'a, str>) -> bool {
        cow_chars(&a) == cow_chars(&b)
    }

    proof fn lemma_encoding_injective(a: Cow<'a, str>, b: Cow<'a, str>) {
        crate::sequence::lemma_string_encoding_injective(cow_chars(&a), cow_chars(&b));
    }
}


/// A pointer nests one level deeper than the value it holds: the value is decoded while the
/// pointer's own level is open, so a depth limit counts both.
pub proof fn lemma_pointer_depth<T: Decode>(bytes: Seq<u8>)
    ensures
        <Box<T>>::spec_depth(bytes) == T::spec_depth(bytes) + 1,
        <std::rc::Rc<T>>::spec_depth(bytes) == T::spec_depth(bytes) + 1,
        <std::sync::Arc<T>>::spec_depth(bytes) == T::spec_depth(bytes) + 1,
        <Box<T>>::spec_parse(bytes) == T::spec_parse(bytes),
        <std::rc::Rc<T>>::spec_parse(bytes) == T::spec_parse(bytes),
        <std::sync::Arc<T>>::spec_parse(bytes) == T::spec_parse(bytes),
        forall|al: Option<MemAlignment>| #[trigger] <Box<T>>::spec_mem(bytes, al) == T::spec_mem(bytes, al),
        forall|al: Option<MemAlignment>| #[trigger] <std::rc::Rc<T>>::spec_mem(bytes, al) == T::spec_mem(bytes, al),
        forall|al: Option<MemAlignment>| #[trigger] <std::sync::Arc<T>>::spec_mem(bytes, al) == T::spec_mem(bytes, al),
{
}

/// A tag in front opens no level of its own: an option or a result nests as deep as the value
/// that follows its tag, and the empty option and the empty tuple not at all.
pub proof fn lemma_tagged_depth<T: Decode, E: Decode>(bytes: Seq<u8>)
    ensures
        <Option<T>>::spec_depth(seq![1u8] + bytes) == T::spec_depth(bytes),
        <Option<T>>::spec_depth(seq![0u8] + bytes) == 0,
        <Result<T, E>>::spec_depth(seq![0u8] + bytes) == T::spec_depth(bytes),
        <Result<T, E>>::spec_depth(seq![1u8] + bytes) == E::spec_depth(bytes),
        <Option<T>>::spec_parse(seq![0u8] + bytes) == Some(1nat),
{
    assert((seq![1u8] + bytes).drop_first() =~= bytes);
    assert((seq![0u8] + bytes).drop_first() =~= bytes);
}

} // verus!
