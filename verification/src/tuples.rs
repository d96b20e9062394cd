//! Tuples of four to eighteen values: encoded as their values one after another.
//!
//! A tuple is taken as its first value followed by the tuple of the others, so each law of a
//! tuple rests on the law of its first value and on that of the shorter tuple.
use crate::codec::{
    deeper, decodes_to, hint_of, lemma_limits_stop, lemma_limits_then, lemma_split_encodings,
    mem_alignment, saturated, size_hint_of, Decode, DecodeLaws, Encode,
};
use crate::memory_limit::MemAlignment;
use crate::composite::{lemma_two_parts, pair_parse};
use crate::encode_like::EncodeLike;
use crate::error::Error;
use crate::io::{Input, Output};
use crate::mem_tracking::DecodeWithMemTracking;
use crate::sequence::DecodeLength;
use vstd::prelude::*;

verus! {

impl<A: DecodeLength, B, C> DecodeLength for (A, B, C) {
    open spec fn spec_len(self_encoded: Seq<u8>) -> Option<nat> {
        A::spec_len(self_encoded)
    }

    fn len(self_encoded: &[u8]) -> (r: Result<usize, Error>) {
        A::len(self_encoded)
    }
}

/// The values of a tuple of 4 after its first.
pub open spec fn rest_of_4<A, B, C, D>(t: (A, B, C, D)) -> (B, C, D) {
    (t.1, t.2, t.3)
}

impl<A: Encode, B: Encode, C: Encode, D: Encode> Encode for (A, B, C, D) {
    open spec fn spec_encode(&self) -> Seq<u8> {
        self.0.spec_encode() + rest_of_4(*self).spec_encode()
    }

    open spec fn encodable(&self) -> bool {
        self.0.encodable() && rest_of_4(*self).encodable()
    }

    fn size_hint(&self) -> (n: usize)
        ensures
            exists|h0: usize, h1: usize, h2: usize, h3: usize|
                size_hint_of(&self.0, h0) && size_hint_of(&self.1, h1)
                    && size_hint_of(&self.2, h2) && size_hint_of(&self.3, h3)
                    && n == saturated(h0 + h1 + h2 + h3),
    {
        let h0 = hint_of(&self.0);
        let h1 = hint_of(&self.1);
        let h2 = hint_of(&self.2);
        let h3 = hint_of(&self.3);
        let mut n = h0;
        n = n.saturating_add(h1);
        assert(n == saturated(h0 + h1));
        n = n.saturating_add(h2);
        assert(n == saturated(h0 + h1 + h2));
        n = n.saturating_add(h3);
        assert(n == saturated(h0 + h1 + h2 + h3));
        n
    }

    fn encode_to<W: Output>(&self, dest: &mut W) {
        let rest = (&self.1, &self.2, &self.3);
        assert(rest.spec_encode() == rest_of_4(*self).spec_encode());
        assert(rest.encodable() == rest_of_4(*self).encodable());
        self.0.encode_to(dest);
        rest.encode_to(dest);
        assert(dest.written() =~= old(dest).written() + self.spec_encode());
    }
}

impl<A: Decode, B: Decode, C: Decode, D: Decode> Decode for (A, B, C, D) {
    open spec fn spec_parse(bytes: Seq<u8>) -> Option<nat> {
        pair_parse(
            A::spec_parse(bytes),
            |n: nat| <(B, C, D)>::spec_parse(bytes.skip(n as int)),
        )
    }

    open spec fn spec_depth(bytes: Seq<u8>) -> nat {
        match A::spec_parse(bytes) {
            Some(n) => deeper(A::spec_depth(bytes), <(B, C, D)>::spec_depth(bytes.skip(n as int))),
            None => A::spec_depth(bytes),
        }
    }

    open spec fn spec_mem(bytes: Seq<u8>, align: Option<MemAlignment>) -> nat {
        match A::spec_parse(bytes) {
            Some(n) => A::spec_mem(bytes, align) + <(B, C, D)>::spec_mem(bytes.skip(n as int), align),
            None => A::spec_mem(bytes, align),
        }
    }

    fn decode<I: Input>(input: &mut I) -> (r: Result<(A, B, C, D), Error>) {
        let ghost before = old(input).unread();
        let ghost s0 = *old(input);
        let ghost al = mem_alignment(s0);
        let ghost da = A::spec_depth(before);
        let ghost ma = A::spec_mem(before, al);
        let ghost tail = before.skip(A::spec_parse(before).unwrap() as int);
        proof {
            if Self::spec_parse(before) is Some {
                assert(Self::spec_depth(before) == deeper(da, <(B, C, D)>::spec_depth(tail)));
                assert(Self::spec_mem(before, al) == ma + <(B, C, D)>::spec_mem(tail, al));
            }
        }
        let ra = A::decode(input);
        let ghost ra_g = ra;
        let ghost s1 = *input;
        let v0 = match ra {
            Ok(v) => v,
            Err(e) => {
                proof {
                    if Self::spec_parse(before) is Some {
                        lemma_limits_stop(
                            s0,
                            s1,
                            ra_g,
                            Err::<(A, B, C, D), Error>(e),
                            da,
                            ma,
                            <(B, C, D)>::spec_depth(tail),
                            <(B, C, D)>::spec_mem(tail, al),
                        );
                    }
                }
                return Err(e);
            },
        };
        let ghost mid = input.unread();
        let rb = <(B, C, D)>::decode(input);
        let ghost rb_g = rb;
        let (v1, v2, v3) = match rb {
            Ok(t) => t,
            Err(e) => {
                proof {
                    if Self::spec_parse(before) is Some {
                        assert(mem_alignment(s1) == al);
                        lemma_limits_then(
                            s0,
                            s1,
                            *input,
                            ra_g,
                            rb_g,
                            Err::<(A, B, C, D), Error>(e),
                            da,
                            ma,
                            <(B, C, D)>::spec_depth(mid),
                            <(B, C, D)>::spec_mem(mid, al),
                        );
                    }
                }
                return Err(e);
            },
        };
        proof {
            let rest = (v1, v2, v3);
            if Self::spec_parse(before) is Some {
                lemma_two_parts(before, v0.spec_encode(), mid, rest.spec_encode(), input.unread());
                assert(mem_alignment(s1) == al);
                lemma_limits_then(
                    s0,
                    s1,
                    *input,
                    ra_g,
                    rb_g,
                    Ok::<(A, B, C, D), Error>((v0, v1, v2, v3)),
                    da,
                    ma,
                    <(B, C, D)>::spec_depth(mid),
                    <(B, C, D)>::spec_mem(mid, al),
                );
            }
        }
        Ok((v0, v1, v2, v3))
    }
}

impl<A: DecodeLaws, B: DecodeLaws, C: DecodeLaws, D: DecodeLaws> DecodeLaws for (A, B, C, D) {
    proof fn lemma_parse_bounded(bytes: Seq<u8>) {
        A::lemma_parse_bounded(bytes);
        if let Some(n) = A::spec_parse(bytes) {
            <(B, C, D)>::lemma_parse_bounded(bytes.skip(n as int));
        }
    }

    proof fn lemma_parse_encoding(v: (A, B, C, D), rest: Seq<u8>) {
        let ea = v.0.spec_encode();
        let et = rest_of_4(v).spec_encode();
        assert(ea + et + rest =~= ea + (et + rest));
        A::lemma_parse_encoding(v.0, et + rest);
        assert((ea + (et + rest)).skip(ea.len() as int) =~= et + rest);
        <(B, C, D)>::lemma_parse_encoding(rest_of_4(v), rest);
    }

    open spec fn same_value(a: (A, B, C, D), b: (A, B, C, D)) -> bool {
        A::same_value(a.0, b.0) && <(B, C, D)>::same_value(rest_of_4(a), rest_of_4(b))
    }

    proof fn lemma_encoding_injective(a: (A, B, C, D), b: (A, B, C, D)) {
        lemma_split_encodings(a.0, rest_of_4(a).spec_encode(), b.0, rest_of_4(b).spec_encode());
        A::lemma_encoding_injective(a.0, b.0);
        <(B, C, D)>::lemma_encoding_injective(rest_of_4(a), rest_of_4(b));
    }
}

impl<
    A: EncodeLike<A2>,
    A2: Encode,
    B: EncodeLike<B2>,
    B2: Encode,
    C: EncodeLike<C2>,
    C2: Encode,
    D: EncodeLike<D2>,
    D2: Encode,
> EncodeLike<(A2, B2, C2, D2)> for (A, B, C, D) {

}

impl<A: DecodeLength, B, C, D> DecodeLength for (A, B, C, D) {
    open spec fn spec_len(self_encoded: Seq<u8>) -> Option<nat> {
        A::spec_len(self_encoded)
    }

    fn len(self_encoded: &[u8]) -> (r: Result<usize, Error>) {
        A::len(self_encoded)
    }
}

impl<
    A: DecodeWithMemTracking,
    B: DecodeWithMemTracking,
    C: DecodeWithMemTracking,
    D: DecodeWithMemTracking,
> DecodeWithMemTracking for (A, B, C, D) {

}

/// The values of a tuple of 5 after its first.
pub open spec fn rest_of_5<A, B, C, D, E>(t: (A, B, C, D, E)) -> (B, C, D, E) {
    (t.1, t.2, t.3, t.4)
}

impl<A: Encode, B: Encode, C: Encode, D: Encode, E: Encode> Encode for (A, B, C, D, E) {
    open spec fn spec_encode(&self) -> Seq<u8> {
        self.0.spec_encode() + rest_of_5(*self).spec_encode()
    }

    open spec fn encodable(&self) -> bool {
        self.0.encodable() && rest_of_5(*self).encodable()
    }

    fn size_hint(&self) -> (n: usize)
        ensures
            exists|h0: usize, h1: usize, h2: usize, h3: usize, h4: usize|
                size_hint_of(&self.0, h0) && size_hint_of(&self.1, h1)
                    && size_hint_of(&self.2, h2) && size_hint_of(&self.3, h3)
                    && size_hint_of(&self.4, h4)
                    && n == saturated(h0 + h1 + h2 + h3 + h4),
    {
        let h0 = hint_of(&self.0);
        let h1 = hint_of(&self.1);
        let h2 = hint_of(&self.2);
        let h3 = hint_of(&self.3);
        let h4 = hint_of(&self.4);
        let mut n = h0;
        n = n.saturating_add(h1);
        assert(n == saturated(h0 + h1));
        n = n.saturating_add(h2);
        assert(n == saturated(h0 + h1 + h2));
        n = n.saturating_add(h3);
        assert(n == saturated(h0 + h1 + h2 + h3));
        n = n.saturating_add(h4);
        assert(n == saturated(h0 + h1 + h2 + h3 + h4));
        n
    }

    fn encode_to<W: Output>(&self, dest: &mut W) {
        let rest = (&self.1, &self.2, &self.3, &self.4);
        assert(rest.spec_encode() == rest_of_5(*self).spec_encode());
        assert(rest.encodable() == rest_of_5(*self).encodable());
        self.0.encode_to(dest);
        rest.encode_to(dest);
        assert(dest.written() =~= old(dest).written() + self.spec_encode());
    }
}

impl<A: Decode, B: Decode, C: Decode, D: Decode, E: Decode> Decode for (A, B, C, D, E) {
    open spec fn spec_parse(bytes: Seq<u8>) -> Option<nat> {
        pair_parse(
            A::spec_parse(bytes),
            |n: nat| <(B, C, D, E)>::spec_parse(bytes.skip(n as int)),
        )
    }

    open spec fn spec_depth(bytes: Seq<u8>) -> nat {
        match A::spec_parse(bytes) {
            Some(n) => deeper(A::spec_depth(bytes), <(B, C, D, E)>::spec_depth(bytes.skip(n as int))),
            None => A::spec_depth(bytes),
        }
    }

    open spec fn spec_mem(bytes: Seq<u8>, align: Option<MemAlignment>) -> nat {
        match A::spec_parse(bytes) {
            Some(n) => A::spec_mem(bytes, align) + <(B, C, D, E)>::spec_mem(bytes.skip(n as int), align),
            None => A::spec_mem(bytes, align),
        }
    }

    fn decode<I: Input>(input: &mut I) -> (r: Result<(A, B, C, D, E), Error>) {
        let ghost before = old(input).unread();
        let ghost s0 = *old(input);
        let ghost al = mem_alignment(s0);
        let ghost da = A::spec_depth(before);
        let ghost ma = A::spec_mem(before, al);
        let ghost tail = before.skip(A::spec_parse(before).unwrap() as int);
        proof {
            if Self::spec_parse(before) is Some {
                assert(Self::spec_depth(before) == deeper(da, <(B, C, D, E)>::spec_depth(tail)));
                assert(Self::spec_mem(before, al) == ma + <(B, C, D, E)>::spec_mem(tail, al));
            }
        }
        let ra = A::decode(input);
        let ghost ra_g = ra;
        let ghost s1 = *input;
        let v0 = match ra {
            Ok(v) => v,
            Err(e) => {
                proof {
                    if Self::spec_parse(before) is Some {
                        lemma_limits_stop(
                            s0,
                            s1,
                            ra_g,
                            Err::<(A, B, C, D, E), Error>(e),
                            da,
                            ma,
                            <(B, C, D, E)>::spec_depth(tail),
                            <(B, C, D, E)>::spec_mem(tail, al),
                        );
                    }
                }
                return Err(e);
            },
        };
        let ghost mid = input.unread();
        let rb = <(B, C, D, E)>::decode(input);
        let ghost rb_g = rb;
        let (v1, v2, v3, v4) = match rb {
            Ok(t) => t,
            Err(e) => {
                proof {
                    if Self::spec_parse(before) is Some {
                        assert(mem_alignment(s1) == al);
                        lemma_limits_then(
                            s0,
                            s1,
                            *input,
                            ra_g,
                            rb_g,
                            Err::<(A, B, C, D, E), Error>(e),
                            da,
                            ma,
                            <(B, C, D, E)>::spec_depth(mid),
                            <(B, C, D, E)>::spec_mem(mid, al),
                        );
                    }
                }
                return Err(e);
            },
        };
        proof {
            let rest = (v1, v2, v3, v4);
            if Self::spec_parse(before) is Some {
                lemma_two_parts(before, v0.spec_encode(), mid, rest.spec_encode(), input.unread());
                assert(mem_alignment(s1) == al);
                lemma_limits_then(
                    s0,
                    s1,
                    *input,
                    ra_g,
                    rb_g,
                    Ok::<(A, B, C, D, E), Error>((v0, v1, v2, v3, v4)),
                    da,
                    ma,
                    <(B, C, D, E)>::spec_depth(mid),
                    <(B, C, D, E)>::spec_mem(mid, al),
                );
            }
        }
        Ok((v0, v1, v2, v3, v4))
    }
}

impl<
    A: DecodeLaws,
    B: DecodeLaws,
    C: DecodeLaws,
    D: DecodeLaws,
    E: DecodeLaws,
> DecodeLaws for (A, B, C, D, E) {
    proof fn lemma_parse_bounded(bytes: Seq<u8>) {
        A::lemma_parse_bounded(bytes);
        if let Some(n) = A::spec_parse(bytes) {
            <(B, C, D, E)>::lemma_parse_bounded(bytes.skip(n as int));
        }
    }

    proof fn lemma_parse_encoding(v: (A, B, C, D, E), rest: Seq<u8>) {
        let ea = v.0.spec_encode();
        let et = rest_of_5(v).spec_encode();
        assert(ea + et + rest =~= ea + (et + rest));
        A::lemma_parse_encoding(v.0, et + rest);
        assert((ea + (et + rest)).skip(ea.len() as int) =~= et + rest);
        <(B, C, D, E)>::lemma_parse_encoding(rest_of_5(v), rest);
    }

    open spec fn same_value(a: (A, B, C, D, E), b: (A, B, C, D, E)) -> bool {
        A::same_value(a.0, b.0) && <(B, C, D, E)>::same_value(rest_of_5(a), rest_of_5(b))
    }

    proof fn lemma_encoding_injective(a: (A, B, C, D, E), b: (A, B, C, D, E)) {
        lemma_split_encodings(a.0, rest_of_5(a).spec_encode(), b.0, rest_of_5(b).spec_encode());
        A::lemma_encoding_injective(a.0, b.0);
        <(B, C, D, E)>::lemma_encoding_injective(rest_of_5(a), rest_of_5(b));
    }
}

impl<
    A: EncodeLike<A2>,
    A2: Encode,
    B: EncodeLike<B2>,
    B2: Encode,
    C: EncodeLike<C2>,
    C2: Encode,
    D: EncodeLike<D2>,
    D2: Encode,
    E: EncodeLike<E2>,
    E2: Encode,
> EncodeLike<(A2, B2, C2, D2, E2)> for (A, B, C, D, E) {

}

impl<A: DecodeLength, B, C, D, E> DecodeLength for (A, B, C, D, E) {
    open spec fn spec_len(self_encoded: Seq<u8>) -> Option<nat> {
        A::spec_len(self_encoded)
    }

    fn len(self_encoded: &[u8]) -> (r: Result<usize, Error>) {
        A::len(self_encoded)
    }
}

impl<
    A: DecodeWithMemTracking,
    B: DecodeWithMemTracking,
    C: DecodeWithMemTracking,
    D: DecodeWithMemTracking,
    E: DecodeWithMemTracking,
> DecodeWithMemTracking for (A, B, C, D, E) {

}

/// The values of a tuple of 6 after its first.
pub open spec fn rest_of_6<A, B, C, D, E, F>(t: (A, B, C, D, E, F)) -> (B, C, D, E, F) {
    (t.1, t.2, t.3, t.4, t.5)
}

impl<
    A: Encode,
    B: Encode,
    C: Encode,
    D: Encode,
    E: Encode,
    F: Encode,
> Encode for (A, B, C, D, E, F) {
    open spec fn spec_encode(&self) -> Seq<u8> {
        self.0.spec_encode() + rest_of_6(*self).spec_encode()
    }

    open spec fn encodable(&self) -> bool {
        self.0.encodable() && rest_of_6(*self).encodable()
    }

    fn size_hint(&self) -> (n: usize)
        ensures
            exists|h0: usize, h1: usize, h2: usize, h3: usize, h4: usize, h5: usize|
                size_hint_of(&self.0, h0) && size_hint_of(&self.1, h1)
                    && size_hint_of(&self.2, h2) && size_hint_of(&self.3, h3)
                    && size_hint_of(&self.4, h4) && size_hint_of(&self.5, h5)
                    && n == saturated(h0 + h1 + h2 + h3 + h4 + h5),
    {
        let h0 = hint_of(&self.0);
        let h1 = hint_of(&self.1);
        let h2 = hint_of(&self.2);
        let h3 = hint_of(&self.3);
        let h4 = hint_of(&self.4);
        let h5 = hint_of(&self.5);
        let mut n = h0;
        n = n.saturating_add(h1);
        assert(n == saturated(h0 + h1));
        n = n.saturating_add(h2);
        assert(n == saturated(h0 + h1 + h2));
        n = n.saturating_add(h3);
        assert(n == saturated(h0 + h1 + h2 + h3));
        n = n.saturating_add(h4);
        assert(n == saturated(h0 + h1 + h2 + h3 + h4));
        n = n.saturating_add(h5);
        assert(n == saturated(h0 + h1 + h2 + h3 + h4 + h5));
        n
    }

    fn encode_to<W: Output>(&self, dest: &mut W) {
        let rest = (&self.1, &self.2, &self.3, &self.4, &self.5);
        assert(rest.spec_encode() == rest_of_6(*self).spec_encode());
        assert(rest.encodable() == rest_of_6(*self).encodable());
        self.0.encode_to(dest);
        rest.encode_to(dest);
        assert(dest.written() =~= old(dest).written() + self.spec_encode());
    }
}

impl<
    A: Decode,
    B: Decode,
    C: Decode,
    D: Decode,
    E: Decode,
    F: Decode,
> Decode for (A, B, C, D, E, F) {
    open spec fn spec_parse(bytes: Seq<u8>) -> Option<nat> {
        pair_parse(
            A::spec_parse(bytes),
            |n: nat| <(B, C, D, E, F)>::spec_parse(bytes.skip(n as int)),
        )
    }

    open spec fn spec_depth(bytes: Seq<u8>) -> nat {
        match A::spec_parse(bytes) {
            Some(n) => deeper(A::spec_depth(bytes), <(B, C, D, E, F)>::spec_depth(bytes.skip(n as int))),
            None => A::spec_depth(bytes),
        }
    }

    open spec fn spec_mem(bytes: Seq<u8>, align: Option<MemAlignment>) -> nat {
        match A::spec_parse(bytes) {
            Some(n) => A::spec_mem(bytes, align) + <(B, C, D, E, F)>::spec_mem(bytes.skip(n as int), align),
            None => A::spec_mem(bytes, align),
        }
    }

    fn decode<I: Input>(input: &mut I) -> (r: Result<(A, B, C, D, E, F), Error>) {
        let ghost before = old(input).unread();
        let ghost s0 = *old(input);
        let ghost al = mem_alignment(s0);
        let ghost da = A::spec_depth(before);
        let ghost ma = A::spec_mem(before, al);
        let ghost tail = before.skip(A::spec_parse(before).unwrap() as int);
        proof {
            if Self::spec_parse(before) is Some {
                assert(Self::spec_depth(before) == deeper(da, <(B, C, D, E, F)>::spec_depth(tail)));
                assert(Self::spec_mem(before, al) == ma + <(B, C, D, E, F)>::spec_mem(tail, al));
            }
        }
        let ra = A::decode(input);
        let ghost ra_g = ra;
        let ghost s1 = *input;
        let v0 = match ra {
            Ok(v) => v,
            Err(e) => {
                proof {
                    if Self::spec_parse(before) is Some {
                        lemma_limits_stop(
                            s0,
                            s1,
                            ra_g,
                            Err::<(A, B, C, D, E, F), Error>(e),
                            da,
                            ma,
                            <(B, C, D, E, F)>::spec_depth(tail),
                            <(B, C, D, E, F)>::spec_mem(tail, al),
                        );
                    }
                }
                return Err(e);
            },
        };
        let ghost mid = input.unread();
        let rb = <(B, C, D, E, F)>::decode(input);
        let ghost rb_g = rb;
        let (v1, v2, v3, v4, v5) = match rb {
            Ok(t) => t,
            Err(e) => {
                proof {
                    if Self::spec_parse(before) is Some {
                        assert(mem_alignment(s1) == al);
                        lemma_limits_then(
                            s0,
                            s1,
                            *input,
                            ra_g,
                            rb_g,
                            Err::<(A, B, C, D, E, F), Error>(e),
                            da,
                            ma,
                            <(B, C, D, E, F)>::spec_depth(mid),
                            <(B, C, D, E, F)>::spec_mem(mid, al),
                        );
                    }
                }
                return Err(e);
            },
        };
        proof {
            let rest = (v1, v2, v3, v4, v5);
            if Self::spec_parse(before) is Some {
                lemma_two_parts(before, v0.spec_encode(), mid, rest.spec_encode(), input.unread());
                assert(mem_alignment(s1) == al);
                lemma_limits_then(
                    s0,
                    s1,
                    *input,
                    ra_g,
                    rb_g,
                    Ok::<(A, B, C, D, E, F), Error>((v0, v1, v2, v3, v4, v5)),
                    da,
                    ma,
                    <(B, C, D, E, F)>::spec_depth(mid),
                    <(B, C, D, E, F)>::spec_mem(mid, al),
                );
            }
        }
        Ok((v0, v1, v2, v3, v4, v5))
    }
}

impl<
    A: DecodeLaws,
    B: DecodeLaws,
    C: DecodeLaws,
    D: DecodeLaws,
    E: DecodeLaws,
    F: DecodeLaws,
> DecodeLaws for (A, B, C, D, E, F) {
    proof fn lemma_parse_bounded(bytes: Seq<u8>) {
        A::lemma_parse_bounded(bytes);
        if let Some(n) = A::spec_parse(bytes) {
            <(B, C, D, E, F)>::lemma_parse_bounded(bytes.skip(n as int));
        }
    }

    proof fn lemma_parse_encoding(v: (A, B, C, D, E, F), rest: Seq<u8>) {
        let ea = v.0.spec_encode();
        let et = rest_of_6(v).spec_encode();
        assert(ea + et + rest =~= ea + (et + rest));
        A::lemma_parse_encoding(v.0, et + rest);
        assert((ea + (et + rest)).skip(ea.len() as int) =~= et + rest);
        <(B, C, D, E, F)>::lemma_parse_encoding(rest_of_6(v), rest);
    }

    open spec fn same_value(a: (A, B, C, D, E, F), b: (A, B, C, D, E, F)) -> bool {
        A::same_value(a.0, b.0) && <(B, C, D, E, F)>::same_value(rest_of_6(a), rest_of_6(b))
    }

    proof fn lemma_encoding_injective(a: (A, B, C, D, E, F), b: (A, B, C, D, E, F)) {
        lemma_split_encodings(a.0, rest_of_6(a).spec_encode(), b.0, rest_of_6(b).spec_encode());
        A::lemma_encoding_injective(a.0, b.0);
        <(B, C, D, E, F)>::lemma_encoding_injective(rest_of_6(a), rest_of_6(b));
    }
}

impl<
    A: EncodeLike<A2>,
    A2: Encode,
    B: EncodeLike<B2>,
    B2: Encode,
    C: EncodeLike<C2>,
    C2: Encode,
    D: EncodeLike<D2>,
    D2: Encode,
    E: EncodeLike<E2>,
    E2: Encode,
    F: EncodeLike<F2>,
    F2: Encode,
> EncodeLike<(A2, B2, C2, D2, E2, F2)> for (A, B, C, D, E, F) {

}

impl<A: DecodeLength, B, C, D, E, F> DecodeLength for (A, B, C, D, E, F) {
    open spec fn spec_len(self_encoded: Seq<u8>) -> Option<nat> {
        A::spec_len(self_encoded)
    }

    fn len(self_encoded: &[u8]) -> (r: Result<usize, Error>) {
        A::len(self_encoded)
    }
}

impl<
    A: DecodeWithMemTracking,
    B: DecodeWithMemTracking,
    C: DecodeWithMemTracking,
    D: DecodeWithMemTracking,
    E: DecodeWithMemTracking,
    F: DecodeWithMemTracking,
> DecodeWithMemTracking for (A, B, C, D, E, F) {

}

/// The values of a tuple of 7 after its first.
pub open spec fn rest_of_7<A, B, C, D, E, F, G>(t: (A, B, C, D, E, F, G)) -> (B, C, D, E, F, G) {
    (t.1, t.2, t.3, t.4, t.5, t.6)
}

impl<
    A: Encode,
    B: Encode,
    C: Encode,
    D: Encode,
    E: Encode,
    F: Encode,
    G: Encode,
> Encode for (A, B, C, D, E, F, G) {
    open spec fn spec_encode(&self) -> Seq<u8> {
        self.0.spec_encode() + rest_of_7(*self).spec_encode()
    }

    open spec fn encodable(&self) -> bool {
        self.0.encodable() && rest_of_7(*self).encodable()
    }

    fn size_hint(&self) -> (n: usize)
        ensures
            exists|h0: usize, h1: usize, h2: usize, h3: usize, h4: usize, h5: usize, h6: usize|
                size_hint_of(&self.0, h0) && size_hint_of(&self.1, h1)
                    && size_hint_of(&self.2, h2) && size_hint_of(&self.3, h3)
                    && size_hint_of(&self.4, h4) && size_hint_of(&self.5, h5)
                    && size_hint_of(&self.6, h6)
                    && n == saturated(h0 + h1 + h2 + h3 + h4 + h5 + h6),
    {
        let h0 = hint_of(&self.0);
        let h1 = hint_of(&self.1);
        let h2 = hint_of(&self.2);
        let h3 = hint_of(&self.3);
        let h4 = hint_of(&self.4);
        let h5 = hint_of(&self.5);
        let h6 = hint_of(&self.6);
        let mut n = h0;
        n = n.saturating_add(h1);
        assert(n == saturated(h0 + h1));
        n = n.saturating_add(h2);
        assert(n == saturated(h0 + h1 + h2));
        n = n.saturating_add(h3);
        assert(n == saturated(h0 + h1 + h2 + h3));
        n = n.saturating_add(h4);
        assert(n == saturated(h0 + h1 + h2 + h3 + h4));
        n = n.saturating_add(h5);
        assert(n == saturated(h0 + h1 + h2 + h3 + h4 + h5));
        n = n.saturating_add(h6);
        assert(n == saturated(h0 + h1 + h2 + h3 + h4 + h5 + h6));
        n
    }

    fn encode_to<W: Output>(&self, dest: &mut W) {
        let rest = (&self.1, &self.2, &self.3, &self.4, &self.5, &self.6);
        assert(rest.spec_encode() == rest_of_7(*self).spec_encode());
        assert(rest.encodable() == rest_of_7(*self).encodable());
        self.0.encode_to(dest);
        rest.encode_to(dest);
        assert(dest.written() =~= old(dest).written() + self.spec_encode());
    }
}

impl<
    A: Decode,
    B: Decode,
    C: Decode,
    D: Decode,
    E: Decode,
    F: Decode,
    G: Decode,
> Decode for (A, B, C, D, E, F, G) {
    open spec fn spec_parse(bytes: Seq<u8>) -> Option<nat> {
        pair_parse(
            A::spec_parse(bytes),
            |n: nat| <(B, C, D, E, F, G)>::spec_parse(bytes.skip(n as int)),
        )
    }

    open spec fn spec_depth(bytes: Seq<u8>) -> nat {
        match A::spec_parse(bytes) {
            Some(n) => deeper(A::spec_depth(bytes), <(B, C, D, E, F, G)>::spec_depth(bytes.skip(n as int))),
            None => A::spec_depth(bytes),
        }
    }

    open spec fn spec_mem(bytes: Seq<u8>, align: Option<MemAlignment>) -> nat {
        match A::spec_parse(bytes) {
            Some(n) => A::spec_mem(bytes, align) + <(B, C, D, E, F, G)>::spec_mem(bytes.skip(n as int), align),
            None => A::spec_mem(bytes, align),
        }
    }

    fn decode<I: Input>(input: &mut I) -> (r: Result<(A, B, C, D, E, F, G), Error>) {
        let ghost before = old(input).unread();
        let ghost s0 = *old(input);
        let ghost al = mem_alignment(s0);
        let ghost da = A::spec_depth(before);
        let ghost ma = A::spec_mem(before, al);
        let ghost tail = before.skip(A::spec_parse(before).unwrap() as int);
        proof {
            if Self::spec_parse(before) is Some {
                assert(Self::spec_depth(before) == deeper(da, <(B, C, D, E, F, G)>::spec_depth(tail)));
                assert(Self::spec_mem(before, al) == ma + <(B, C, D, E, F, G)>::spec_mem(tail, al));
            }
        }
        let ra = A::decode(input);
        let ghost ra_g = ra;
        let ghost s1 = *input;
        let v0 = match ra {
            Ok(v) => v,
            Err(e) => {
                proof {
                    if Self::spec_parse(before) is Some {
                        lemma_limits_stop(
                            s0,
                            s1,
                            ra_g,
                            Err::<(A, B, C, D, E, F, G), Error>(e),
                            da,
                            ma,
                            <(B, C, D, E, F, G)>::spec_depth(tail),
                            <(B, C, D, E, F, G)>::spec_mem(tail, al),
                        );
                    }
                }
                return Err(e);
            },
        };
        let ghost mid = input.unread();
        let rb = <(B, C, D, E, F, G)>::decode(input);
        let ghost rb_g = rb;
        let (v1, v2, v3, v4, v5, v6) = match rb {
            Ok(t) => t,
            Err(e) => {
                proof {
                    if Self::spec_parse(before) is Some {
                        assert(mem_alignment(s1) == al);
                        lemma_limits_then(
                            s0,
                            s1,
                            *input,
                            ra_g,
                            rb_g,
                            Err::<(A, B, C, D, E, F, G), Error>(e),
                            da,
                            ma,
                            <(B, C, D, E, F, G)>::spec_depth(mid),
                            <(B, C, D, E, F, G)>::spec_mem(mid, al),
                        );
                    }
                }
                return Err(e);
            },
        };
        proof {
            let rest = (v1, v2, v3, v4, v5, v6);
            if Self::spec_parse(before) is Some {
                lemma_two_parts(before, v0.spec_encode(), mid, rest.spec_encode(), input.unread());
                assert(mem_alignment(s1) == al);
                lemma_limits_then(
                    s0,
                    s1,
                    *input,
                    ra_g,
                    rb_g,
                    Ok::<(A, B, C, D, E, F, G), Error>((v0, v1, v2, v3, v4, v5, v6)),
                    da,
                    ma,
                    <(B, C, D, E, F, G)>::spec_depth(mid),
                    <(B, C, D, E, F, G)>::spec_mem(mid, al),
                );
            }
        }
        Ok((v0, v1, v2, v3, v4, v5, v6))
    }
}

impl<
    A: DecodeLaws,
    B: DecodeLaws,
    C: DecodeLaws,
    D: DecodeLaws,
    E: DecodeLaws,
    F: DecodeLaws,
    G: DecodeLaws,
> DecodeLaws for (A, B, C, D, E, F, G) {
    proof fn lemma_parse_bounded(bytes: Seq<u8>) {
        A::lemma_parse_bounded(bytes);
        if let Some(n) = A::spec_parse(bytes) {
            <(B, C, D, E, F, G)>::lemma_parse_bounded(bytes.skip(n as int));
        }
    }

    proof fn lemma_parse_encoding(v: (A, B, C, D, E, F, G), rest: Seq<u8>) {
        let ea = v.0.spec_encode();
        let et = rest_of_7(v).spec_encode();
        assert(ea + et + rest =~= ea + (et + rest));
        A::lemma_parse_encoding(v.0, et + rest);
        assert((ea + (et + rest)).skip(ea.len() as int) =~= et + rest);
        <(B, C, D, E, F, G)>::lemma_parse_encoding(rest_of_7(v), rest);
    }

    open spec fn same_value(a: (A, B, C, D, E, F, G), b: (A, B, C, D, E, F, G)) -> bool {
        A::same_value(a.0, b.0) && <(B, C, D, E, F, G)>::same_value(rest_of_7(a), rest_of_7(b))
    }

    proof fn lemma_encoding_injective(a: (A, B, C, D, E, F, G), b: (A, B, C, D, E, F, G)) {
        lemma_split_encodings(a.0, rest_of_7(a).spec_encode(), b.0, rest_of_7(b).spec_encode());
        A::lemma_encoding_injective(a.0, b.0);
        <(B, C, D, E, F, G)>::lemma_encoding_injective(rest_of_7(a), rest_of_7(b));
    }
}

impl<
    A: EncodeLike<A2>,
    A2: Encode,
    B: EncodeLike<B2>,
    B2: Encode,
    C: EncodeLike<C2>,
    C2: Encode,
    D: EncodeLike<D2>,
    D2: Encode,
    E: EncodeLike<E2>,
    E2: Encode,
    F: EncodeLike<F2>,
    F2: Encode,
    G: EncodeLike<G2>,
    G2: Encode,
> EncodeLike<(A2, B2, C2, D2, E2, F2, G2)> for (A, B, C, D, E, F, G) {

}

impl<A: DecodeLength, B, C, D, E, F, G> DecodeLength for (A, B, C, D, E, F, G) {
    open spec fn spec_len(self_encoded: Seq<u8>) -> Option<nat> {
        A::spec_len(self_encoded)
    }

    fn len(self_encoded: &[u8]) -> (r: Result<usize, Error>) {
        A::len(self_encoded)
    }
}

impl<
    A: DecodeWithMemTracking,
    B: DecodeWithMemTracking,
    C: DecodeWithMemTracking,
    D: DecodeWithMemTracking,
    E: DecodeWithMemTracking,
    F: DecodeWithMemTracking,
    G: DecodeWithMemTracking,
> DecodeWithMemTracking for (A, B, C, D, E, F, G) {

}

/// The values of a tuple of 8 after its first.
pub open spec fn rest_of_8<A, B, C, D, E, F, G, H>(
    t: (A, B, C, D, E, F, G, H),
) -> (B, C, D, E, F, G, H) {
    (t.1, t.2, t.3, t.4, t.5, t.6, t.7)
}

impl<
    A: Encode,
    B: Encode,
    C: Encode,
    D: Encode,
    E: Encode,
    F: Encode,
    G: Encode,
    H: Encode,
> Encode for (A, B, C, D, E, F, G, H) {
    open spec fn spec_encode(&self) -> Seq<u8> {
        self.0.spec_encode() + rest_of_8(*self).spec_encode()
    }

    open spec fn encodable(&self) -> bool {
        self.0.encodable() && rest_of_8(*self).encodable()
    }

    fn size_hint(&self) -> (n: usize)
        ensures
            exists|h0: usize, h1: usize, h2: usize, h3: usize, h4: usize, h5: usize, h6: usize, h7: usize|
                size_hint_of(&self.0, h0) && size_hint_of(&self.1, h1)
                    && size_hint_of(&self.2, h2) && size_hint_of(&self.3, h3)
                    && size_hint_of(&self.4, h4) && size_hint_of(&self.5, h5)
                    && size_hint_of(&self.6, h6) && size_hint_of(&self.7, h7)
                    && n == saturated(h0 + h1 + h2 + h3 + h4 + h5 + h6 + h7),
    {
        let h0 = hint_of(&self.0);
        let h1 = hint_of(&self.1);
        let h2 = hint_of(&self.2);
        let h3 = hint_of(&self.3);
        let h4 = hint_of(&self.4);
        let h5 = hint_of(&self.5);
        let h6 = hint_of(&self.6);
        let h7 = hint_of(&self.7);
        let mut n = h0;
        n = n.saturating_add(h1);
        assert(n == saturated(h0 + h1));
        n = n.saturating_add(h2);
        assert(n == saturated(h0 + h1 + h2));
        n = n.saturating_add(h3);
        assert(n == saturated(h0 + h1 + h2 + h3));
        n = n.saturating_add(h4);
        assert(n == saturated(h0 + h1 + h2 + h3 + h4));
        n = n.saturating_add(h5);
        assert(n == saturated(h0 + h1 + h2 + h3 + h4 + h5));
        n = n.saturating_add(h6);
        assert(n == saturated(h0 + h1 + h2 + h3 + h4 + h5 + h6));
        n = n.saturating_add(h7);
        assert(n == saturated(h0 + h1 + h2 + h3 + h4 + h5 + h6 + h7));
        n
    }

    fn encode_to<W: Output>(&self, dest: &mut W) {
        let rest = (&self.1, &self.2, &self.3, &self.4, &self.5, &self.6, &self.7);
        assert(rest.spec_encode() == rest_of_8(*self).spec_encode());
        assert(rest.encodable() == rest_of_8(*self).encodable());
        self.0.encode_to(dest);
        rest.encode_to(dest);
        assert(dest.written() =~= old(dest).written() + self.spec_encode());
    }
}

impl<
    A: Decode,
    B: Decode,
    C: Decode,
    D: Decode,
    E: Decode,
    F: Decode,
    G: Decode,
    H: Decode,
> Decode for (A, B, C, D, E, F, G, H) {
    open spec fn spec_parse(bytes: Seq<u8>) -> Option<nat> {
        pair_parse(
            A::spec_parse(bytes),
            |n: nat| <(B, C, D, E, F, G, H)>::spec_parse(bytes.skip(n as int)),
        )
    }

    open spec fn spec_depth(bytes: Seq<u8>) -> nat {
        match A::spec_parse(bytes) {
            Some(n) => deeper(A::spec_depth(bytes), <(B, C, D, E, F, G, H)>::spec_depth(bytes.skip(n as int))),
            None => A::spec_depth(bytes),
        }
    }

    open spec fn spec_mem(bytes: Seq<u8>, align: Option<MemAlignment>) -> nat {
        match A::spec_parse(bytes) {
            Some(n) => A::spec_mem(bytes, align) + <(B, C, D, E, F, G, H)>::spec_mem(bytes.skip(n as int), align),
            None => A::spec_mem(bytes, align),
        }
    }

    fn decode<I: Input>(input: &mut I) -> (r: Result<(A, B, C, D, E, F, G, H), Error>) {
        let ghost before = old(input).unread();
        let ghost s0 = *old(input);
        let ghost al = mem_alignment(s0);
        let ghost da = A::spec_depth(before);
        let ghost ma = A::spec_mem(before, al);
        let ghost tail = before.skip(A::spec_parse(before).unwrap() as int);
        proof {
            if Self::spec_parse(before) is Some {
                assert(Self::spec_depth(before) == deeper(da, <(B, C, D, E, F, G, H)>::spec_depth(tail)));
                assert(Self::spec_mem(before, al) == ma + <(B, C, D, E, F, G, H)>::spec_mem(tail, al));
            }
        }
        let ra = A::decode(input);
        let ghost ra_g = ra;
        let ghost s1 = *input;
        let v0 = match ra {
            Ok(v) => v,
            Err(e) => {
                proof {
                    if Self::spec_parse(before) is Some {
                        lemma_limits_stop(
                            s0,
                            s1,
                            ra_g,
                            Err::<(A, B, C, D, E, F, G, H), Error>(e),
                            da,
                            ma,
                            <(B, C, D, E, F, G, H)>::spec_depth(tail),
                            <(B, C, D, E, F, G, H)>::spec_mem(tail, al),
                        );
                    }
                }
                return Err(e);
            },
        };
        let ghost mid = input.unread();
        let rb = <(B, C, D, E, F, G, H)>::decode(input);
        let ghost rb_g = rb;
        let (v1, v2, v3, v4, v5, v6, v7) = match rb {
            Ok(t) => t,
            Err(e) => {
                proof {
                    if Self::spec_parse(before) is Some {
                        assert(mem_alignment(s1) == al);
                        lemma_limits_then(
                            s0,
                            s1,
                            *input,
                            ra_g,
                            rb_g,
                            Err::<(A, B, C, D, E, F, G, H), Error>(e),
                            da,
                            ma,
                            <(B, C, D, E, F, G, H)>::spec_depth(mid),
                            <(B, C, D, E, F, G, H)>::spec_mem(mid, al),
                        );
                    }
                }
                return Err(e);
            },
        };
        proof {
            let rest = (v1, v2, v3, v4, v5, v6, v7);
            if Self::spec_parse(before) is Some {
                lemma_two_parts(before, v0.spec_encode(), mid, rest.spec_encode(), input.unread());
                assert(mem_alignment(s1) == al);
                lemma_limits_then(
                    s0,
                    s1,
                    *input,
                    ra_g,
                    rb_g,
                    Ok::<(A, B, C, D, E, F, G, H), Error>((v0, v1, v2, v3, v4, v5, v6, v7)),
                    da,
                    ma,
                    <(B, C, D, E, F, G, H)>::spec_depth(mid),
                    <(B, C, D, E, F, G, H)>::spec_mem(mid, al),
                );
            }
        }
        Ok((v0, v1, v2, v3, v4, v5, v6, v7))
    }
}

impl<
    A: DecodeLaws,
    B: DecodeLaws,
    C: DecodeLaws,
    D: DecodeLaws,
    E: DecodeLaws,
    F: DecodeLaws,
    G: DecodeLaws,
    H: DecodeLaws,
> DecodeLaws for (A, B, C, D, E, F, G, H) {
    proof fn lemma_parse_bounded(bytes: Seq<u8>) {
        A::lemma_parse_bounded(bytes);
        if let Some(n) = A::spec_parse(bytes) {
            <(B, C, D, E, F, G, H)>::lemma_parse_bounded(bytes.skip(n as int));
        }
    }

    proof fn lemma_parse_encoding(v: (A, B, C, D, E, F, G, H), rest: Seq<u8>) {
        let ea = v.0.spec_encode();
        let et = rest_of_8(v).spec_encode();
        assert(ea + et + rest =~= ea + (et + rest));
        A::lemma_parse_encoding(v.0, et + rest);
        assert((ea + (et + rest)).skip(ea.len() as int) =~= et + rest);
        <(B, C, D, E, F, G, H)>::lemma_parse_encoding(rest_of_8(v), rest);
    }

    open spec fn same_value(a: (A, B, C, D, E, F, G, H), b: (A, B, C, D, E, F, G, H)) -> bool {
        A::same_value(a.0, b.0) && <(B, C, D, E, F, G, H)>::same_value(rest_of_8(a), rest_of_8(b))
    }

    proof fn lemma_encoding_injective(a: (A, B, C, D, E, F, G, H), b: (A, B, C, D, E, F, G, H)) {
        lemma_split_encodings(a.0, rest_of_8(a).spec_encode(), b.0, rest_of_8(b).spec_encode());
        A::lemma_encoding_injective(a.0, b.0);
        <(B, C, D, E, F, G, H)>::lemma_encoding_injective(rest_of_8(a), rest_of_8(b));
    }
}

impl<
    A: EncodeLike<A2>,
    A2: Encode,
    B: EncodeLike<B2>,
    B2: Encode,
    C: EncodeLike<C2>,
    C2: Encode,
    D: EncodeLike<D2>,
    D2: Encode,
    E: EncodeLike<E2>,
    E2: Encode,
    F: EncodeLike<F2>,
    F2: Encode,
    G: EncodeLike<G2>,
    G2: Encode,
    H: EncodeLike<H2>,
    H2: Encode,
> EncodeLike<(A2, B2, C2, D2, E2, F2, G2, H2)> for (A, B, C, D, E, F, G, H) {

}

impl<A: DecodeLength, B, C, D, E, F, G, H> DecodeLength for (A, B, C, D, E, F, G, H) {
    open spec fn spec_len(self_encoded: Seq<u8>) -> Option<nat> {
        A::spec_len(self_encoded)
    }

    fn len(self_encoded: &[u8]) -> (r: Result<usize, Error>) {
        A::len(self_encoded)
    }
}

impl<
    A: DecodeWithMemTracking,
    B: DecodeWithMemTracking,
    C: DecodeWithMemTracking,
    D: DecodeWithMemTracking,
    E: DecodeWithMemTracking,
    F: DecodeWithMemTracking,
    G: DecodeWithMemTracking,
    H: DecodeWithMemTracking,
> DecodeWithMemTracking for (A, B, C, D, E, F, G, H) {

}

/// The values of a tuple of 9 after its first.
pub open spec fn rest_of_9<A, B, C, D, E, F, G, H, J>(
    t: (A, B, C, D, E, F, G, H, J),
) -> (B, C, D, E, F, G, H, J) {
    (t.1, t.2, t.3, t.4, t.5, t.6, t.7, t.8)
}

impl<
    A: Encode,
    B: Encode,
    C: Encode,
    D: Encode,
    E: Encode,
    F: Encode,
    G: Encode,
    H: Encode,
    J: Encode,
> Encode for (A, B, C, D, E, F, G, H, J) {
    open spec fn spec_encode(&self) -> Seq<u8> {
        self.0.spec_encode() + rest_of_9(*self).spec_encode()
    }

    open spec fn encodable(&self) -> bool {
        self.0.encodable() && rest_of_9(*self).encodable()
    }

    fn size_hint(&self) -> (n: usize)
        ensures
            exists|h0: usize, h1: usize, h2: usize, h3: usize, h4: usize, h5: usize, h6: usize, h7: usize, h8: usize|
                size_hint_of(&self.0, h0) && size_hint_of(&self.1, h1)
                    && size_hint_of(&self.2, h2) && size_hint_of(&self.3, h3)
                    && size_hint_of(&self.4, h4) && size_hint_of(&self.5, h5)
                    && size_hint_of(&self.6, h6) && size_hint_of(&self.7, h7)
                    && size_hint_of(&self.8, h8)
                    && n == saturated(h0 + h1 + h2 + h3 + h4 + h5 + h6 + h7 + h8),
    {
        let h0 = hint_of(&self.0);
        let h1 = hint_of(&self.1);
        let h2 = hint_of(&self.2);
        let h3 = hint_of(&self.3);
        let h4 = hint_of(&self.4);
        let h5 = hint_of(&self.5);
        let h6 = hint_of(&self.6);
        let h7 = hint_of(&self.7);
        let h8 = hint_of(&self.8);
        let mut n = h0;
        n = n.saturating_add(h1);
        assert(n == saturated(h0 + h1));
        n = n.saturating_add(h2);
        assert(n == saturated(h0 + h1 + h2));
        n = n.saturating_add(h3);
        assert(n == saturated(h0 + h1 + h2 + h3));
        n = n.saturating_add(h4);
        assert(n == saturated(h0 + h1 + h2 + h3 + h4));
        n = n.saturating_add(h5);
        assert(n == saturated(h0 + h1 + h2 + h3 + h4 + h5));
        n = n.saturating_add(h6);
        assert(n == saturated(h0 + h1 + h2 + h3 + h4 + h5 + h6));
        n = n.saturating_add(h7);
        assert(n == saturated(h0 + h1 + h2 + h3 + h4 + h5 + h6 + h7));
        n = n.saturating_add(h8);
        assert(n == saturated(h0 + h1 + h2 + h3 + h4 + h5 + h6 + h7 + h8));
        n
    }

    fn encode_to<W: Output>(&self, dest: &mut W) {
        let rest = (&self.1, &self.2, &self.3, &self.4, &self.5, &self.6, &self.7, &self.8);
        assert(rest.spec_encode() == rest_of_9(*self).spec_encode());
        assert(rest.encodable() == rest_of_9(*self).encodable());
        self.0.encode_to(dest);
        rest.encode_to(dest);
        assert(dest.written() =~= old(dest).written() + self.spec_encode());
    }
}

impl<
    A: Decode,
    B: Decode,
    C: Decode,
    D: Decode,
    E: Decode,
    F: Decode,
    G: Decode,
    H: Decode,
    J: Decode,
> Decode for (A, B, C, D, E, F, G, H, J) {
    open spec fn spec_parse(bytes: Seq<u8>) -> Option<nat> {
        pair_parse(
            A::spec_parse(bytes),
            |n: nat| <(B, C, D, E, F, G, H, J)>::spec_parse(bytes.skip(n as int)),
        )
    }

    open spec fn spec_depth(bytes: Seq<u8>) -> nat {
        match A::spec_parse(bytes) {
            Some(n) => deeper(A::spec_depth(bytes), <(B, C, D, E, F, G, H, J)>::spec_depth(bytes.skip(n as int))),
            None => A::spec_depth(bytes),
        }
    }

    open spec fn spec_mem(bytes: Seq<u8>, align: Option<MemAlignment>) -> nat {
        match A::spec_parse(bytes) {
            Some(n) => A::spec_mem(bytes, align) + <(B, C, D, E, F, G, H, J)>::spec_mem(bytes.skip(n as int), align),
            None => A::spec_mem(bytes, align),
        }
    }

    fn decode<I: Input>(input: &mut I) -> (r: Result<(A, B, C, D, E, F, G, H, J), Error>) {
        let ghost before = old(input).unread();
        let ghost s0 = *old(input);
        let ghost al = mem_alignment(s0);
        let ghost da = A::spec_depth(before);
        let ghost ma = A::spec_mem(before, al);
        let ghost tail = before.skip(A::spec_parse(before).unwrap() as int);
        proof {
            if Self::spec_parse(before) is Some {
                assert(Self::spec_depth(before) == deeper(da, <(B, C, D, E, F, G, H, J)>::spec_depth(tail)));
                assert(Self::spec_mem(before, al) == ma + <(B, C, D, E, F, G, H, J)>::spec_mem(tail, al));
            }
        }
        let ra = A::decode(input);
        let ghost ra_g = ra;
        let ghost s1 = *input;
        let v0 = match ra {
            Ok(v) => v,
            Err(e) => {
                proof {
                    if Self::spec_parse(before) is Some {
                        lemma_limits_stop(
                            s0,
                            s1,
                            ra_g,
                            Err::<(A, B, C, D, E, F, G, H, J), Error>(e),
                            da,
                            ma,
                            <(B, C, D, E, F, G, H, J)>::spec_depth(tail),
                            <(B, C, D, E, F, G, H, J)>::spec_mem(tail, al),
                        );
                    }
                }
                return Err(e);
            },
        };
        let ghost mid = input.unread();
        let rb = <(B, C, D, E, F, G, H, J)>::decode(input);
        let ghost rb_g = rb;
        let (v1, v2, v3, v4, v5, v6, v7, v8) = match rb {
            Ok(t) => t,
            Err(e) => {
                proof {
                    if Self::spec_parse(before) is Some {
                        assert(mem_alignment(s1) == al);
                        lemma_limits_then(
                            s0,
                            s1,
                            *input,
                            ra_g,
                            rb_g,
                            Err::<(A, B, C, D, E, F, G, H, J), Error>(e),
                            da,
                            ma,
                            <(B, C, D, E, F, G, H, J)>::spec_depth(mid),
                            <(B, C, D, E, F, G, H, J)>::spec_mem(mid, al),
                        );
                    }
                }
                return Err(e);
            },
        };
        proof {
            let rest = (v1, v2, v3, v4, v5, v6, v7, v8);
            if Self::spec_parse(before) is Some {
                lemma_two_parts(before, v0.spec_encode(), mid, rest.spec_encode(), input.unread());
                assert(mem_alignment(s1) == al);
                lemma_limits_then(
                    s0,
                    s1,
                    *input,
                    ra_g,
                    rb_g,
                    Ok::<(A, B, C, D, E, F, G, H, J), Error>((v0, v1, v2, v3, v4, v5, v6, v7, v8)),
                    da,
                    ma,
                    <(B, C, D, E, F, G, H, J)>::spec_depth(mid),
                    <(B, C, D, E, F, G, H, J)>::spec_mem(mid, al),
                );
            }
        }
        Ok((v0, v1, v2, v3, v4, v5, v6, v7, v8))
    }
}

impl<
    A: DecodeLaws,
    B: DecodeLaws,
    C: DecodeLaws,
    D: DecodeLaws,
    E: DecodeLaws,
    F: DecodeLaws,
    G: DecodeLaws,
    H: DecodeLaws,
    J: DecodeLaws,
> DecodeLaws for (A, B, C, D, E, F, G, H, J) {
    proof fn lemma_parse_bounded(bytes: Seq<u8>) {
        A::lemma_parse_bounded(bytes);
        if let Some(n) = A::spec_parse(bytes) {
            <(B, C, D, E, F, G, H, J)>::lemma_parse_bounded(bytes.skip(n as int));
        }
    }

    proof fn lemma_parse_encoding(v: (A, B, C, D, E, F, G, H, J), rest: Seq<u8>) {
        let ea = v.0.spec_encode();
        let et = rest_of_9(v).spec_encode();
        assert(ea + et + rest =~= ea + (et + rest));
        A::lemma_parse_encoding(v.0, et + rest);
        assert((ea + (et + rest)).skip(ea.len() as int) =~= et + rest);
        <(B, C, D, E, F, G, H, J)>::lemma_parse_encoding(rest_of_9(v), rest);
    }

    open spec fn same_value(
        a: (A, B, C, D, E, F, G, H, J),
        b: (A, B, C, D, E, F, G, H, J),
    ) -> bool {
        A::same_value(a.0, b.0)
            && <(B, C, D, E, F, G, H, J)>::same_value(rest_of_9(a), rest_of_9(b))
    }

    proof fn lemma_encoding_injective(
        a: (A, B, C, D, E, F, G, H, J),
        b: (A, B, C, D, E, F, G, H, J),
    ) {
        lemma_split_encodings(a.0, rest_of_9(a).spec_encode(), b.0, rest_of_9(b).spec_encode());
        A::lemma_encoding_injective(a.0, b.0);
        <(B, C, D, E, F, G, H, J)>::lemma_encoding_injective(rest_of_9(a), rest_of_9(b));
    }
}

impl<
    A: EncodeLike<A2>,
    A2: Encode,
    B: EncodeLike<B2>,
    B2: Encode,
    C: EncodeLike<C2>,
    C2: Encode,
    D: EncodeLike<D2>,
    D2: Encode,
    E: EncodeLike<E2>,
    E2: Encode,
    F: EncodeLike<F2>,
    F2: Encode,
    G: EncodeLike<G2>,
    G2: Encode,
    H: EncodeLike<H2>,
    H2: Encode,
    J: EncodeLike<J2>,
    J2: Encode,
> EncodeLike<(A2, B2, C2, D2, E2, F2, G2, H2, J2)> for (A, B, C, D, E, F, G, H, J) {

}

impl<A: DecodeLength, B, C, D, E, F, G, H, J> DecodeLength for (A, B, C, D, E, F, G, H, J) {
    open spec fn spec_len(self_encoded: Seq<u8>) -> Option<nat> {
        A::spec_len(self_encoded)
    }

    fn len(self_encoded: &[u8]) -> (r: Result<usize, Error>) {
        A::len(self_encoded)
    }
}

impl<
    A: DecodeWithMemTracking,
    B: DecodeWithMemTracking,
    C: DecodeWithMemTracking,
    D: DecodeWithMemTracking,
    E: DecodeWithMemTracking,
    F: DecodeWithMemTracking,
    G: DecodeWithMemTracking,
    H: DecodeWithMemTracking,
    J: DecodeWithMemTracking,
> DecodeWithMemTracking for (A, B, C, D, E, F, G, H, J) {

}

/// The values of a tuple of 10 after its first.
pub open spec fn rest_of_10<A, B, C, D, E, F, G, H, J, K>(
    t: (A, B, C, D, E, F, G, H, J, K),
) -> (B, C, D, E, F, G, H, J, K) {
    (t.1, t.2, t.3, t.4, t.5, t.6, t.7, t.8, t.9)
}

impl<
    A: Encode,
    B: Encode,
    C: Encode,
    D: Encode,
    E: Encode,
    F: Encode,
    G: Encode,
    H: Encode,
    J: Encode,
    K: Encode,
> Encode for (A, B, C, D, E, F, G, H, J, K) {
    open spec fn spec_encode(&self) -> Seq<u8> {
        self.0.spec_encode() + rest_of_10(*self).spec_encode()
    }

    open spec fn encodable(&self) -> bool {
        self.0.encodable() && rest_of_10(*self).encodable()
    }

    fn size_hint(&self) -> (n: usize)
        ensures
            exists|h0: usize, h1: usize, h2: usize, h3: usize, h4: usize, h5: usize, h6: usize, h7: usize, h8: usize, h9: usize|
                size_hint_of(&self.0, h0) && size_hint_of(&self.1, h1)
                    && size_hint_of(&self.2, h2) && size_hint_of(&self.3, h3)
                    && size_hint_of(&self.4, h4) && size_hint_of(&self.5, h5)
                    && size_hint_of(&self.6, h6) && size_hint_of(&self.7, h7)
                    && size_hint_of(&self.8, h8) && size_hint_of(&self.9, h9)
                    && n == saturated(h0 + h1 + h2 + h3 + h4 + h5 + h6 + h7 + h8 + h9),
    {
        let h0 = hint_of(&self.0);
        let h1 = hint_of(&self.1);
        let h2 = hint_of(&self.2);
        let h3 = hint_of(&self.3);
        let h4 = hint_of(&self.4);
        let h5 = hint_of(&self.5);
        let h6 = hint_of(&self.6);
        let h7 = hint_of(&self.7);
        let h8 = hint_of(&self.8);
        let h9 = hint_of(&self.9);
        let mut n = h0;
        n = n.saturating_add(h1);
        assert(n == saturated(h0 + h1));
        n = n.saturating_add(h2);
        assert(n == saturated(h0 + h1 + h2));
        n = n.saturating_add(h3);
        assert(n == saturated(h0 + h1 + h2 + h3));
        n = n.saturating_add(h4);
        assert(n == saturated(h0 + h1 + h2 + h3 + h4));
        n = n.saturating_add(h5);
        assert(n == saturated(h0 + h1 + h2 + h3 + h4 + h5));
        n = n.saturating_add(h6);
        assert(n == saturated(h0 + h1 + h2 + h3 + h4 + h5 + h6));
        n = n.saturating_add(h7);
        assert(n == saturated(h0 + h1 + h2 + h3 + h4 + h5 + h6 + h7));
        n = n.saturating_add(h8);
        assert(n == saturated(h0 + h1 + h2 + h3 + h4 + h5 + h6 + h7 + h8));
        n = n.saturating_add(h9);
        assert(n == saturated(h0 + h1 + h2 + h3 + h4 + h5 + h6 + h7 + h8 + h9));
        n
    }

    fn encode_to<W: Output>(&self, dest: &mut W) {
        let rest = (
            &self.1,
            &self.2,
            &self.3,
            &self.4,
            &self.5,
            &self.6,
            &self.7,
            &self.8,
            &self.9,
        );
        assert(rest.spec_encode() == rest_of_10(*self).spec_encode());
        assert(rest.encodable() == rest_of_10(*self).encodable());
        self.0.encode_to(dest);
        rest.encode_to(dest);
        assert(dest.written() =~= old(dest).written() + self.spec_encode());
    }
}

impl<
    A: Decode,
    B: Decode,
    C: Decode,
    D: Decode,
    E: Decode,
    F: Decode,
    G: Decode,
    H: Decode,
    J: Decode,
    K: Decode,
> Decode for (A, B, C, D, E, F, G, H, J, K) {
    open spec fn spec_parse(bytes: Seq<u8>) -> Option<nat> {
        pair_parse(
            A::spec_parse(bytes),
            |n: nat| <(B, C, D, E, F, G, H, J, K)>::spec_parse(bytes.skip(n as int)),
        )
    }

    open spec fn spec_depth(bytes: Seq<u8>) -> nat {
        match A::spec_parse(bytes) {
            Some(n) => deeper(A::spec_depth(bytes), <(B, C, D, E, F, G, H, J, K)>::spec_depth(bytes.skip(n as int))),
            None => A::spec_depth(bytes),
        }
    }

    open spec fn spec_mem(bytes: Seq<u8>, align: Option<MemAlignment>) -> nat {
        match A::spec_parse(bytes) {
            Some(n) => A::spec_mem(bytes, align) + <(B, C, D, E, F, G, H, J, K)>::spec_mem(bytes.skip(n as int), align),
            None => A::spec_mem(bytes, align),
        }
    }

    fn decode<I: Input>(input: &mut I) -> (r: Result<(A, B, C, D, E, F, G, H, J, K), Error>) {
        let ghost before = old(input).unread();
        let ghost s0 = *old(input);
        let ghost al = mem_alignment(s0);
        let ghost da = A::spec_depth(before);
        let ghost ma = A::spec_mem(before, al);
        let ghost tail = before.skip(A::spec_parse(before).unwrap() as int);
        proof {
            if Self::spec_parse(before) is Some {
                assert(Self::spec_depth(before) == deeper(da, <(B, C, D, E, F, G, H, J, K)>::spec_depth(tail)));
                assert(Self::spec_mem(before, al) == ma + <(B, C, D, E, F, G, H, J, K)>::spec_mem(tail, al));
            }
        }
        let ra = A::decode(input);
        let ghost ra_g = ra;
        let ghost s1 = *input;
        let v0 = match ra {
            Ok(v) => v,
            Err(e) => {
                proof {
                    if Self::spec_parse(before) is Some {
                        lemma_limits_stop(
                            s0,
                            s1,
                            ra_g,
                            Err::<(A, B, C, D, E, F, G, H, J, K), Error>(e),
                            da,
                            ma,
                            <(B, C, D, E, F, G, H, J, K)>::spec_depth(tail),
                            <(B, C, D, E, F, G, H, J, K)>::spec_mem(tail, al),
                        );
                    }
                }
                return Err(e);
            },
        };
        let ghost mid = input.unread();
        let rb = <(B, C, D, E, F, G, H, J, K)>::decode(input);
        let ghost rb_g = rb;
        let (v1, v2, v3, v4, v5, v6, v7, v8, v9) = match rb {
            Ok(t) => t,
            Err(e) => {
                proof {
                    if Self::spec_parse(before) is Some {
                        assert(mem_alignment(s1) == al);
                        lemma_limits_then(
                            s0,
                            s1,
                            *input,
                            ra_g,
                            rb_g,
                            Err::<(A, B, C, D, E, F, G, H, J, K), Error>(e),
                            da,
                            ma,
                            <(B, C, D, E, F, G, H, J, K)>::spec_depth(mid),
                            <(B, C, D, E, F, G, H, J, K)>::spec_mem(mid, al),
                        );
                    }
                }
                return Err(e);
            },
        };
        proof {
            let rest = (v1, v2, v3, v4, v5, v6, v7, v8, v9);
            if Self::spec_parse(before) is Some {
                lemma_two_parts(before, v0.spec_encode(), mid, rest.spec_encode(), input.unread());
                assert(mem_alignment(s1) == al);
                lemma_limits_then(
                    s0,
                    s1,
                    *input,
                    ra_g,
                    rb_g,
                    Ok::<(A, B, C, D, E, F, G, H, J, K), Error>((v0, v1, v2, v3, v4, v5, v6, v7, v8, v9)),
                    da,
                    ma,
                    <(B, C, D, E, F, G, H, J, K)>::spec_depth(mid),
                    <(B, C, D, E, F, G, H, J, K)>::spec_mem(mid, al),
                );
            }
        }
        Ok((v0, v1, v2, v3, v4, v5, v6, v7, v8, v9))
    }
}

impl<
    A: DecodeLaws,
    B: DecodeLaws,
    C: DecodeLaws,
    D: DecodeLaws,
    E: DecodeLaws,
    F: DecodeLaws,
    G: DecodeLaws,
    H: DecodeLaws,
    J: DecodeLaws,
    K: DecodeLaws,
> DecodeLaws for (A, B, C, D, E, F, G, H, J, K) {
    proof fn lemma_parse_bounded(bytes: Seq<u8>) {
        A::lemma_parse_bounded(bytes);
        if let Some(n) = A::spec_parse(bytes) {
            <(B, C, D, E, F, G, H, J, K)>::lemma_parse_bounded(bytes.skip(n as int));
        }
    }

    proof fn lemma_parse_encoding(v: (A, B, C, D, E, F, G, H, J, K), rest: Seq<u8>) {
        let ea = v.0.spec_encode();
        let et = rest_of_10(v).spec_encode();
        assert(ea + et + rest =~= ea + (et + rest));
        A::lemma_parse_encoding(v.0, et + rest);
        assert((ea + (et + rest)).skip(ea.len() as int) =~= et + rest);
        <(B, C, D, E, F, G, H, J, K)>::lemma_parse_encoding(rest_of_10(v), rest);
    }

    open spec fn same_value(
        a: (A, B, C, D, E, F, G, H, J, K),
        b: (A, B, C, D, E, F, G, H, J, K),
    ) -> bool {
        A::same_value(a.0, b.0)
            && <(B, C, D, E, F, G, H, J, K)>::same_value(rest_of_10(a), rest_of_10(b))
    }

    proof fn lemma_encoding_injective(
        a: (A, B, C, D, E, F, G, H, J, K),
        b: (A, B, C, D, E, F, G, H, J, K),
    ) {
        lemma_split_encodings(a.0, rest_of_10(a).spec_encode(), b.0, rest_of_10(b).spec_encode());
        A::lemma_encoding_injective(a.0, b.0);
        <(B, C, D, E, F, G, H, J, K)>::lemma_encoding_injective(rest_of_10(a), rest_of_10(b));
    }
}

impl<
    A: EncodeLike<A2>,
    A2: Encode,
    B: EncodeLike<B2>,
    B2: Encode,
    C: EncodeLike<C2>,
    C2: Encode,
    D: EncodeLike<D2>,
    D2: Encode,
    E: EncodeLike<E2>,
    E2: Encode,
    F: EncodeLike<F2>,
    F2: Encode,
    G: EncodeLike<G2>,
    G2: Encode,
    H: EncodeLike<H2>,
    H2: Encode,
    J: EncodeLike<J2>,
    J2: Encode,
    K: EncodeLike<K2>,
    K2: Encode,
> EncodeLike<(A2, B2, C2, D2, E2, F2, G2, H2, J2, K2)> for (A, B, C, D, E, F, G, H, J, K) {

}

impl<A: DecodeLength, B, C, D, E, F, G, H, J, K> DecodeLength for (A, B, C, D, E, F, G, H, J, K) {
    open spec fn spec_len(self_encoded: Seq<u8>) -> Option<nat> {
        A::spec_len(self_encoded)
    }

    fn len(self_encoded: &[u8]) -> (r: Result<usize, Error>) {
        A::len(self_encoded)
    }
}

impl<
    A: DecodeWithMemTracking,
    B: DecodeWithMemTracking,
    C: DecodeWithMemTracking,
    D: DecodeWithMemTracking,
    E: DecodeWithMemTracking,
    F: DecodeWithMemTracking,
    G: DecodeWithMemTracking,
    H: DecodeWithMemTracking,
    J: DecodeWithMemTracking,
    K: DecodeWithMemTracking,
> DecodeWithMemTracking for (A, B, C, D, E, F, G, H, J, K) {

}

/// The values of a tuple of 11 after its first.
pub open spec fn rest_of_11<A, B, C, D, E, F, G, H, J, K, L>(
    t: (A, B, C, D, E, F, G, H, J, K, L),
) -> (B, C, D, E, F, G, H, J, K, L) {
    (t.1, t.2, t.3, t.4, t.5, t.6, t.7, t.8, t.9, t.10)
}

impl<
    A: Encode,
    B: Encode,
    C: Encode,
    D: Encode,
    E: Encode,
    F: Encode,
    G: Encode,
    H: Encode,
    J: Encode,
    K: Encode,
    L: Encode,
> Encode for (A, B, C, D, E, F, G, H, J, K, L) {
    open spec fn spec_encode(&self) -> Seq<u8> {
        self.0.spec_encode() + rest_of_11(*self).spec_encode()
    }

    open spec fn encodable(&self) -> bool {
        self.0.encodable() && rest_of_11(*self).encodable()
    }

    fn size_hint(&self) -> (n: usize)
        ensures
            exists|h0: usize, h1: usize, h2: usize, h3: usize, h4: usize, h5: usize, h6: usize, h7: usize, h8: usize, h9: usize, h10: usize|
                size_hint_of(&self.0, h0) && size_hint_of(&self.1, h1)
                    && size_hint_of(&self.2, h2) && size_hint_of(&self.3, h3)
                    && size_hint_of(&self.4, h4) && size_hint_of(&self.5, h5)
                    && size_hint_of(&self.6, h6) && size_hint_of(&self.7, h7)
                    && size_hint_of(&self.8, h8) && size_hint_of(&self.9, h9)
                    && size_hint_of(&self.10, h10)
                    && n == saturated(h0 + h1 + h2 + h3 + h4 + h5 + h6 + h7 + h8 + h9 + h10),
    {
        let h0 = hint_of(&self.0);
        let h1 = hint_of(&self.1);
        let h2 = hint_of(&self.2);
        let h3 = hint_of(&self.3);
        let h4 = hint_of(&self.4);
        let h5 = hint_of(&self.5);
        let h6 = hint_of(&self.6);
        let h7 = hint_of(&self.7);
        let h8 = hint_of(&self.8);
        let h9 = hint_of(&self.9);
        let h10 = hint_of(&self.10);
        let mut n = h0;
        n = n.saturating_add(h1);
        assert(n == saturated(h0 + h1));
        n = n.saturating_add(h2);
        assert(n == saturated(h0 + h1 + h2));
        n = n.saturating_add(h3);
        assert(n == saturated(h0 + h1 + h2 + h3));
        n = n.saturating_add(h4);
        assert(n == saturated(h0 + h1 + h2 + h3 + h4));
        n = n.saturating_add(h5);
        assert(n == saturated(h0 + h1 + h2 + h3 + h4 + h5));
        n = n.saturating_add(h6);
        assert(n == saturated(h0 + h1 + h2 + h3 + h4 + h5 + h6));
        n = n.saturating_add(h7);
        assert(n == saturated(h0 + h1 + h2 + h3 + h4 + h5 + h6 + h7));
        n = n.saturating_add(h8);
        assert(n == saturated(h0 + h1 + h2 + h3 + h4 + h5 + h6 + h7 + h8));
        n = n.saturating_add(h9);
        assert(n == saturated(h0 + h1 + h2 + h3 + h4 + h5 + h6 + h7 + h8 + h9));
        n = n.saturating_add(h10);
        assert(n == saturated(h0 + h1 + h2 + h3 + h4 + h5 + h6 + h7 + h8 + h9 + h10));
        n
    }

    fn encode_to<W: Output>(&self, dest: &mut W) {
        let rest = (
            &self.1,
            &self.2,
            &self.3,
            &self.4,
            &self.5,
            &self.6,
            &self.7,
            &self.8,
            &self.9,
            &self.10,
        );
        assert(rest.spec_encode() == rest_of_11(*self).spec_encode());
        assert(rest.encodable() == rest_of_11(*self).encodable());
        self.0.encode_to(dest);
        rest.encode_to(dest);
        assert(dest.written() =~= old(dest).written() + self.spec_encode());
    }
}

impl<
    A: Decode,
    B: Decode,
    C: Decode,
    D: Decode,
    E: Decode,
    F: Decode,
    G: Decode,
    H: Decode,
    J: Decode,
    K: Decode,
    L: Decode,
> Decode for (A, B, C, D, E, F, G, H, J, K, L) {
    open spec fn spec_parse(bytes: Seq<u8>) -> Option<nat> {
        pair_parse(
            A::spec_parse(bytes),
            |n: nat| <(B, C, D, E, F, G, H, J, K, L)>::spec_parse(bytes.skip(n as int)),
        )
    }

    open spec fn spec_depth(bytes: Seq<u8>) -> nat {
        match A::spec_parse(bytes) {
            Some(n) => deeper(A::spec_depth(bytes), <(B, C, D, E, F, G, H, J, K, L)>::spec_depth(bytes.skip(n as int))),
            None => A::spec_depth(bytes),
        }
    }

    open spec fn spec_mem(bytes: Seq<u8>, align: Option<MemAlignment>) -> nat {
        match A::spec_parse(bytes) {
            Some(n) => A::spec_mem(bytes, align) + <(B, C, D, E, F, G, H, J, K, L)>::spec_mem(bytes.skip(n as int), align),
            None => A::spec_mem(bytes, align),
        }
    }

    fn decode<I: Input>(input: &mut I) -> (r: Result<(A, B, C, D, E, F, G, H, J, K, L), Error>) {
        let ghost before = old(input).unread();
        let ghost s0 = *old(input);
        let ghost al = mem_alignment(s0);
        let ghost da = A::spec_depth(before);
        let ghost ma = A::spec_mem(before, al);
        let ghost tail = before.skip(A::spec_parse(before).unwrap() as int);
        proof {
            if Self::spec_parse(before) is Some {
                assert(Self::spec_depth(before) == deeper(da, <(B, C, D, E, F, G, H, J, K, L)>::spec_depth(tail)));
                assert(Self::spec_mem(before, al) == ma + <(B, C, D, E, F, G, H, J, K, L)>::spec_mem(tail, al));
            }
        }
        let ra = A::decode(input);
        let ghost ra_g = ra;
        let ghost s1 = *input;
        let v0 = match ra {
            Ok(v) => v,
            Err(e) => {
                proof {
                    if Self::spec_parse(before) is Some {
                        lemma_limits_stop(
                            s0,
                            s1,
                            ra_g,
                            Err::<(A, B, C, D, E, F, G, H, J, K, L), Error>(e),
                            da,
                            ma,
                            <(B, C, D, E, F, G, H, J, K, L)>::spec_depth(tail),
                            <(B, C, D, E, F, G, H, J, K, L)>::spec_mem(tail, al),
                        );
                    }
                }
                return Err(e);
            },
        };
        let ghost mid = input.unread();
        let rb = <(B, C, D, E, F, G, H, J, K, L)>::decode(input);
        let ghost rb_g = rb;
        let (v1, v2, v3, v4, v5, v6, v7, v8, v9, v10) = match rb {
            Ok(t) => t,
            Err(e) => {
                proof {
                    if Self::spec_parse(before) is Some {
                        assert(mem_alignment(s1) == al);
                        lemma_limits_then(
                            s0,
                            s1,
                            *input,
                            ra_g,
                            rb_g,
                            Err::<(A, B, C, D, E, F, G, H, J, K, L), Error>(e),
                            da,
                            ma,
                            <(B, C, D, E, F, G, H, J, K, L)>::spec_depth(mid),
                            <(B, C, D, E, F, G, H, J, K, L)>::spec_mem(mid, al),
                        );
                    }
                }
                return Err(e);
            },
        };
        proof {
            let rest = (v1, v2, v3, v4, v5, v6, v7, v8, v9, v10);
            if Self::spec_parse(before) is Some {
                lemma_two_parts(before, v0.spec_encode(), mid, rest.spec_encode(), input.unread());
                assert(mem_alignment(s1) == al);
                lemma_limits_then(
                    s0,
                    s1,
                    *input,
                    ra_g,
                    rb_g,
                    Ok::<(A, B, C, D, E, F, G, H, J, K, L), Error>((v0, v1, v2, v3, v4, v5, v6, v7, v8, v9, v10)),
                    da,
                    ma,
                    <(B, C, D, E, F, G, H, J, K, L)>::spec_depth(mid),
                    <(B, C, D, E, F, G, H, J, K, L)>::spec_mem(mid, al),
                );
            }
        }
        Ok((v0, v1, v2, v3, v4, v5, v6, v7, v8, v9, v10))
    }
}

impl<
    A: DecodeLaws,
    B: DecodeLaws,
    C: DecodeLaws,
    D: DecodeLaws,
    E: DecodeLaws,
    F: DecodeLaws,
    G: DecodeLaws,
    H: DecodeLaws,
    J: DecodeLaws,
    K: DecodeLaws,
    L: DecodeLaws,
> DecodeLaws for (A, B, C, D, E, F, G, H, J, K, L) {
    proof fn lemma_parse_bounded(bytes: Seq<u8>) {
        A::lemma_parse_bounded(bytes);
        if let Some(n) = A::spec_parse(bytes) {
            <(B, C, D, E, F, G, H, J, K, L)>::lemma_parse_bounded(bytes.skip(n as int));
        }
    }

    proof fn lemma_parse_encoding(v: (A, B, C, D, E, F, G, H, J, K, L), rest: Seq<u8>) {
        let ea = v.0.spec_encode();
        let et = rest_of_11(v).spec_encode();
        assert(ea + et + rest =~= ea + (et + rest));
        A::lemma_parse_encoding(v.0, et + rest);
        assert((ea + (et + rest)).skip(ea.len() as int) =~= et + rest);
        <(B, C, D, E, F, G, H, J, K, L)>::lemma_parse_encoding(rest_of_11(v), rest);
    }

    open spec fn same_value(
        a: (A, B, C, D, E, F, G, H, J, K, L),
        b: (A, B, C, D, E, F, G, H, J, K, L),
    ) -> bool {
        A::same_value(a.0, b.0)
            && <(B, C, D, E, F, G, H, J, K, L)>::same_value(rest_of_11(a), rest_of_11(b))
    }

    proof fn lemma_encoding_injective(
        a: (A, B, C, D, E, F, G, H, J, K, L),
        b: (A, B, C, D, E, F, G, H, J, K, L),
    ) {
        lemma_split_encodings(a.0, rest_of_11(a).spec_encode(), b.0, rest_of_11(b).spec_encode());
        A::lemma_encoding_injective(a.0, b.0);
        <(B, C, D, E, F, G, H, J, K, L)>::lemma_encoding_injective(rest_of_11(a), rest_of_11(b));
    }
}

impl<
    A: EncodeLike<A2>,
    A2: Encode,
    B: EncodeLike<B2>,
    B2: Encode,
    C: EncodeLike<C2>,
    C2: Encode,
    D: EncodeLike<D2>,
    D2: Encode,
    E: EncodeLike<E2>,
    E2: Encode,
    F: EncodeLike<F2>,
    F2: Encode,
    G: EncodeLike<G2>,
    G2: Encode,
    H: EncodeLike<H2>,
    H2: Encode,
    J: EncodeLike<J2>,
    J2: Encode,
    K: EncodeLike<K2>,
    K2: Encode,
    L: EncodeLike<L2>,
    L2: Encode,
> EncodeLike<(A2, B2, C2, D2, E2, F2, G2, H2, J2, K2, L2)> for (A, B, C, D, E, F, G, H, J, K, L) {

}

impl<
    A: DecodeLength,
    B,
    C,
    D,
    E,
    F,
    G,
    H,
    J,
    K,
    L,
> DecodeLength for (A, B, C, D, E, F, G, H, J, K, L) {
    open spec fn spec_len(self_encoded: Seq<u8>) -> Option<nat> {
        A::spec_len(self_encoded)
    }

    fn len(self_encoded: &[u8]) -> (r: Result<usize, Error>) {
        A::len(self_encoded)
    }
}

impl<
    A: DecodeWithMemTracking,
    B: DecodeWithMemTracking,
    C: DecodeWithMemTracking,
    D: DecodeWithMemTracking,
    E: DecodeWithMemTracking,
    F: DecodeWithMemTracking,
    G: DecodeWithMemTracking,
    H: DecodeWithMemTracking,
    J: DecodeWithMemTracking,
    K: DecodeWithMemTracking,
    L: DecodeWithMemTracking,
> DecodeWithMemTracking for (A, B, C, D, E, F, G, H, J, K, L) {

}

/// The values of a tuple of 12 after its first.
pub open spec fn rest_of_12<A, B, C, D, E, F, G, H, J, K, L, M>(
    t: (A, B, C, D, E, F, G, H, J, K, L, M),
) -> (B, C, D, E, F, G, H, J, K, L, M) {
    (t.1, t.2, t.3, t.4, t.5, t.6, t.7, t.8, t.9, t.10, t.11)
}

impl<
    A: Encode,
    B: Encode,
    C: Encode,
    D: Encode,
    E: Encode,
    F: Encode,
    G: Encode,
    H: Encode,
    J: Encode,
    K: Encode,
    L: Encode,
    M: Encode,
> Encode for (A, B, C, D, E, F, G, H, J, K, L, M) {
    open spec fn spec_encode(&self) -> Seq<u8> {
        self.0.spec_encode() + rest_of_12(*self).spec_encode()
    }

    open spec fn encodable(&self) -> bool {
        self.0.encodable() && rest_of_12(*self).encodable()
    }

    fn size_hint(&self) -> (n: usize)
        ensures
            exists|h0: usize, h1: usize, h2: usize, h3: usize, h4: usize, h5: usize, h6: usize, h7: usize, h8: usize, h9: usize, h10: usize, h11: usize|
                size_hint_of(&self.0, h0) && size_hint_of(&self.1, h1)
                    && size_hint_of(&self.2, h2) && size_hint_of(&self.3, h3)
                    && size_hint_of(&self.4, h4) && size_hint_of(&self.5, h5)
                    && size_hint_of(&self.6, h6) && size_hint_of(&self.7, h7)
                    && size_hint_of(&self.8, h8) && size_hint_of(&self.9, h9)
                    && size_hint_of(&self.10, h10) && size_hint_of(&self.11, h11)
                    && n == saturated(h0 + h1 + h2 + h3 + h4 + h5 + h6 + h7 + h8 + h9 + h10 + h11),
    {
        let h0 = hint_of(&self.0);
        let h1 = hint_of(&self.1);
        let h2 = hint_of(&self.2);
        let h3 = hint_of(&self.3);
        let h4 = hint_of(&self.4);
        let h5 = hint_of(&self.5);
        let h6 = hint_of(&self.6);
        let h7 = hint_of(&self.7);
        let h8 = hint_of(&self.8);
        let h9 = hint_of(&self.9);
        let h10 = hint_of(&self.10);
        let h11 = hint_of(&self.11);
        let mut n = h0;
        n = n.saturating_add(h1);
        assert(n == saturated(h0 + h1));
        n = n.saturating_add(h2);
        assert(n == saturated(h0 + h1 + h2));
        n = n.saturating_add(h3);
        assert(n == saturated(h0 + h1 + h2 + h3));
        n = n.saturating_add(h4);
        assert(n == saturated(h0 + h1 + h2 + h3 + h4));
        n = n.saturating_add(h5);
        assert(n == saturated(h0 + h1 + h2 + h3 + h4 + h5));
        n = n.saturating_add(h6);
        assert(n == saturated(h0 + h1 + h2 + h3 + h4 + h5 + h6));
        n = n.saturating_add(h7);
        assert(n == saturated(h0 + h1 + h2 + h3 + h4 + h5 + h6 + h7));
        n = n.saturating_add(h8);
        assert(n == saturated(h0 + h1 + h2 + h3 + h4 + h5 + h6 + h7 + h8));
        n = n.saturating_add(h9);
        assert(n == saturated(h0 + h1 + h2 + h3 + h4 + h5 + h6 + h7 + h8 + h9));
        n = n.saturating_add(h10);
        assert(n == saturated(h0 + h1 + h2 + h3 + h4 + h5 + h6 + h7 + h8 + h9 + h10));
        n = n.saturating_add(h11);
        assert(n == saturated(h0 + h1 + h2 + h3 + h4 + h5 + h6 + h7 + h8 + h9 + h10 + h11));
        n
    }

    fn encode_to<W: Output>(&self, dest: &mut W) {
        let rest = (
            &self.1,
            &self.2,
            &self.3,
            &self.4,
            &self.5,
            &self.6,
            &self.7,
            &self.8,
            &self.9,
            &self.10,
            &self.11,
        );
        assert(rest.spec_encode() == rest_of_12(*self).spec_encode());
        assert(rest.encodable() == rest_of_12(*self).encodable());
        self.0.encode_to(dest);
        rest.encode_to(dest);
        assert(dest.written() =~= old(dest).written() + self.spec_encode());
    }
}

impl<
    A: Decode,
    B: Decode,
    C: Decode,
    D: Decode,
    E: Decode,
    F: Decode,
    G: Decode,
    H: Decode,
    J: Decode,
    K: Decode,
    L: Decode,
    M: Decode,
> Decode for (A, B, C, D, E, F, G, H, J, K, L, M) {
    open spec fn spec_parse(bytes: Seq<u8>) -> Option<nat> {
        pair_parse(
            A::spec_parse(bytes),
            |n: nat| <(B, C, D, E, F, G, H, J, K, L, M)>::spec_parse(bytes.skip(n as int)),
        )
    }

    open spec fn spec_depth(bytes: Seq<u8>) -> nat {
        match A::spec_parse(bytes) {
            Some(n) => deeper(A::spec_depth(bytes), <(B, C, D, E, F, G, H, J, K, L, M)>::spec_depth(bytes.skip(n as int))),
            None => A::spec_depth(bytes),
        }
    }

    open spec fn spec_mem(bytes: Seq<u8>, align: Option<MemAlignment>) -> nat {
        match A::spec_parse(bytes) {
            Some(n) => A::spec_mem(bytes, align) + <(B, C, D, E, F, G, H, J, K, L, M)>::spec_mem(bytes.skip(n as int), align),
            None => A::spec_mem(bytes, align),
        }
    }

    fn decode<I: Input>(input: &mut I) -> (r: Result<(A, B, C, D, E, F, G, H, J, K, L, M), Error>) {
        let ghost before = old(input).unread();
        let ghost s0 = *old(input);
        let ghost al = mem_alignment(s0);
        let ghost da = A::spec_depth(before);
        let ghost ma = A::spec_mem(before, al);
        let ghost tail = before.skip(A::spec_parse(before).unwrap() as int);
        proof {
            if Self::spec_parse(before) is Some {
                assert(Self::spec_depth(before) == deeper(da, <(B, C, D, E, F, G, H, J, K, L, M)>::spec_depth(tail)));
                assert(Self::spec_mem(before, al) == ma + <(B, C, D, E, F, G, H, J, K, L, M)>::spec_mem(tail, al));
            }
        }
        let ra = A::decode(input);
        let ghost ra_g = ra;
        let ghost s1 = *input;
        let v0 = match ra {
            Ok(v) => v,
            Err(e) => {
                proof {
                    if Self::spec_parse(before) is Some {
                        lemma_limits_stop(
                            s0,
                            s1,
                            ra_g,
                            Err::<(A, B, C, D, E, F, G, H, J, K, L, M), Error>(e),
                            da,
                            ma,
                            <(B, C, D, E, F, G, H, J, K, L, M)>::spec_depth(tail),
                            <(B, C, D, E, F, G, H, J, K, L, M)>::spec_mem(tail, al),
                        );
                    }
                }
                return Err(e);
            },
        };
        let ghost mid = input.unread();
        let rb = <(B, C, D, E, F, G, H, J, K, L, M)>::decode(input);
        let ghost rb_g = rb;
        let (v1, v2, v3, v4, v5, v6, v7, v8, v9, v10, v11) = match rb {
            Ok(t) => t,
            Err(e) => {
                proof {
                    if Self::spec_parse(before) is Some {
                        assert(mem_alignment(s1) == al);
                        lemma_limits_then(
                            s0,
                            s1,
                            *input,
                            ra_g,
                            rb_g,
                            Err::<(A, B, C, D, E, F, G, H, J, K, L, M), Error>(e),
                            da,
                            ma,
                            <(B, C, D, E, F, G, H, J, K, L, M)>::spec_depth(mid),
                            <(B, C, D, E, F, G, H, J, K, L, M)>::spec_mem(mid, al),
                        );
                    }
                }
                return Err(e);
            },
        };
        proof {
            let rest = (v1, v2, v3, v4, v5, v6, v7, v8, v9, v10, v11);
            if Self::spec_parse(before) is Some {
                lemma_two_parts(before, v0.spec_encode(), mid, rest.spec_encode(), input.unread());
                assert(mem_alignment(s1) == al);
                lemma_limits_then(
                    s0,
                    s1,
                    *input,
                    ra_g,
                    rb_g,
                    Ok::<(A, B, C, D, E, F, G, H, J, K, L, M), Error>((v0, v1, v2, v3, v4, v5, v6, v7, v8, v9, v10, v11)),
                    da,
                    ma,
                    <(B, C, D, E, F, G, H, J, K, L, M)>::spec_depth(mid),
                    <(B, C, D, E, F, G, H, J, K, L, M)>::spec_mem(mid, al),
                );
            }
        }
        Ok((v0, v1, v2, v3, v4, v5, v6, v7, v8, v9, v10, v11))
    }
}

impl<
    A: DecodeLaws,
    B: DecodeLaws,
    C: DecodeLaws,
    D: DecodeLaws,
    E: DecodeLaws,
    F: DecodeLaws,
    G: DecodeLaws,
    H: DecodeLaws,
    J: DecodeLaws,
    K: DecodeLaws,
    L: DecodeLaws,
    M: DecodeLaws,
> DecodeLaws for (A, B, C, D, E, F, G, H, J, K, L, M) {
    proof fn lemma_parse_bounded(bytes: Seq<u8>) {
        A::lemma_parse_bounded(bytes);
        if let Some(n) = A::spec_parse(bytes) {
            <(B, C, D, E, F, G, H, J, K, L, M)>::lemma_parse_bounded(bytes.skip(n as int));
        }
    }

    proof fn lemma_parse_encoding(v: (A, B, C, D, E, F, G, H, J, K, L, M), rest: Seq<u8>) {
        let ea = v.0.spec_encode();
        let et = rest_of_12(v).spec_encode();
        assert(ea + et + rest =~= ea + (et + rest));
        A::lemma_parse_encoding(v.0, et + rest);
        assert((ea + (et + rest)).skip(ea.len() as int) =~= et + rest);
        <(B, C, D, E, F, G, H, J, K, L, M)>::lemma_parse_encoding(rest_of_12(v), rest);
    }

    open spec fn same_value(
        a: (A, B, C, D, E, F, G, H, J, K, L, M),
        b: (A, B, C, D, E, F, G, H, J, K, L, M),
    ) -> bool {
        A::same_value(a.0, b.0)
            && <(B, C, D, E, F, G, H, J, K, L, M)>::same_value(rest_of_12(a), rest_of_12(b))
    }

    proof fn lemma_encoding_injective(
        a: (A, B, C, D, E, F, G, H, J, K, L, M),
        b: (A, B, C, D, E, F, G, H, J, K, L, M),
    ) {
        lemma_split_encodings(a.0, rest_of_12(a).spec_encode(), b.0, rest_of_12(b).spec_encode());
        A::lemma_encoding_injective(a.0, b.0);
        <(B, C, D, E, F, G, H, J, K, L, M)>::lemma_encoding_injective(rest_of_12(a), rest_of_12(b));
    }
}

impl<
    A: EncodeLike<A2>,
    A2: Encode,
    B: EncodeLike<B2>,
    B2: Encode,
    C: EncodeLike<C2>,
    C2: Encode,
    D: EncodeLike<D2>,
    D2: Encode,
    E: EncodeLike<E2>,
    E2: Encode,
    F: EncodeLike<F2>,
    F2: Encode,
    G: EncodeLike<G2>,
    G2: Encode,
    H: EncodeLike<H2>,
    H2: Encode,
    J: EncodeLike<J2>,
    J2: Encode,
    K: EncodeLike<K2>,
    K2: Encode,
    L: EncodeLike<L2>,
    L2: Encode,
    M: EncodeLike<M2>,
    M2: Encode,
> EncodeLike<(A2, B2, C2, D2, E2, F2, G2, H2, J2, K2, L2, M2)> for (A, B, C, D, E, F, G, H, J, K, L, M) {

}

impl<
    A: DecodeLength,
    B,
    C,
    D,
    E,
    F,
    G,
    H,
    J,
    K,
    L,
    M,
> DecodeLength for (A, B, C, D, E, F, G, H, J, K, L, M) {
    open spec fn spec_len(self_encoded: Seq<u8>) -> Option<nat> {
        A::spec_len(self_encoded)
    }

    fn len(self_encoded: &[u8]) -> (r: Result<usize, Error>) {
        A::len(self_encoded)
    }
}

impl<
    A: DecodeWithMemTracking,
    B: DecodeWithMemTracking,
    C: DecodeWithMemTracking,
    D: DecodeWithMemTracking,
    E: DecodeWithMemTracking,
    F: DecodeWithMemTracking,
    G: DecodeWithMemTracking,
    H: DecodeWithMemTracking,
    J: DecodeWithMemTracking,
    K: DecodeWithMemTracking,
    L: DecodeWithMemTracking,
    M: DecodeWithMemTracking,
> DecodeWithMemTracking for (A, B, C, D, E, F, G, H, J, K, L, M) {

}

/// The values of a tuple of 13 after its first.
pub open spec fn rest_of_13<A, B, C, D, E, F, G, H, J, K, L, M, N>(
    t: (A, B, C, D, E, F, G, H, J, K, L, M, N),
) -> (B, C, D, E, F, G, H, J, K, L, M, N) {
    (t.1, t.2, t.3, t.4, t.5, t.6, t.7, t.8, t.9, t.10, t.11, t.12)
}

impl<
    A: Encode,
    B: Encode,
    C: Encode,
    D: Encode,
    E: Encode,
    F: Encode,
    G: Encode,
    H: Encode,
    J: Encode,
    K: Encode,
    L: Encode,
    M: Encode,
    N: Encode,
> Encode for (A, B, C, D, E, F, G, H, J, K, L, M, N) {
    open spec fn spec_encode(&self) -> Seq<u8> {
        self.0.spec_encode() + rest_of_13(*self).spec_encode()
    }

    open spec fn encodable(&self) -> bool {
        self.0.encodable() && rest_of_13(*self).encodable()
    }

    fn size_hint(&self) -> (n: usize)
        ensures
            exists|h0: usize, h1: usize, h2: usize, h3: usize, h4: usize, h5: usize, h6: usize, h7: usize, h8: usize, h9: usize, h10: usize, h11: usize, h12: usize|
                size_hint_of(&self.0, h0) && size_hint_of(&self.1, h1)
                    && size_hint_of(&self.2, h2) && size_hint_of(&self.3, h3)
                    && size_hint_of(&self.4, h4) && size_hint_of(&self.5, h5)
                    && size_hint_of(&self.6, h6) && size_hint_of(&self.7, h7)
                    && size_hint_of(&self.8, h8) && size_hint_of(&self.9, h9)
                    && size_hint_of(&self.10, h10) && size_hint_of(&self.11, h11)
                    && size_hint_of(&self.12, h12)
                    && n == saturated(h0 + h1 + h2 + h3 + h4 + h5 + h6 + h7 + h8 + h9 + h10 + h11 + h12),
    {
        let h0 = hint_of(&self.0);
        let h1 = hint_of(&self.1);
        let h2 = hint_of(&self.2);
        let h3 = hint_of(&self.3);
        let h4 = hint_of(&self.4);
        let h5 = hint_of(&self.5);
        let h6 = hint_of(&self.6);
        let h7 = hint_of(&self.7);
        let h8 = hint_of(&self.8);
        let h9 = hint_of(&self.9);
        let h10 = hint_of(&self.10);
        let h11 = hint_of(&self.11);
        let h12 = hint_of(&self.12);
        let mut n = h0;
        n = n.saturating_add(h1);
        assert(n == saturated(h0 + h1));
        n = n.saturating_add(h2);
        assert(n == saturated(h0 + h1 + h2));
        n = n.saturating_add(h3);
        assert(n == saturated(h0 + h1 + h2 + h3));
        n = n.saturating_add(h4);
        assert(n == saturated(h0 + h1 + h2 + h3 + h4));
        n = n.saturating_add(h5);
        assert(n == saturated(h0 + h1 + h2 + h3 + h4 + h5));
        n = n.saturating_add(h6);
        assert(n == saturated(h0 + h1 + h2 + h3 + h4 + h5 + h6));
        n = n.saturating_add(h7);
        assert(n == saturated(h0 + h1 + h2 + h3 + h4 + h5 + h6 + h7));
        n = n.saturating_add(h8);
        assert(n == saturated(h0 + h1 + h2 + h3 + h4 + h5 + h6 + h7 + h8));
        n = n.saturating_add(h9);
        assert(n == saturated(h0 + h1 + h2 + h3 + h4 + h5 + h6 + h7 + h8 + h9));
        n = n.saturating_add(h10);
        assert(n == saturated(h0 + h1 + h2 + h3 + h4 + h5 + h6 + h7 + h8 + h9 + h10));
        n = n.saturating_add(h11);
        assert(n == saturated(h0 + h1 + h2 + h3 + h4 + h5 + h6 + h7 + h8 + h9 + h10 + h11));
        n = n.saturating_add(h12);
        assert(n == saturated(h0 + h1 + h2 + h3 + h4 + h5 + h6 + h7 + h8 + h9 + h10 + h11 + h12));
        n
    }

    fn encode_to<W: Output>(&self, dest: &mut W) {
        let rest = (
            &self.1,
            &self.2,
            &self.3,
            &self.4,
            &self.5,
            &self.6,
            &self.7,
            &self.8,
            &self.9,
            &self.10,
            &self.11,
            &self.12,
        );
        assert(rest.spec_encode() == rest_of_13(*self).spec_encode());
        assert(rest.encodable() == rest_of_13(*self).encodable());
        self.0.encode_to(dest);
        rest.encode_to(dest);
        assert(dest.written() =~= old(dest).written() + self.spec_encode());
    }
}

impl<
    A: Decode,
    B: Decode,
    C: Decode,
    D: Decode,
    E: Decode,
    F: Decode,
    G: Decode,
    H: Decode,
    J: Decode,
    K: Decode,
    L: Decode,
    M: Decode,
    N: Decode,
> Decode for (A, B, C, D, E, F, G, H, J, K, L, M, N) {
    open spec fn spec_parse(bytes: Seq<u8>) -> Option<nat> {
        pair_parse(
            A::spec_parse(bytes),
            |n: nat| <(B, C, D, E, F, G, H, J, K, L, M, N)>::spec_parse(bytes.skip(n as int)),
        )
    }

    open spec fn spec_depth(bytes: Seq<u8>) -> nat {
        match A::spec_parse(bytes) {
            Some(n) => deeper(A::spec_depth(bytes), <(B, C, D, E, F, G, H, J, K, L, M, N)>::spec_depth(bytes.skip(n as int))),
            None => A::spec_depth(bytes),
        }
    }

    open spec fn spec_mem(bytes: Seq<u8>, align: Option<MemAlignment>) -> nat {
        match A::spec_parse(bytes) {
            Some(n) => A::spec_mem(bytes, align) + <(B, C, D, E, F, G, H, J, K, L, M, N)>::spec_mem(bytes.skip(n as int), align),
            None => A::spec_mem(bytes, align),
        }
    }

    fn decode<I: Input>(input: &mut I) -> (r: Result<(A, B, C, D, E, F, G, H, J, K, L, M, N), Error>) {
        let ghost before = old(input).unread();
        let ghost s0 = *old(input);
        let ghost al = mem_alignment(s0);
        let ghost da = A::spec_depth(before);
        let ghost ma = A::spec_mem(before, al);
        let ghost tail = before.skip(A::spec_parse(before).unwrap() as int);
        proof {
            if Self::spec_parse(before) is Some {
                assert(Self::spec_depth(before) == deeper(da, <(B, C, D, E, F, G, H, J, K, L, M, N)>::spec_depth(tail)));
                assert(Self::spec_mem(before, al) == ma + <(B, C, D, E, F, G, H, J, K, L, M, N)>::spec_mem(tail, al));
            }
        }
        let ra = A::decode(input);
        let ghost ra_g = ra;
        let ghost s1 = *input;
        let v0 = match ra {
            Ok(v) => v,
            Err(e) => {
                proof {
                    if Self::spec_parse(before) is Some {
                        lemma_limits_stop(
                            s0,
                            s1,
                            ra_g,
                            Err::<(A, B, C, D, E, F, G, H, J, K, L, M, N), Error>(e),
                            da,
                            ma,
                            <(B, C, D, E, F, G, H, J, K, L, M, N)>::spec_depth(tail),
                            <(B, C, D, E, F, G, H, J, K, L, M, N)>::spec_mem(tail, al),
                        );
                    }
                }
                return Err(e);
            },
        };
        let ghost mid = input.unread();
        let rb = <(B, C, D, E, F, G, H, J, K, L, M, N)>::decode(input);
        let ghost rb_g = rb;
        let (v1, v2, v3, v4, v5, v6, v7, v8, v9, v10, v11, v12) = match rb {
            Ok(t) => t,
            Err(e) => {
                proof {
                    if Self::spec_parse(before) is Some {
                        assert(mem_alignment(s1) == al);
                        lemma_limits_then(
                            s0,
                            s1,
                            *input,
                            ra_g,
                            rb_g,
                            Err::<(A, B, C, D, E, F, G, H, J, K, L, M, N), Error>(e),
                            da,
                            ma,
                            <(B, C, D, E, F, G, H, J, K, L, M, N)>::spec_depth(mid),
                            <(B, C, D, E, F, G, H, J, K, L, M, N)>::spec_mem(mid, al),
                        );
                    }
                }
                return Err(e);
            },
        };
        proof {
            let rest = (v1, v2, v3, v4, v5, v6, v7, v8, v9, v10, v11, v12);
            if Self::spec_parse(before) is Some {
                lemma_two_parts(before, v0.spec_encode(), mid, rest.spec_encode(), input.unread());
                assert(mem_alignment(s1) == al);
                lemma_limits_then(
                    s0,
                    s1,
                    *input,
                    ra_g,
                    rb_g,
                    Ok::<(A, B, C, D, E, F, G, H, J, K, L, M, N), Error>((v0, v1, v2, v3, v4, v5, v6, v7, v8, v9, v10, v11, v12)),
                    da,
                    ma,
                    <(B, C, D, E, F, G, H, J, K, L, M, N)>::spec_depth(mid),
                    <(B, C, D, E, F, G, H, J, K, L, M, N)>::spec_mem(mid, al),
                );
            }
        }
        Ok((v0, v1, v2, v3, v4, v5, v6, v7, v8, v9, v10, v11, v12))
    }
}

impl<
    A: DecodeLaws,
    B: DecodeLaws,
    C: DecodeLaws,
    D: DecodeLaws,
    E: DecodeLaws,
    F: DecodeLaws,
    G: DecodeLaws,
    H: DecodeLaws,
    J: DecodeLaws,
    K: DecodeLaws,
    L: DecodeLaws,
    M: DecodeLaws,
    N: DecodeLaws,
> DecodeLaws for (A, B, C, D, E, F, G, H, J, K, L, M, N) {
    proof fn lemma_parse_bounded(bytes: Seq<u8>) {
        A::lemma_parse_bounded(bytes);
        if let Some(n) = A::spec_parse(bytes) {
            <(B, C, D, E, F, G, H, J, K, L, M, N)>::lemma_parse_bounded(bytes.skip(n as int));
        }
    }

    proof fn lemma_parse_encoding(v: (A, B, C, D, E, F, G, H, J, K, L, M, N), rest: Seq<u8>) {
        let ea = v.0.spec_encode();
        let et = rest_of_13(v).spec_encode();
        assert(ea + et + rest =~= ea + (et + rest));
        A::lemma_parse_encoding(v.0, et + rest);
        assert((ea + (et + rest)).skip(ea.len() as int) =~= et + rest);
        <(B, C, D, E, F, G, H, J, K, L, M, N)>::lemma_parse_encoding(rest_of_13(v), rest);
    }

    open spec fn same_value(
        a: (A, B, C, D, E, F, G, H, J, K, L, M, N),
        b: (A, B, C, D, E, F, G, H, J, K, L, M, N),
    ) -> bool {
        A::same_value(a.0, b.0)
            && <(B, C, D, E, F, G, H, J, K, L, M, N)>::same_value(rest_of_13(a), rest_of_13(b))
    }

    proof fn lemma_encoding_injective(
        a: (A, B, C, D, E, F, G, H, J, K, L, M, N),
        b: (A, B, C, D, E, F, G, H, J, K, L, M, N),
    ) {
        lemma_split_encodings(a.0, rest_of_13(a).spec_encode(), b.0, rest_of_13(b).spec_encode());
        A::lemma_encoding_injective(a.0, b.0);
        <(B, C, D, E, F, G, H, J, K, L, M, N)>::lemma_encoding_injective(rest_of_13(a), rest_of_13(b));
    }
}

impl<
    A: EncodeLike<A2>,
    A2: Encode,
    B: EncodeLike<B2>,
    B2: Encode,
    C: EncodeLike<C2>,
    C2: Encode,
    D: EncodeLike<D2>,
    D2: Encode,
    E: EncodeLike<E2>,
    E2: Encode,
    F: EncodeLike<F2>,
    F2: Encode,
    G: EncodeLike<G2>,
    G2: Encode,
    H: EncodeLike<H2>,
    H2: Encode,
    J: EncodeLike<J2>,
    J2: Encode,
    K: EncodeLike<K2>,
    K2: Encode,
    L: EncodeLike<L2>,
    L2: Encode,
    M: EncodeLike<M2>,
    M2: Encode,
    N: EncodeLike<N2>,
    N2: Encode,
> EncodeLike<(A2, B2, C2, D2, E2, F2, G2, H2, J2, K2, L2, M2, N2)> for (A, B, C, D, E, F, G, H, J, K, L, M, N) {

}

impl<
    A: DecodeLength,
    B,
    C,
    D,
    E,
    F,
    G,
    H,
    J,
    K,
    L,
    M,
    N,
> DecodeLength for (A, B, C, D, E, F, G, H, J, K, L, M, N) {
    open spec fn spec_len(self_encoded: Seq<u8>) -> Option<nat> {
        A::spec_len(self_encoded)
    }

    fn len(self_encoded: &[u8]) -> (r: Result<usize, Error>) {
        A::len(self_encoded)
    }
}

impl<
    A: DecodeWithMemTracking,
    B: DecodeWithMemTracking,
    C: DecodeWithMemTracking,
    D: DecodeWithMemTracking,
    E: DecodeWithMemTracking,
    F: DecodeWithMemTracking,
    G: DecodeWithMemTracking,
    H: DecodeWithMemTracking,
    J: DecodeWithMemTracking,
    K: DecodeWithMemTracking,
    L: DecodeWithMemTracking,
    M: DecodeWithMemTracking,
    N: DecodeWithMemTracking,
> DecodeWithMemTracking for (A, B, C, D, E, F, G, H, J, K, L, M, N) {

}

/// The values of a tuple of 14 after its first.
pub open spec fn rest_of_14<A, B, C, D, E, F, G, H, J, K, L, M, N, O>(
    t: (A, B, C, D, E, F, G, H, J, K, L, M, N, O),
) -> (B, C, D, E, F, G, H, J, K, L, M, N, O) {
    (t.1, t.2, t.3, t.4, t.5, t.6, t.7, t.8, t.9, t.10, t.11, t.12, t.13)
}

impl<
    A: Encode,
    B: Encode,
    C: Encode,
    D: Encode,
    E: Encode,
    F: Encode,
    G: Encode,
    H: Encode,
    J: Encode,
    K: Encode,
    L: Encode,
    M: Encode,
    N: Encode,
    O: Encode,
> Encode for (A, B, C, D, E, F, G, H, J, K, L, M, N, O) {
    open spec fn spec_encode(&self) -> Seq<u8> {
        self.0.spec_encode() + rest_of_14(*self).spec_encode()
    }

    open spec fn encodable(&self) -> bool {
        self.0.encodable() && rest_of_14(*self).encodable()
    }

    fn size_hint(&self) -> (n: usize)
        ensures
            exists|h0: usize, h1: usize, h2: usize, h3: usize, h4: usize, h5: usize, h6: usize, h7: usize, h8: usize, h9: usize, h10: usize, h11: usize, h12: usize, h13: usize|
                size_hint_of(&self.0, h0) && size_hint_of(&self.1, h1)
                    && size_hint_of(&self.2, h2) && size_hint_of(&self.3, h3)
                    && size_hint_of(&self.4, h4) && size_hint_of(&self.5, h5)
                    && size_hint_of(&self.6, h6) && size_hint_of(&self.7, h7)
                    && size_hint_of(&self.8, h8) && size_hint_of(&self.9, h9)
                    && size_hint_of(&self.10, h10) && size_hint_of(&self.11, h11)
                    && size_hint_of(&self.12, h12) && size_hint_of(&self.13, h13)
                    && n == saturated(h0 + h1 + h2 + h3 + h4 + h5 + h6 + h7 + h8 + h9 + h10 + h11 + h12 + h13),
    {
        let h0 = hint_of(&self.0);
        let h1 = hint_of(&self.1);
        let h2 = hint_of(&self.2);
        let h3 = hint_of(&self.3);
        let h4 = hint_of(&self.4);
        let h5 = hint_of(&self.5);
        let h6 = hint_of(&self.6);
        let h7 = hint_of(&self.7);
        let h8 = hint_of(&self.8);
        let h9 = hint_of(&self.9);
        let h10 = hint_of(&self.10);
        let h11 = hint_of(&self.11);
        let h12 = hint_of(&self.12);
        let h13 = hint_of(&self.13);
        let mut n = h0;
        n = n.saturating_add(h1);
        assert(n == saturated(h0 + h1));
        n = n.saturating_add(h2);
        assert(n == saturated(h0 + h1 + h2));
        n = n.saturating_add(h3);
        assert(n == saturated(h0 + h1 + h2 + h3));
        n = n.saturating_add(h4);
        assert(n == saturated(h0 + h1 + h2 + h3 + h4));
        n = n.saturating_add(h5);
        assert(n == saturated(h0 + h1 + h2 + h3 + h4 + h5));
        n = n.saturating_add(h6);
        assert(n == saturated(h0 + h1 + h2 + h3 + h4 + h5 + h6));
        n = n.saturating_add(h7);
        assert(n == saturated(h0 + h1 + h2 + h3 + h4 + h5 + h6 + h7));
        n = n.saturating_add(h8);
        assert(n == saturated(h0 + h1 + h2 + h3 + h4 + h5 + h6 + h7 + h8));
        n = n.saturating_add(h9);
        assert(n == saturated(h0 + h1 + h2 + h3 + h4 + h5 + h6 + h7 + h8 + h9));
        n = n.saturating_add(h10);
        assert(n == saturated(h0 + h1 + h2 + h3 + h4 + h5 + h6 + h7 + h8 + h9 + h10));
        n = n.saturating_add(h11);
        assert(n == saturated(h0 + h1 + h2 + h3 + h4 + h5 + h6 + h7 + h8 + h9 + h10 + h11));
        n = n.saturating_add(h12);
        assert(n == saturated(h0 + h1 + h2 + h3 + h4 + h5 + h6 + h7 + h8 + h9 + h10 + h11 + h12));
        n = n.saturating_add(h13);
        assert(n == saturated(h0 + h1 + h2 + h3 + h4 + h5 + h6 + h7 + h8 + h9 + h10 + h11 + h12 + h13));
        n
    }

    fn encode_to<W: Output>(&self, dest: &mut W) {
        let rest = (
            &self.1,
            &self.2,
            &self.3,
            &self.4,
            &self.5,
            &self.6,
            &self.7,
            &self.8,
            &self.9,
            &self.10,
            &self.11,
            &self.12,
            &self.13,
        );
        assert(rest.spec_encode() == rest_of_14(*self).spec_encode());
        assert(rest.encodable() == rest_of_14(*self).encodable());
        self.0.encode_to(dest);
        rest.encode_to(dest);
        assert(dest.written() =~= old(dest).written() + self.spec_encode());
    }
}

impl<
    A: Decode,
    B: Decode,
    C: Decode,
    D: Decode,
    E: Decode,
    F: Decode,
    G: Decode,
    H: Decode,
    J: Decode,
    K: Decode,
    L: Decode,
    M: Decode,
    N: Decode,
    O: Decode,
> Decode for (A, B, C, D, E, F, G, H, J, K, L, M, N, O) {
    open spec fn spec_parse(bytes: Seq<u8>) -> Option<nat> {
        pair_parse(
            A::spec_parse(bytes),
            |n: nat| <(B, C, D, E, F, G, H, J, K, L, M, N, O)>::spec_parse(bytes.skip(n as int)),
        )
    }

    open spec fn spec_depth(bytes: Seq<u8>) -> nat {
        match A::spec_parse(bytes) {
            Some(n) => deeper(A::spec_depth(bytes), <(B, C, D, E, F, G, H, J, K, L, M, N, O)>::spec_depth(bytes.skip(n as int))),
            None => A::spec_depth(bytes),
        }
    }

    open spec fn spec_mem(bytes: Seq<u8>, align: Option<MemAlignment>) -> nat {
        match A::spec_parse(bytes) {
            Some(n) => A::spec_mem(bytes, align) + <(B, C, D, E, F, G, H, J, K, L, M, N, O)>::spec_mem(bytes.skip(n as int), align),
            None => A::spec_mem(bytes, align),
        }
    }

    fn decode<I: Input>(input: &mut I) -> (r: Result<(A, B, C, D, E, F, G, H, J, K, L, M, N, O), Error>) {
        let ghost before = old(input).unread();
        let ghost s0 = *old(input);
        let ghost al = mem_alignment(s0);
        let ghost da = A::spec_depth(before);
        let ghost ma = A::spec_mem(before, al);
        let ghost tail = before.skip(A::spec_parse(before).unwrap() as int);
        proof {
            if Self::spec_parse(before) is Some {
                assert(Self::spec_depth(before) == deeper(da, <(B, C, D, E, F, G, H, J, K, L, M, N, O)>::spec_depth(tail)));
                assert(Self::spec_mem(before, al) == ma + <(B, C, D, E, F, G, H, J, K, L, M, N, O)>::spec_mem(tail, al));
            }
        }
        let ra = A::decode(input);
        let ghost ra_g = ra;
        let ghost s1 = *input;
        let v0 = match ra {
            Ok(v) => v,
            Err(e) => {
                proof {
                    if Self::spec_parse(before) is Some {
                        lemma_limits_stop(
                            s0,
                            s1,
                            ra_g,
                            Err::<(A, B, C, D, E, F, G, H, J, K, L, M, N, O), Error>(e),
                            da,
                            ma,
                            <(B, C, D, E, F, G, H, J, K, L, M, N, O)>::spec_depth(tail),
                            <(B, C, D, E, F, G, H, J, K, L, M, N, O)>::spec_mem(tail, al),
                        );
                    }
                }
                return Err(e);
            },
        };
        let ghost mid = input.unread();
        let rb = <(B, C, D, E, F, G, H, J, K, L, M, N, O)>::decode(input);
        let ghost rb_g = rb;
        let (v1, v2, v3, v4, v5, v6, v7, v8, v9, v10, v11, v12, v13) = match rb {
            Ok(t) => t,
            Err(e) => {
                proof {
                    if Self::spec_parse(before) is Some {
                        assert(mem_alignment(s1) == al);
                        lemma_limits_then(
                            s0,
                            s1,
                            *input,
                            ra_g,
                            rb_g,
                            Err::<(A, B, C, D, E, F, G, H, J, K, L, M, N, O), Error>(e),
                            da,
                            ma,
                            <(B, C, D, E, F, G, H, J, K, L, M, N, O)>::spec_depth(mid),
                            <(B, C, D, E, F, G, H, J, K, L, M, N, O)>::spec_mem(mid, al),
                        );
                    }
                }
                return Err(e);
            },
        };
        proof {
            let rest = (v1, v2, v3, v4, v5, v6, v7, v8, v9, v10, v11, v12, v13);
            if Self::spec_parse(before) is Some {
                lemma_two_parts(before, v0.spec_encode(), mid, rest.spec_encode(), input.unread());
                assert(mem_alignment(s1) == al);
                lemma_limits_then(
                    s0,
                    s1,
                    *input,
                    ra_g,
                    rb_g,
                    Ok::<(A, B, C, D, E, F, G, H, J, K, L, M, N, O), Error>((v0, v1, v2, v3, v4, v5, v6, v7, v8, v9, v10, v11, v12, v13)),
                    da,
                    ma,
                    <(B, C, D, E, F, G, H, J, K, L, M, N, O)>::spec_depth(mid),
                    <(B, C, D, E, F, G, H, J, K, L, M, N, O)>::spec_mem(mid, al),
                );
            }
        }
        Ok((v0, v1, v2, v3, v4, v5, v6, v7, v8, v9, v10, v11, v12, v13))
    }
}

impl<
    A: DecodeLaws,
    B: DecodeLaws,
    C: DecodeLaws,
    D: DecodeLaws,
    E: DecodeLaws,
    F: DecodeLaws,
    G: DecodeLaws,
    H: DecodeLaws,
    J: DecodeLaws,
    K: DecodeLaws,
    L: DecodeLaws,
    M: DecodeLaws,
    N: DecodeLaws,
    O: DecodeLaws,
> DecodeLaws for (A, B, C, D, E, F, G, H, J, K, L, M, N, O) {
    proof fn lemma_parse_bounded(bytes: Seq<u8>) {
        A::lemma_parse_bounded(bytes);
        if let Some(n) = A::spec_parse(bytes) {
            <(B, C, D, E, F, G, H, J, K, L, M, N, O)>::lemma_parse_bounded(bytes.skip(n as int));
        }
    }

    proof fn lemma_parse_encoding(v: (A, B, C, D, E, F, G, H, J, K, L, M, N, O), rest: Seq<u8>) {
        let ea = v.0.spec_encode();
        let et = rest_of_14(v).spec_encode();
        assert(ea + et + rest =~= ea + (et + rest));
        A::lemma_parse_encoding(v.0, et + rest);
        assert((ea + (et + rest)).skip(ea.len() as int) =~= et + rest);
        <(B, C, D, E, F, G, H, J, K, L, M, N, O)>::lemma_parse_encoding(rest_of_14(v), rest);
    }

    open spec fn same_value(
        a: (A, B, C, D, E, F, G, H, J, K, L, M, N, O),
        b: (A, B, C, D, E, F, G, H, J, K, L, M, N, O),
    ) -> bool {
        A::same_value(a.0, b.0)
            && <(B, C, D, E, F, G, H, J, K, L, M, N, O)>::same_value(rest_of_14(a), rest_of_14(b))
    }

    proof fn lemma_encoding_injective(
        a: (A, B, C, D, E, F, G, H, J, K, L, M, N, O),
        b: (A, B, C, D, E, F, G, H, J, K, L, M, N, O),
    ) {
        lemma_split_encodings(a.0, rest_of_14(a).spec_encode(), b.0, rest_of_14(b).spec_encode());
        A::lemma_encoding_injective(a.0, b.0);
        <(B, C, D, E, F, G, H, J, K, L, M, N, O)>::lemma_encoding_injective(rest_of_14(a), rest_of_14(b));
    }
}

impl<
    A: EncodeLike<A2>,
    A2: Encode,
    B: EncodeLike<B2>,
    B2: Encode,
    C: EncodeLike<C2>,
    C2: Encode,
    D: EncodeLike<D2>,
    D2: Encode,
    E: EncodeLike<E2>,
    E2: Encode,
    F: EncodeLike<F2>,
    F2: Encode,
    G: EncodeLike<G2>,
    G2: Encode,
    H: EncodeLike<H2>,
    H2: Encode,
    J: EncodeLike<J2>,
    J2: Encode,
    K: EncodeLike<K2>,
    K2: Encode,
    L: EncodeLike<L2>,
    L2: Encode,
    M: EncodeLike<M2>,
    M2: Encode,
    N: EncodeLike<N2>,
    N2: Encode,
    O: EncodeLike<O2>,
    O2: Encode,
> EncodeLike<(A2, B2, C2, D2, E2, F2, G2, H2, J2, K2, L2, M2, N2, O2)> for (A, B, C, D, E, F, G, H, J, K, L, M, N, O) {

}

impl<
    A: DecodeLength,
    B,
    C,
    D,
    E,
    F,
    G,
    H,
    J,
    K,
    L,
    M,
    N,
    O,
> DecodeLength for (A, B, C, D, E, F, G, H, J, K, L, M, N, O) {
    open spec fn spec_len(self_encoded: Seq<u8>) -> Option<nat> {
        A::spec_len(self_encoded)
    }

    fn len(self_encoded: &[u8]) -> (r: Result<usize, Error>) {
        A::len(self_encoded)
    }
}

impl<
    A: DecodeWithMemTracking,
    B: DecodeWithMemTracking,
    C: DecodeWithMemTracking,
    D: DecodeWithMemTracking,
    E: DecodeWithMemTracking,
    F: DecodeWithMemTracking,
    G: DecodeWithMemTracking,
    H: DecodeWithMemTracking,
    J: DecodeWithMemTracking,
    K: DecodeWithMemTracking,
    L: DecodeWithMemTracking,
    M: DecodeWithMemTracking,
    N: DecodeWithMemTracking,
    O: DecodeWithMemTracking,
> DecodeWithMemTracking for (A, B, C, D, E, F, G, H, J, K, L, M, N, O) {

}

/// The values of a tuple of 15 after its first.
pub open spec fn rest_of_15<A, B, C, D, E, F, G, H, J, K, L, M, N, O, P>(
    t: (A, B, C, D, E, F, G, H, J, K, L, M, N, O, P),
) -> (B, C, D, E, F, G, H, J, K, L, M, N, O, P) {
    (t.1, t.2, t.3, t.4, t.5, t.6, t.7, t.8, t.9, t.10, t.11, t.12, t.13, t.14)
}

impl<
    A: Encode,
    B: Encode,
    C: Encode,
    D: Encode,
    E: Encode,
    F: Encode,
    G: Encode,
    H: Encode,
    J: Encode,
    K: Encode,
    L: Encode,
    M: Encode,
    N: Encode,
    O: Encode,
    P: Encode,
> Encode for (A, B, C, D, E, F, G, H, J, K, L, M, N, O, P) {
    open spec fn spec_encode(&self) -> Seq<u8> {
        self.0.spec_encode() + rest_of_15(*self).spec_encode()
    }

    open spec fn encodable(&self) -> bool {
        self.0.encodable() && rest_of_15(*self).encodable()
    }

    fn size_hint(&self) -> (n: usize)
        ensures
            exists|h0: usize, h1: usize, h2: usize, h3: usize, h4: usize, h5: usize, h6: usize, h7: usize, h8: usize, h9: usize, h10: usize, h11: usize, h12: usize, h13: usize, h14: usize|
                size_hint_of(&self.0, h0) && size_hint_of(&self.1, h1)
                    && size_hint_of(&self.2, h2) && size_hint_of(&self.3, h3)
                    && size_hint_of(&self.4, h4) && size_hint_of(&self.5, h5)
                    && size_hint_of(&self.6, h6) && size_hint_of(&self.7, h7)
                    && size_hint_of(&self.8, h8) && size_hint_of(&self.9, h9)
                    && size_hint_of(&self.10, h10) && size_hint_of(&self.11, h11)
                    && size_hint_of(&self.12, h12) && size_hint_of(&self.13, h13)
                    && size_hint_of(&self.14, h14)
                    && n == saturated(h0 + h1 + h2 + h3 + h4 + h5 + h6 + h7 + h8 + h9 + h10 + h11 + h12 + h13 + h14),
    {
        let h0 = hint_of(&self.0);
        let h1 = hint_of(&self.1);
        let h2 = hint_of(&self.2);
        let h3 = hint_of(&self.3);
        let h4 = hint_of(&self.4);
        let h5 = hint_of(&self.5);
        let h6 = hint_of(&self.6);
        let h7 = hint_of(&self.7);
        let h8 = hint_of(&self.8);
        let h9 = hint_of(&self.9);
        let h10 = hint_of(&self.10);
        let h11 = hint_of(&self.11);
        let h12 = hint_of(&self.12);
        let h13 = hint_of(&self.13);
        let h14 = hint_of(&self.14);
        let mut n = h0;
        n = n.saturating_add(h1);
        assert(n == saturated(h0 + h1));
        n = n.saturating_add(h2);
        assert(n == saturated(h0 + h1 + h2));
        n = n.saturating_add(h3);
        assert(n == saturated(h0 + h1 + h2 + h3));
        n = n.saturating_add(h4);
        assert(n == saturated(h0 + h1 + h2 + h3 + h4));
        n = n.saturating_add(h5);
        assert(n == saturated(h0 + h1 + h2 + h3 + h4 + h5));
        n = n.saturating_add(h6);
        assert(n == saturated(h0 + h1 + h2 + h3 + h4 + h5 + h6));
        n = n.saturating_add(h7);
        assert(n == saturated(h0 + h1 + h2 + h3 + h4 + h5 + h6 + h7));
        n = n.saturating_add(h8);
        assert(n == saturated(h0 + h1 + h2 + h3 + h4 + h5 + h6 + h7 + h8));
        n = n.saturating_add(h9);
        assert(n == saturated(h0 + h1 + h2 + h3 + h4 + h5 + h6 + h7 + h8 + h9));
        n = n.saturating_add(h10);
        assert(n == saturated(h0 + h1 + h2 + h3 + h4 + h5 + h6 + h7 + h8 + h9 + h10));
        n = n.saturating_add(h11);
        assert(n == saturated(h0 + h1 + h2 + h3 + h4 + h5 + h6 + h7 + h8 + h9 + h10 + h11));
        n = n.saturating_add(h12);
        assert(n == saturated(h0 + h1 + h2 + h3 + h4 + h5 + h6 + h7 + h8 + h9 + h10 + h11 + h12));
        n = n.saturating_add(h13);
        assert(n == saturated(h0 + h1 + h2 + h3 + h4 + h5 + h6 + h7 + h8 + h9 + h10 + h11 + h12 + h13));
        n = n.saturating_add(h14);
        assert(n == saturated(h0 + h1 + h2 + h3 + h4 + h5 + h6 + h7 + h8 + h9 + h10 + h11 + h12 + h13 + h14));
        n
    }

    fn encode_to<W: Output>(&self, dest: &mut W) {
        let rest = (
            &self.1,
            &self.2,
            &self.3,
            &self.4,
            &self.5,
            &self.6,
            &self.7,
            &self.8,
            &self.9,
            &self.10,
            &self.11,
            &self.12,
            &self.13,
            &self.14,
        );
        assert(rest.spec_encode() == rest_of_15(*self).spec_encode());
        assert(rest.encodable() == rest_of_15(*self).encodable());
        self.0.encode_to(dest);
        rest.encode_to(dest);
        assert(dest.written() =~= old(dest).written() + self.spec_encode());
    }
}

impl<
    A: Decode,
    B: Decode,
    C: Decode,
    D: Decode,
    E: Decode,
    F: Decode,
    G: Decode,
    H: Decode,
    J: Decode,
    K: Decode,
    L: Decode,
    M: Decode,
    N: Decode,
    O: Decode,
    P: Decode,
> Decode for (A, B, C, D, E, F, G, H, J, K, L, M, N, O, P) {
    open spec fn spec_parse(bytes: Seq<u8>) -> Option<nat> {
        pair_parse(
            A::spec_parse(bytes),
            |n: nat| <(B, C, D, E, F, G, H, J, K, L, M, N, O, P)>::spec_parse(bytes.skip(n as int)),
        )
    }

    open spec fn spec_depth(bytes: Seq<u8>) -> nat {
        match A::spec_parse(bytes) {
            Some(n) => deeper(A::spec_depth(bytes), <(B, C, D, E, F, G, H, J, K, L, M, N, O, P)>::spec_depth(bytes.skip(n as int))),
            None => A::spec_depth(bytes),
        }
    }

    open spec fn spec_mem(bytes: Seq<u8>, align: Option<MemAlignment>) -> nat {
        match A::spec_parse(bytes) {
            Some(n) => A::spec_mem(bytes, align) + <(B, C, D, E, F, G, H, J, K, L, M, N, O, P)>::spec_mem(bytes.skip(n as int), align),
            None => A::spec_mem(bytes, align),
        }
    }

    fn decode<I: Input>(input: &mut I) -> (r: Result<(A, B, C, D, E, F, G, H, J, K, L, M, N, O, P), Error>) {
        let ghost before = old(input).unread();
        let ghost s0 = *old(input);
        let ghost al = mem_alignment(s0);
        let ghost da = A::spec_depth(before);
        let ghost ma = A::spec_mem(before, al);
        let ghost tail = before.skip(A::spec_parse(before).unwrap() as int);
        proof {
            if Self::spec_parse(before) is Some {
                assert(Self::spec_depth(before) == deeper(da, <(B, C, D, E, F, G, H, J, K, L, M, N, O, P)>::spec_depth(tail)));
                assert(Self::spec_mem(before, al) == ma + <(B, C, D, E, F, G, H, J, K, L, M, N, O, P)>::spec_mem(tail, al));
            }
        }
        let ra = A::decode(input);
        let ghost ra_g = ra;
        let ghost s1 = *input;
        let v0 = match ra {
            Ok(v) => v,
            Err(e) => {
                proof {
                    if Self::spec_parse(before) is Some {
                        lemma_limits_stop(
                            s0,
                            s1,
                            ra_g,
                            Err::<(A, B, C, D, E, F, G, H, J, K, L, M, N, O, P), Error>(e),
                            da,
                            ma,
                            <(B, C, D, E, F, G, H, J, K, L, M, N, O, P)>::spec_depth(tail),
                            <(B, C, D, E, F, G, H, J, K, L, M, N, O, P)>::spec_mem(tail, al),
                        );
                    }
                }
                return Err(e);
            },
        };
        let ghost mid = input.unread();
        let rb = <(B, C, D, E, F, G, H, J, K, L, M, N, O, P)>::decode(input);
        let ghost rb_g = rb;
        let (v1, v2, v3, v4, v5, v6, v7, v8, v9, v10, v11, v12, v13, v14) = match rb {
            Ok(t) => t,
            Err(e) => {
                proof {
                    if Self::spec_parse(before) is Some {
                        assert(mem_alignment(s1) == al);
                        lemma_limits_then(
                            s0,
                            s1,
                            *input,
                            ra_g,
                            rb_g,
                            Err::<(A, B, C, D, E, F, G, H, J, K, L, M, N, O, P), Error>(e),
                            da,
                            ma,
                            <(B, C, D, E, F, G, H, J, K, L, M, N, O, P)>::spec_depth(mid),
                            <(B, C, D, E, F, G, H, J, K, L, M, N, O, P)>::spec_mem(mid, al),
                        );
                    }
                }
                return Err(e);
            },
        };
        proof {
            let rest = (v1, v2, v3, v4, v5, v6, v7, v8, v9, v10, v11, v12, v13, v14);
            if Self::spec_parse(before) is Some {
                lemma_two_parts(before, v0.spec_encode(), mid, rest.spec_encode(), input.unread());
                assert(mem_alignment(s1) == al);
                lemma_limits_then(
                    s0,
                    s1,
                    *input,
                    ra_g,
                    rb_g,
                    Ok::<(A, B, C, D, E, F, G, H, J, K, L, M, N, O, P), Error>((v0, v1, v2, v3, v4, v5, v6, v7, v8, v9, v10, v11, v12, v13, v14)),
                    da,
                    ma,
                    <(B, C, D, E, F, G, H, J, K, L, M, N, O, P)>::spec_depth(mid),
                    <(B, C, D, E, F, G, H, J, K, L, M, N, O, P)>::spec_mem(mid, al),
                );
            }
        }
        Ok((v0, v1, v2, v3, v4, v5, v6, v7, v8, v9, v10, v11, v12, v13, v14))
    }
}

impl<
    A: DecodeLaws,
    B: DecodeLaws,
    C: DecodeLaws,
    D: DecodeLaws,
    E: DecodeLaws,
    F: DecodeLaws,
    G: DecodeLaws,
    H: DecodeLaws,
    J: DecodeLaws,
    K: DecodeLaws,
    L: DecodeLaws,
    M: DecodeLaws,
    N: DecodeLaws,
    O: DecodeLaws,
    P: DecodeLaws,
> DecodeLaws for (A, B, C, D, E, F, G, H, J, K, L, M, N, O, P) {
    proof fn lemma_parse_bounded(bytes: Seq<u8>) {
        A::lemma_parse_bounded(bytes);
        if let Some(n) = A::spec_parse(bytes) {
            <(B, C, D, E, F, G, H, J, K, L, M, N, O, P)>::lemma_parse_bounded(bytes.skip(n as int));
        }
    }

    proof fn lemma_parse_encoding(v: (A, B, C, D, E, F, G, H, J, K, L, M, N, O, P), rest: Seq<u8>) {
        let ea = v.0.spec_encode();
        let et = rest_of_15(v).spec_encode();
        assert(ea + et + rest =~= ea + (et + rest));
        A::lemma_parse_encoding(v.0, et + rest);
        assert((ea + (et + rest)).skip(ea.len() as int) =~= et + rest);
        <(B, C, D, E, F, G, H, J, K, L, M, N, O, P)>::lemma_parse_encoding(rest_of_15(v), rest);
    }

    open spec fn same_value(
        a: (A, B, C, D, E, F, G, H, J, K, L, M, N, O, P),
        b: (A, B, C, D, E, F, G, H, J, K, L, M, N, O, P),
    ) -> bool {
        A::same_value(a.0, b.0)
            && <(B, C, D, E, F, G, H, J, K, L, M, N, O, P)>::same_value(rest_of_15(a), rest_of_15(b))
    }

    proof fn lemma_encoding_injective(
        a: (A, B, C, D, E, F, G, H, J, K, L, M, N, O, P),
        b: (A, B, C, D, E, F, G, H, J, K, L, M, N, O, P),
    ) {
        lemma_split_encodings(a.0, rest_of_15(a).spec_encode(), b.0, rest_of_15(b).spec_encode());
        A::lemma_encoding_injective(a.0, b.0);
        <(B, C, D, E, F, G, H, J, K, L, M, N, O, P)>::lemma_encoding_injective(rest_of_15(a), rest_of_15(b));
    }
}

impl<
    A: EncodeLike<A2>,
    A2: Encode,
    B: EncodeLike<B2>,
    B2: Encode,
    C: EncodeLike<C2>,
    C2: Encode,
    D: EncodeLike<D2>,
    D2: Encode,
    E: EncodeLike<E2>,
    E2: Encode,
    F: EncodeLike<F2>,
    F2: Encode,
    G: EncodeLike<G2>,
    G2: Encode,
    H: EncodeLike<H2>,
    H2: Encode,
    J: EncodeLike<J2>,
    J2: Encode,
    K: EncodeLike<K2>,
    K2: Encode,
    L: EncodeLike<L2>,
    L2: Encode,
    M: EncodeLike<M2>,
    M2: Encode,
    N: EncodeLike<N2>,
    N2: Encode,
    O: EncodeLike<O2>,
    O2: Encode,
    P: EncodeLike<P2>,
    P2: Encode,
> EncodeLike<(A2, B2, C2, D2, E2, F2, G2, H2, J2, K2, L2, M2, N2, O2, P2)> for (A, B, C, D, E, F, G, H, J, K, L, M, N, O, P) {

}

impl<
    A: DecodeLength,
    B,
    C,
    D,
    E,
    F,
    G,
    H,
    J,
    K,
    L,
    M,
    N,
    O,
    P,
> DecodeLength for (A, B, C, D, E, F, G, H, J, K, L, M, N, O, P) {
    open spec fn spec_len(self_encoded: Seq<u8>) -> Option<nat> {
        A::spec_len(self_encoded)
    }

    fn len(self_encoded: &[u8]) -> (r: Result<usize, Error>) {
        A::len(self_encoded)
    }
}

impl<
    A: DecodeWithMemTracking,
    B: DecodeWithMemTracking,
    C: DecodeWithMemTracking,
    D: DecodeWithMemTracking,
    E: DecodeWithMemTracking,
    F: DecodeWithMemTracking,
    G: DecodeWithMemTracking,
    H: DecodeWithMemTracking,
    J: DecodeWithMemTracking,
    K: DecodeWithMemTracking,
    L: DecodeWithMemTracking,
    M: DecodeWithMemTracking,
    N: DecodeWithMemTracking,
    O: DecodeWithMemTracking,
    P: DecodeWithMemTracking,
> DecodeWithMemTracking for (A, B, C, D, E, F, G, H, J, K, L, M, N, O, P) {

}

/// The values of a tuple of 16 after its first.
pub open spec fn rest_of_16<A, B, C, D, E, F, G, H, J, K, L, M, N, O, P, Q>(
    t: (A, B, C, D, E, F, G, H, J, K, L, M, N, O, P, Q),
) -> (B, C, D, E, F, G, H, J, K, L, M, N, O, P, Q) {
    (t.1, t.2, t.3, t.4, t.5, t.6, t.7, t.8, t.9, t.10, t.11, t.12, t.13, t.14, t.15)
}

impl<
    A: Encode,
    B: Encode,
    C: Encode,
    D: Encode,
    E: Encode,
    F: Encode,
    G: Encode,
    H: Encode,
    J: Encode,
    K: Encode,
    L: Encode,
    M: Encode,
    N: Encode,
    O: Encode,
    P: Encode,
    Q: Encode,
> Encode for (A, B, C, D, E, F, G, H, J, K, L, M, N, O, P, Q) {
    open spec fn spec_encode(&self) -> Seq<u8> {
        self.0.spec_encode() + rest_of_16(*self).spec_encode()
    }

    open spec fn encodable(&self) -> bool {
        self.0.encodable() && rest_of_16(*self).encodable()
    }

    fn size_hint(&self) -> (n: usize)
        ensures
            exists|h0: usize, h1: usize, h2: usize, h3: usize, h4: usize, h5: usize, h6: usize, h7: usize, h8: usize, h9: usize, h10: usize, h11: usize, h12: usize, h13: usize, h14: usize, h15: usize|
                size_hint_of(&self.0, h0) && size_hint_of(&self.1, h1)
                    && size_hint_of(&self.2, h2) && size_hint_of(&self.3, h3)
                    && size_hint_of(&self.4, h4) && size_hint_of(&self.5, h5)
                    && size_hint_of(&self.6, h6) && size_hint_of(&self.7, h7)
                    && size_hint_of(&self.8, h8) && size_hint_of(&self.9, h9)
                    && size_hint_of(&self.10, h10) && size_hint_of(&self.11, h11)
                    && size_hint_of(&self.12, h12) && size_hint_of(&self.13, h13)
                    && size_hint_of(&self.14, h14) && size_hint_of(&self.15, h15)
                    && n == saturated(h0 + h1 + h2 + h3 + h4 + h5 + h6 + h7 + h8 + h9 + h10 + h11 + h12 + h13 + h14 + h15),
    {
        let h0 = hint_of(&self.0);
        let h1 = hint_of(&self.1);
        let h2 = hint_of(&self.2);
        let h3 = hint_of(&self.3);
        let h4 = hint_of(&self.4);
        let h5 = hint_of(&self.5);
        let h6 = hint_of(&self.6);
        let h7 = hint_of(&self.7);
        let h8 = hint_of(&self.8);
        let h9 = hint_of(&self.9);
        let h10 = hint_of(&self.10);
        let h11 = hint_of(&self.11);
        let h12 = hint_of(&self.12);
        let h13 = hint_of(&self.13);
        let h14 = hint_of(&self.14);
        let h15 = hint_of(&self.15);
        let mut n = h0;
        n = n.saturating_add(h1);
        assert(n == saturated(h0 + h1));
        n = n.saturating_add(h2);
        assert(n == saturated(h0 + h1 + h2));
        n = n.saturating_add(h3);
        assert(n == saturated(h0 + h1 + h2 + h3));
        n = n.saturating_add(h4);
        assert(n == saturated(h0 + h1 + h2 + h3 + h4));
        n = n.saturating_add(h5);
        assert(n == saturated(h0 + h1 + h2 + h3 + h4 + h5));
        n = n.saturating_add(h6);
        assert(n == saturated(h0 + h1 + h2 + h3 + h4 + h5 + h6));
        n = n.saturating_add(h7);
        assert(n == saturated(h0 + h1 + h2 + h3 + h4 + h5 + h6 + h7));
        n = n.saturating_add(h8);
        assert(n == saturated(h0 + h1 + h2 + h3 + h4 + h5 + h6 + h7 + h8));
        n = n.saturating_add(h9);
        assert(n == saturated(h0 + h1 + h2 + h3 + h4 + h5 + h6 + h7 + h8 + h9));
        n = n.saturating_add(h10);
        assert(n == saturated(h0 + h1 + h2 + h3 + h4 + h5 + h6 + h7 + h8 + h9 + h10));
        n = n.saturating_add(h11);
        assert(n == saturated(h0 + h1 + h2 + h3 + h4 + h5 + h6 + h7 + h8 + h9 + h10 + h11));
        n = n.saturating_add(h12);
        assert(n == saturated(h0 + h1 + h2 + h3 + h4 + h5 + h6 + h7 + h8 + h9 + h10 + h11 + h12));
        n = n.saturating_add(h13);
        assert(n == saturated(h0 + h1 + h2 + h3 + h4 + h5 + h6 + h7 + h8 + h9 + h10 + h11 + h12 + h13));
        n = n.saturating_add(h14);
        assert(n == saturated(h0 + h1 + h2 + h3 + h4 + h5 + h6 + h7 + h8 + h9 + h10 + h11 + h12 + h13 + h14));
        n = n.saturating_add(h15);
        assert(n == saturated(h0 + h1 + h2 + h3 + h4 + h5 + h6 + h7 + h8 + h9 + h10 + h11 + h12 + h13 + h14 + h15));
        n
    }

    fn encode_to<W: Output>(&self, dest: &mut W) {
        let rest = (
            &self.1,
            &self.2,
            &self.3,
            &self.4,
            &self.5,
            &self.6,
            &self.7,
            &self.8,
            &self.9,
            &self.10,
            &self.11,
            &self.12,
            &self.13,
            &self.14,
            &self.15,
        );
        assert(rest.spec_encode() == rest_of_16(*self).spec_encode());
        assert(rest.encodable() == rest_of_16(*self).encodable());
        self.0.encode_to(dest);
        rest.encode_to(dest);
        assert(dest.written() =~= old(dest).written() + self.spec_encode());
    }
}

impl<
    A: Decode,
    B: Decode,
    C: Decode,
    D: Decode,
    E: Decode,
    F: Decode,
    G: Decode,
    H: Decode,
    J: Decode,
    K: Decode,
    L: Decode,
    M: Decode,
    N: Decode,
    O: Decode,
    P: Decode,
    Q: Decode,
> Decode for (A, B, C, D, E, F, G, H, J, K, L, M, N, O, P, Q) {
    open spec fn spec_parse(bytes: Seq<u8>) -> Option<nat> {
        pair_parse(
            A::spec_parse(bytes),
            |n: nat| <(B, C, D, E, F, G, H, J, K, L, M, N, O, P, Q)>::spec_parse(bytes.skip(n as int)),
        )
    }

    open spec fn spec_depth(bytes: Seq<u8>) -> nat {
        match A::spec_parse(bytes) {
            Some(n) => deeper(A::spec_depth(bytes), <(B, C, D, E, F, G, H, J, K, L, M, N, O, P, Q)>::spec_depth(bytes.skip(n as int))),
            None => A::spec_depth(bytes),
        }
    }

    open spec fn spec_mem(bytes: Seq<u8>, align: Option<MemAlignment>) -> nat {
        match A::spec_parse(bytes) {
            Some(n) => A::spec_mem(bytes, align) + <(B, C, D, E, F, G, H, J, K, L, M, N, O, P, Q)>::spec_mem(bytes.skip(n as int), align),
            None => A::spec_mem(bytes, align),
        }
    }

    fn decode<I: Input>(input: &mut I) -> (r: Result<(A, B, C, D, E, F, G, H, J, K, L, M, N, O, P, Q), Error>) {
        let ghost before = old(input).unread();
        let ghost s0 = *old(input);
        let ghost al = mem_alignment(s0);
        let ghost da = A::spec_depth(before);
        let ghost ma = A::spec_mem(before, al);
        let ghost tail = before.skip(A::spec_parse(before).unwrap() as int);
        proof {
            if Self::spec_parse(before) is Some {
                assert(Self::spec_depth(before) == deeper(da, <(B, C, D, E, F, G, H, J, K, L, M, N, O, P, Q)>::spec_depth(tail)));
                assert(Self::spec_mem(before, al) == ma + <(B, C, D, E, F, G, H, J, K, L, M, N, O, P, Q)>::spec_mem(tail, al));
            }
        }
        let ra = A::decode(input);
        let ghost ra_g = ra;
        let ghost s1 = *input;
        let v0 = match ra {
            Ok(v) => v,
            Err(e) => {
                proof {
                    if Self::spec_parse(before) is Some {
                        lemma_limits_stop(
                            s0,
                            s1,
                            ra_g,
                            Err::<(A, B, C, D, E, F, G, H, J, K, L, M, N, O, P, Q), Error>(e),
                            da,
                            ma,
                            <(B, C, D, E, F, G, H, J, K, L, M, N, O, P, Q)>::spec_depth(tail),
                            <(B, C, D, E, F, G, H, J, K, L, M, N, O, P, Q)>::spec_mem(tail, al),
                        );
                    }
                }
                return Err(e);
            },
        };
        let ghost mid = input.unread();
        let rb = <(B, C, D, E, F, G, H, J, K, L, M, N, O, P, Q)>::decode(input);
        let ghost rb_g = rb;
        let (v1, v2, v3, v4, v5, v6, v7, v8, v9, v10, v11, v12, v13, v14, v15) = match rb {
            Ok(t) => t,
            Err(e) => {
                proof {
                    if Self::spec_parse(before) is Some {
                        assert(mem_alignment(s1) == al);
                        lemma_limits_then(
                            s0,
                            s1,
                            *input,
                            ra_g,
                            rb_g,
                            Err::<(A, B, C, D, E, F, G, H, J, K, L, M, N, O, P, Q), Error>(e),
                            da,
                            ma,
                            <(B, C, D, E, F, G, H, J, K, L, M, N, O, P, Q)>::spec_depth(mid),
                            <(B, C, D, E, F, G, H, J, K, L, M, N, O, P, Q)>::spec_mem(mid, al),
                        );
                    }
                }
                return Err(e);
            },
        };
        proof {
            let rest = (v1, v2, v3, v4, v5, v6, v7, v8, v9, v10, v11, v12, v13, v14, v15);
            if Self::spec_parse(before) is Some {
                lemma_two_parts(before, v0.spec_encode(), mid, rest.spec_encode(), input.unread());
                assert(mem_alignment(s1) == al);
                lemma_limits_then(
                    s0,
                    s1,
                    *input,
                    ra_g,
                    rb_g,
                    Ok::<(A, B, C, D, E, F, G, H, J, K, L, M, N, O, P, Q), Error>((v0, v1, v2, v3, v4, v5, v6, v7, v8, v9, v10, v11, v12, v13, v14, v15)),
                    da,
                    ma,
                    <(B, C, D, E, F, G, H, J, K, L, M, N, O, P, Q)>::spec_depth(mid),
                    <(B, C, D, E, F, G, H, J, K, L, M, N, O, P, Q)>::spec_mem(mid, al),
                );
            }
        }
        Ok((v0, v1, v2, v3, v4, v5, v6, v7, v8, v9, v10, v11, v12, v13, v14, v15))
    }
}

impl<
    A: DecodeLaws,
    B: DecodeLaws,
    C: DecodeLaws,
    D: DecodeLaws,
    E: DecodeLaws,
    F: DecodeLaws,
    G: DecodeLaws,
    H: DecodeLaws,
    J: DecodeLaws,
    K: DecodeLaws,
    L: DecodeLaws,
    M: DecodeLaws,
    N: DecodeLaws,
    O: DecodeLaws,
    P: DecodeLaws,
    Q: DecodeLaws,
> DecodeLaws for (A, B, C, D, E, F, G, H, J, K, L, M, N, O, P, Q) {
    proof fn lemma_parse_bounded(bytes: Seq<u8>) {
        A::lemma_parse_bounded(bytes);
        if let Some(n) = A::spec_parse(bytes) {
            <(B, C, D, E, F, G, H, J, K, L, M, N, O, P, Q)>::lemma_parse_bounded(bytes.skip(n as int));
        }
    }

    proof fn lemma_parse_encoding(v: (A, B, C, D, E, F, G, H, J, K, L, M, N, O, P, Q), rest: Seq<u8>) {
        let ea = v.0.spec_encode();
        let et = rest_of_16(v).spec_encode();
        assert(ea + et + rest =~= ea + (et + rest));
        A::lemma_parse_encoding(v.0, et + rest);
        assert((ea + (et + rest)).skip(ea.len() as int) =~= et + rest);
        <(B, C, D, E, F, G, H, J, K, L, M, N, O, P, Q)>::lemma_parse_encoding(rest_of_16(v), rest);
    }

    open spec fn same_value(
        a: (A, B, C, D, E, F, G, H, J, K, L, M, N, O, P, Q),
        b: (A, B, C, D, E, F, G, H, J, K, L, M, N, O, P, Q),
    ) -> bool {
        A::same_value(a.0, b.0)
            && <(B, C, D, E, F, G, H, J, K, L, M, N, O, P, Q)>::same_value(rest_of_16(a), rest_of_16(b))
    }

    proof fn lemma_encoding_injective(
        a: (A, B, C, D, E, F, G, H, J, K, L, M, N, O, P, Q),
        b: (A, B, C, D, E, F, G, H, J, K, L, M, N, O, P, Q),
    ) {
        lemma_split_encodings(a.0, rest_of_16(a).spec_encode(), b.0, rest_of_16(b).spec_encode());
        A::lemma_encoding_injective(a.0, b.0);
        <(B, C, D, E, F, G, H, J, K, L, M, N, O, P, Q)>::lemma_encoding_injective(rest_of_16(a), rest_of_16(b));
    }
}

impl<
    A: EncodeLike<A2>,
    A2: Encode,
    B: EncodeLike<B2>,
    B2: Encode,
    C: EncodeLike<C2>,
    C2: Encode,
    D: EncodeLike<D2>,
    D2: Encode,
    E: EncodeLike<E2>,
    E2: Encode,
    F: EncodeLike<F2>,
    F2: Encode,
    G: EncodeLike<G2>,
    G2: Encode,
    H: EncodeLike<H2>,
    H2: Encode,
    J: EncodeLike<J2>,
    J2: Encode,
    K: EncodeLike<K2>,
    K2: Encode,
    L: EncodeLike<L2>,
    L2: Encode,
    M: EncodeLike<M2>,
    M2: Encode,
    N: EncodeLike<N2>,
    N2: Encode,
    O: EncodeLike<O2>,
    O2: Encode,
    P: EncodeLike<P2>,
    P2: Encode,
    Q: EncodeLike<Q2>,
    Q2: Encode,
> EncodeLike<(A2, B2, C2, D2, E2, F2, G2, H2, J2, K2, L2, M2, N2, O2, P2, Q2)> for (A, B, C, D, E, F, G, H, J, K, L, M, N, O, P, Q) {

}

impl<
    A: DecodeLength,
    B,
    C,
    D,
    E,
    F,
    G,
    H,
    J,
    K,
    L,
    M,
    N,
    O,
    P,
    Q,
> DecodeLength for (A, B, C, D, E, F, G, H, J, K, L, M, N, O, P, Q) {
    open spec fn spec_len(self_encoded: Seq<u8>) -> Option<nat> {
        A::spec_len(self_encoded)
    }

    fn len(self_encoded: &[u8]) -> (r: Result<usize, Error>) {
        A::len(self_encoded)
    }
}

impl<
    A: DecodeWithMemTracking,
    B: DecodeWithMemTracking,
    C: DecodeWithMemTracking,
    D: DecodeWithMemTracking,
    E: DecodeWithMemTracking,
    F: DecodeWithMemTracking,
    G: DecodeWithMemTracking,
    H: DecodeWithMemTracking,
    J: DecodeWithMemTracking,
    K: DecodeWithMemTracking,
    L: DecodeWithMemTracking,
    M: DecodeWithMemTracking,
    N: DecodeWithMemTracking,
    O: DecodeWithMemTracking,
    P: DecodeWithMemTracking,
    Q: DecodeWithMemTracking,
> DecodeWithMemTracking for (A, B, C, D, E, F, G, H, J, K, L, M, N, O, P, Q) {

}

/// The values of a tuple of 17 after its first.
pub open spec fn rest_of_17<A, B, C, D, E, F, G, H, J, K, L, M, N, O, P, Q, R>(
    t: (A, B, C, D, E, F, G, H, J, K, L, M, N, O, P, Q, R),
) -> (B, C, D, E, F, G, H, J, K, L, M, N, O, P, Q, R) {
    (t.1, t.2, t.3, t.4, t.5, t.6, t.7, t.8, t.9, t.10, t.11, t.12, t.13, t.14, t.15, t.16)
}

impl<
    A: Encode,
    B: Encode,
    C: Encode,
    D: Encode,
    E: Encode,
    F: Encode,
    G: Encode,
    H: Encode,
    J: Encode,
    K: Encode,
    L: Encode,
    M: Encode,
    N: Encode,
    O: Encode,
    P: Encode,
    Q: Encode,
    R: Encode,
> Encode for (A, B, C, D, E, F, G, H, J, K, L, M, N, O, P, Q, R) {
    open spec fn spec_encode(&self) -> Seq<u8> {
        self.0.spec_encode() + rest_of_17(*self).spec_encode()
    }

    open spec fn encodable(&self) -> bool {
        self.0.encodable() && rest_of_17(*self).encodable()
    }

    fn size_hint(&self) -> (n: usize)
        ensures
            exists|h0: usize, h1: usize, h2: usize, h3: usize, h4: usize, h5: usize, h6: usize, h7: usize, h8: usize, h9: usize, h10: usize, h11: usize, h12: usize, h13: usize, h14: usize, h15: usize, h16: usize|
                size_hint_of(&self.0, h0) && size_hint_of(&self.1, h1)
                    && size_hint_of(&self.2, h2) && size_hint_of(&self.3, h3)
                    && size_hint_of(&self.4, h4) && size_hint_of(&self.5, h5)
                    && size_hint_of(&self.6, h6) && size_hint_of(&self.7, h7)
                    && size_hint_of(&self.8, h8) && size_hint_of(&self.9, h9)
                    && size_hint_of(&self.10, h10) && size_hint_of(&self.11, h11)
                    && size_hint_of(&self.12, h12) && size_hint_of(&self.13, h13)
                    && size_hint_of(&self.14, h14) && size_hint_of(&self.15, h15)
                    && size_hint_of(&self.16, h16)
                    && n == saturated(h0 + h1 + h2 + h3 + h4 + h5 + h6 + h7 + h8 + h9 + h10 + h11 + h12 + h13 + h14 + h15 + h16),
    {
        let h0 = hint_of(&self.0);
        let h1 = hint_of(&self.1);
        let h2 = hint_of(&self.2);
        let h3 = hint_of(&self.3);
        let h4 = hint_of(&self.4);
        let h5 = hint_of(&self.5);
        let h6 = hint_of(&self.6);
        let h7 = hint_of(&self.7);
        let h8 = hint_of(&self.8);
        let h9 = hint_of(&self.9);
        let h10 = hint_of(&self.10);
        let h11 = hint_of(&self.11);
        let h12 = hint_of(&self.12);
        let h13 = hint_of(&self.13);
        let h14 = hint_of(&self.14);
        let h15 = hint_of(&self.15);
        let h16 = hint_of(&self.16);
        let mut n = h0;
        n = n.saturating_add(h1);
        assert(n == saturated(h0 + h1));
        n = n.saturating_add(h2);
        assert(n == saturated(h0 + h1 + h2));
        n = n.saturating_add(h3);
        assert(n == saturated(h0 + h1 + h2 + h3));
        n = n.saturating_add(h4);
        assert(n == saturated(h0 + h1 + h2 + h3 + h4));
        n = n.saturating_add(h5);
        assert(n == saturated(h0 + h1 + h2 + h3 + h4 + h5));
        n = n.saturating_add(h6);
        assert(n == saturated(h0 + h1 + h2 + h3 + h4 + h5 + h6));
        n = n.saturating_add(h7);
        assert(n == saturated(h0 + h1 + h2 + h3 + h4 + h5 + h6 + h7));
        n = n.saturating_add(h8);
        assert(n == saturated(h0 + h1 + h2 + h3 + h4 + h5 + h6 + h7 + h8));
        n = n.saturating_add(h9);
        assert(n == saturated(h0 + h1 + h2 + h3 + h4 + h5 + h6 + h7 + h8 + h9));
        n = n.saturating_add(h10);
        assert(n == saturated(h0 + h1 + h2 + h3 + h4 + h5 + h6 + h7 + h8 + h9 + h10));
        n = n.saturating_add(h11);
        assert(n == saturated(h0 + h1 + h2 + h3 + h4 + h5 + h6 + h7 + h8 + h9 + h10 + h11));
        n = n.saturating_add(h12);
        assert(n == saturated(h0 + h1 + h2 + h3 + h4 + h5 + h6 + h7 + h8 + h9 + h10 + h11 + h12));
        n = n.saturating_add(h13);
        assert(n == saturated(h0 + h1 + h2 + h3 + h4 + h5 + h6 + h7 + h8 + h9 + h10 + h11 + h12 + h13));
        n = n.saturating_add(h14);
        assert(n == saturated(h0 + h1 + h2 + h3 + h4 + h5 + h6 + h7 + h8 + h9 + h10 + h11 + h12 + h13 + h14));
        n = n.saturating_add(h15);
        assert(n == saturated(h0 + h1 + h2 + h3 + h4 + h5 + h6 + h7 + h8 + h9 + h10 + h11 + h12 + h13 + h14 + h15));
        n = n.saturating_add(h16);
        assert(n == saturated(h0 + h1 + h2 + h3 + h4 + h5 + h6 + h7 + h8 + h9 + h10 + h11 + h12 + h13 + h14 + h15 + h16));
        n
    }

    fn encode_to<W: Output>(&self, dest: &mut W) {
        let rest = (
            &self.1,
            &self.2,
            &self.3,
            &self.4,
            &self.5,
            &self.6,
            &self.7,
            &self.8,
            &self.9,
            &self.10,
            &self.11,
            &self.12,
            &self.13,
            &self.14,
            &self.15,
            &self.16,
        );
        assert(rest.spec_encode() == rest_of_17(*self).spec_encode());
        assert(rest.encodable() == rest_of_17(*self).encodable());
        self.0.encode_to(dest);
        rest.encode_to(dest);
        assert(dest.written() =~= old(dest).written() + self.spec_encode());
    }
}

impl<
    A: Decode,
    B: Decode,
    C: Decode,
    D: Decode,
    E: Decode,
    F: Decode,
    G: Decode,
    H: Decode,
    J: Decode,
    K: Decode,
    L: Decode,
    M: Decode,
    N: Decode,
    O: Decode,
    P: Decode,
    Q: Decode,
    R: Decode,
> Decode for (A, B, C, D, E, F, G, H, J, K, L, M, N, O, P, Q, R) {
    open spec fn spec_parse(bytes: Seq<u8>) -> Option<nat> {
        pair_parse(
            A::spec_parse(bytes),
            |n: nat| <(B, C, D, E, F, G, H, J, K, L, M, N, O, P, Q, R)>::spec_parse(bytes.skip(n as int)),
        )
    }

    open spec fn spec_depth(bytes: Seq<u8>) -> nat {
        match A::spec_parse(bytes) {
            Some(n) => deeper(A::spec_depth(bytes), <(B, C, D, E, F, G, H, J, K, L, M, N, O, P, Q, R)>::spec_depth(bytes.skip(n as int))),
            None => A::spec_depth(bytes),
        }
    }

    open spec fn spec_mem(bytes: Seq<u8>, align: Option<MemAlignment>) -> nat {
        match A::spec_parse(bytes) {
            Some(n) => A::spec_mem(bytes, align) + <(B, C, D, E, F, G, H, J, K, L, M, N, O, P, Q, R)>::spec_mem(bytes.skip(n as int), align),
            None => A::spec_mem(bytes, align),
        }
    }

    fn decode<I: Input>(input: &mut I) -> (r: Result<(A, B, C, D, E, F, G, H, J, K, L, M, N, O, P, Q, R), Error>) {
        let ghost before = old(input).unread();
        let ghost s0 = *old(input);
        let ghost al = mem_alignment(s0);
        let ghost da = A::spec_depth(before);
        let ghost ma = A::spec_mem(before, al);
        let ghost tail = before.skip(A::spec_parse(before).unwrap() as int);
        proof {
            if Self::spec_parse(before) is Some {
                assert(Self::spec_depth(before) == deeper(da, <(B, C, D, E, F, G, H, J, K, L, M, N, O, P, Q, R)>::spec_depth(tail)));
                assert(Self::spec_mem(before, al) == ma + <(B, C, D, E, F, G, H, J, K, L, M, N, O, P, Q, R)>::spec_mem(tail, al));
            }
        }
        let ra = A::decode(input);
        let ghost ra_g = ra;
        let ghost s1 = *input;
        let v0 = match ra {
            Ok(v) => v,
            Err(e) => {
                proof {
                    if Self::spec_parse(before) is Some {
                        lemma_limits_stop(
                            s0,
                            s1,
                            ra_g,
                            Err::<(A, B, C, D, E, F, G, H, J, K, L, M, N, O, P, Q, R), Error>(e),
                            da,
                            ma,
                            <(B, C, D, E, F, G, H, J, K, L, M, N, O, P, Q, R)>::spec_depth(tail),
                            <(B, C, D, E, F, G, H, J, K, L, M, N, O, P, Q, R)>::spec_mem(tail, al),
                        );
                    }
                }
                return Err(e);
            },
        };
        let ghost mid = input.unread();
        let rb = <(B, C, D, E, F, G, H, J, K, L, M, N, O, P, Q, R)>::decode(input);
        let ghost rb_g = rb;
        let (v1, v2, v3, v4, v5, v6, v7, v8, v9, v10, v11, v12, v13, v14, v15, v16) = match rb {
            Ok(t) => t,
            Err(e) => {
                proof {
                    if Self::spec_parse(before) is Some {
                        assert(mem_alignment(s1) == al);
                        lemma_limits_then(
                            s0,
                            s1,
                            *input,
                            ra_g,
                            rb_g,
                            Err::<(A, B, C, D, E, F, G, H, J, K, L, M, N, O, P, Q, R), Error>(e),
                            da,
                            ma,
                            <(B, C, D, E, F, G, H, J, K, L, M, N, O, P, Q, R)>::spec_depth(mid),
                            <(B, C, D, E, F, G, H, J, K, L, M, N, O, P, Q, R)>::spec_mem(mid, al),
                        );
                    }
                }
                return Err(e);
            },
        };
        proof {
            let rest = (v1, v2, v3, v4, v5, v6, v7, v8, v9, v10, v11, v12, v13, v14, v15, v16);
            if Self::spec_parse(before) is Some {
                lemma_two_parts(before, v0.spec_encode(), mid, rest.spec_encode(), input.unread());
                assert(mem_alignment(s1) == al);
                lemma_limits_then(
                    s0,
                    s1,
                    *input,
                    ra_g,
                    rb_g,
                    Ok::<(A, B, C, D, E, F, G, H, J, K, L, M, N, O, P, Q, R), Error>((v0, v1, v2, v3, v4, v5, v6, v7, v8, v9, v10, v11, v12, v13, v14, v15, v16)),
                    da,
                    ma,
                    <(B, C, D, E, F, G, H, J, K, L, M, N, O, P, Q, R)>::spec_depth(mid),
                    <(B, C, D, E, F, G, H, J, K, L, M, N, O, P, Q, R)>::spec_mem(mid, al),
                );
            }
        }
        Ok((v0, v1, v2, v3, v4, v5, v6, v7, v8, v9, v10, v11, v12, v13, v14, v15, v16))
    }
}

impl<
    A: DecodeLaws,
    B: DecodeLaws,
    C: DecodeLaws,
    D: DecodeLaws,
    E: DecodeLaws,
    F: DecodeLaws,
    G: DecodeLaws,
    H: DecodeLaws,
    J: DecodeLaws,
    K: DecodeLaws,
    L: DecodeLaws,
    M: DecodeLaws,
    N: DecodeLaws,
    O: DecodeLaws,
    P: DecodeLaws,
    Q: DecodeLaws,
    R: DecodeLaws,
> DecodeLaws for (A, B, C, D, E, F, G, H, J, K, L, M, N, O, P, Q, R) {
    proof fn lemma_parse_bounded(bytes: Seq<u8>) {
        A::lemma_parse_bounded(bytes);
        if let Some(n) = A::spec_parse(bytes) {
            <(B, C, D, E, F, G, H, J, K, L, M, N, O, P, Q, R)>::lemma_parse_bounded(bytes.skip(n as int));
        }
    }

    proof fn lemma_parse_encoding(v: (A, B, C, D, E, F, G, H, J, K, L, M, N, O, P, Q, R), rest: Seq<u8>) {
        let ea = v.0.spec_encode();
        let et = rest_of_17(v).spec_encode();
        assert(ea + et + rest =~= ea + (et + rest));
        A::lemma_parse_encoding(v.0, et + rest);
        assert((ea + (et + rest)).skip(ea.len() as int) =~= et + rest);
        <(B, C, D, E, F, G, H, J, K, L, M, N, O, P, Q, R)>::lemma_parse_encoding(rest_of_17(v), rest);
    }

    open spec fn same_value(
        a: (A, B, C, D, E, F, G, H, J, K, L, M, N, O, P, Q, R),
        b: (A, B, C, D, E, F, G, H, J, K, L, M, N, O, P, Q, R),
    ) -> bool {
        A::same_value(a.0, b.0)
            && <(B, C, D, E, F, G, H, J, K, L, M, N, O, P, Q, R)>::same_value(rest_of_17(a), rest_of_17(b))
    }

    proof fn lemma_encoding_injective(
        a: (A, B, C, D, E, F, G, H, J, K, L, M, N, O, P, Q, R),
        b: (A, B, C, D, E, F, G, H, J, K, L, M, N, O, P, Q, R),
    ) {
        lemma_split_encodings(a.0, rest_of_17(a).spec_encode(), b.0, rest_of_17(b).spec_encode());
        A::lemma_encoding_injective(a.0, b.0);
        <(B, C, D, E, F, G, H, J, K, L, M, N, O, P, Q, R)>::lemma_encoding_injective(rest_of_17(a), rest_of_17(b));
    }
}

impl<
    A: EncodeLike<A2>,
    A2: Encode,
    B: EncodeLike<B2>,
    B2: Encode,
    C: EncodeLike<C2>,
    C2: Encode,
    D: EncodeLike<D2>,
    D2: Encode,
    E: EncodeLike<E2>,
    E2: Encode,
    F: EncodeLike<F2>,
    F2: Encode,
    G: EncodeLike<G2>,
    G2: Encode,
    H: EncodeLike<H2>,
    H2: Encode,
    J: EncodeLike<J2>,
    J2: Encode,
    K: EncodeLike<K2>,
    K2: Encode,
    L: EncodeLike<L2>,
    L2: Encode,
    M: EncodeLike<M2>,
    M2: Encode,
    N: EncodeLike<N2>,
    N2: Encode,
    O: EncodeLike<O2>,
    O2: Encode,
    P: EncodeLike<P2>,
    P2: Encode,
    Q: EncodeLike<Q2>,
    Q2: Encode,
    R: EncodeLike<R2>,
    R2: Encode,
> EncodeLike<(A2, B2, C2, D2, E2, F2, G2, H2, J2, K2, L2, M2, N2, O2, P2, Q2, R2)> for (A, B, C, D, E, F, G, H, J, K, L, M, N, O, P, Q, R) {

}

impl<
    A: DecodeLength,
    B,
    C,
    D,
    E,
    F,
    G,
    H,
    J,
    K,
    L,
    M,
    N,
    O,
    P,
    Q,
    R,
> DecodeLength for (A, B, C, D, E, F, G, H, J, K, L, M, N, O, P, Q, R) {
    open spec fn spec_len(self_encoded: Seq<u8>) -> Option<nat> {
        A::spec_len(self_encoded)
    }

    fn len(self_encoded: &[u8]) -> (r: Result<usize, Error>) {
        A::len(self_encoded)
    }
}

impl<
    A: DecodeWithMemTracking,
    B: DecodeWithMemTracking,
    C: DecodeWithMemTracking,
    D: DecodeWithMemTracking,
    E: DecodeWithMemTracking,
    F: DecodeWithMemTracking,
    G: DecodeWithMemTracking,
    H: DecodeWithMemTracking,
    J: DecodeWithMemTracking,
    K: DecodeWithMemTracking,
    L: DecodeWithMemTracking,
    M: DecodeWithMemTracking,
    N: DecodeWithMemTracking,
    O: DecodeWithMemTracking,
    P: DecodeWithMemTracking,
    Q: DecodeWithMemTracking,
    R: DecodeWithMemTracking,
> DecodeWithMemTracking for (A, B, C, D, E, F, G, H, J, K, L, M, N, O, P, Q, R) {

}

/// The values of a tuple of 18 after its first.
pub open spec fn rest_of_18<A, B, C, D, E, F, G, H, J, K, L, M, N, O, P, Q, R, S>(
    t: (A, B, C, D, E, F, G, H, J, K, L, M, N, O, P, Q, R, S),
) -> (B, C, D, E, F, G, H, J, K, L, M, N, O, P, Q, R, S) {
    (t.1, t.2, t.3, t.4, t.5, t.6, t.7, t.8, t.9, t.10, t.11, t.12, t.13, t.14, t.15, t.16, t.17)
}

impl<
    A: Encode,
    B: Encode,
    C: Encode,
    D: Encode,
    E: Encode,
    F: Encode,
    G: Encode,
    H: Encode,
    J: Encode,
    K: Encode,
    L: Encode,
    M: Encode,
    N: Encode,
    O: Encode,
    P: Encode,
    Q: Encode,
    R: Encode,
    S: Encode,
> Encode for (A, B, C, D, E, F, G, H, J, K, L, M, N, O, P, Q, R, S) {
    open spec fn spec_encode(&self) -> Seq<u8> {
        self.0.spec_encode() + rest_of_18(*self).spec_encode()
    }

    open spec fn encodable(&self) -> bool {
        self.0.encodable() && rest_of_18(*self).encodable()
    }

    fn size_hint(&self) -> (n: usize)
        ensures
            exists|h0: usize, h1: usize, h2: usize, h3: usize, h4: usize, h5: usize, h6: usize, h7: usize, h8: usize, h9: usize, h10: usize, h11: usize, h12: usize, h13: usize, h14: usize, h15: usize, h16: usize, h17: usize|
                size_hint_of(&self.0, h0) && size_hint_of(&self.1, h1)
                    && size_hint_of(&self.2, h2) && size_hint_of(&self.3, h3)
                    && size_hint_of(&self.4, h4) && size_hint_of(&self.5, h5)
                    && size_hint_of(&self.6, h6) && size_hint_of(&self.7, h7)
                    && size_hint_of(&self.8, h8) && size_hint_of(&self.9, h9)
                    && size_hint_of(&self.10, h10) && size_hint_of(&self.11, h11)
                    && size_hint_of(&self.12, h12) && size_hint_of(&self.13, h13)
                    && size_hint_of(&self.14, h14) && size_hint_of(&self.15, h15)
                    && size_hint_of(&self.16, h16) && size_hint_of(&self.17, h17)
                    && n == saturated(h0 + h1 + h2 + h3 + h4 + h5 + h6 + h7 + h8 + h9 + h10 + h11 + h12 + h13 + h14 + h15 + h16 + h17),
    {
        let h0 = hint_of(&self.0);
        let h1 = hint_of(&self.1);
        let h2 = hint_of(&self.2);
        let h3 = hint_of(&self.3);
        let h4 = hint_of(&self.4);
        let h5 = hint_of(&self.5);
        let h6 = hint_of(&self.6);
        let h7 = hint_of(&self.7);
        let h8 = hint_of(&self.8);
        let h9 = hint_of(&self.9);
        let h10 = hint_of(&self.10);
        let h11 = hint_of(&self.11);
        let h12 = hint_of(&self.12);
        let h13 = hint_of(&self.13);
        let h14 = hint_of(&self.14);
        let h15 = hint_of(&self.15);
        let h16 = hint_of(&self.16);
        let h17 = hint_of(&self.17);
        let mut n = h0;
        n = n.saturating_add(h1);
        assert(n == saturated(h0 + h1));
        n = n.saturating_add(h2);
        assert(n == saturated(h0 + h1 + h2));
        n = n.saturating_add(h3);
        assert(n == saturated(h0 + h1 + h2 + h3));
        n = n.saturating_add(h4);
        assert(n == saturated(h0 + h1 + h2 + h3 + h4));
        n = n.saturating_add(h5);
        assert(n == saturated(h0 + h1 + h2 + h3 + h4 + h5));
        n = n.saturating_add(h6);
        assert(n == saturated(h0 + h1 + h2 + h3 + h4 + h5 + h6));
        n = n.saturating_add(h7);
        assert(n == saturated(h0 + h1 + h2 + h3 + h4 + h5 + h6 + h7));
        n = n.saturating_add(h8);
        assert(n == saturated(h0 + h1 + h2 + h3 + h4 + h5 + h6 + h7 + h8));
        n = n.saturating_add(h9);
        assert(n == saturated(h0 + h1 + h2 + h3 + h4 + h5 + h6 + h7 + h8 + h9));
        n = n.saturating_add(h10);
        assert(n == saturated(h0 + h1 + h2 + h3 + h4 + h5 + h6 + h7 + h8 + h9 + h10));
        n = n.saturating_add(h11);
        assert(n == saturated(h0 + h1 + h2 + h3 + h4 + h5 + h6 + h7 + h8 + h9 + h10 + h11));
        n = n.saturating_add(h12);
        assert(n == saturated(h0 + h1 + h2 + h3 + h4 + h5 + h6 + h7 + h8 + h9 + h10 + h11 + h12));
        n = n.saturating_add(h13);
        assert(n == saturated(h0 + h1 + h2 + h3 + h4 + h5 + h6 + h7 + h8 + h9 + h10 + h11 + h12 + h13));
        n = n.saturating_add(h14);
        assert(n == saturated(h0 + h1 + h2 + h3 + h4 + h5 + h6 + h7 + h8 + h9 + h10 + h11 + h12 + h13 + h14));
        n = n.saturating_add(h15);
        assert(n == saturated(h0 + h1 + h2 + h3 + h4 + h5 + h6 + h7 + h8 + h9 + h10 + h11 + h12 + h13 + h14 + h15));
        n = n.saturating_add(h16);
        assert(n == saturated(h0 + h1 + h2 + h3 + h4 + h5 + h6 + h7 + h8 + h9 + h10 + h11 + h12 + h13 + h14 + h15 + h16));
        n = n.saturating_add(h17);
        assert(n == saturated(h0 + h1 + h2 + h3 + h4 + h5 + h6 + h7 + h8 + h9 + h10 + h11 + h12 + h13 + h14 + h15 + h16 + h17));
        n
    }

    fn encode_to<W: Output>(&self, dest: &mut W) {
        let rest = (
            &self.1,
            &self.2,
            &self.3,
            &self.4,
            &self.5,
            &self.6,
            &self.7,
            &self.8,
            &self.9,
            &self.10,
            &self.11,
            &self.12,
            &self.13,
            &self.14,
            &self.15,
            &self.16,
            &self.17,
        );
        assert(rest.spec_encode() == rest_of_18(*self).spec_encode());
        assert(rest.encodable() == rest_of_18(*self).encodable());
        self.0.encode_to(dest);
        rest.encode_to(dest);
        assert(dest.written() =~= old(dest).written() + self.spec_encode());
    }
}

impl<
    A: Decode,
    B: Decode,
    C: Decode,
    D: Decode,
    E: Decode,
    F: Decode,
    G: Decode,
    H: Decode,
    J: Decode,
    K: Decode,
    L: Decode,
    M: Decode,
    N: Decode,
    O: Decode,
    P: Decode,
    Q: Decode,
    R: Decode,
    S: Decode,
> Decode for (A, B, C, D, E, F, G, H, J, K, L, M, N, O, P, Q, R, S) {
    open spec fn spec_parse(bytes: Seq<u8>) -> Option<nat> {
        pair_parse(
            A::spec_parse(bytes),
            |n: nat| <(B, C, D, E, F, G, H, J, K, L, M, N, O, P, Q, R, S)>::spec_parse(bytes.skip(n as int)),
        )
    }

    open spec fn spec_depth(bytes: Seq<u8>) -> nat {
        match A::spec_parse(bytes) {
            Some(n) => deeper(A::spec_depth(bytes), <(B, C, D, E, F, G, H, J, K, L, M, N, O, P, Q, R, S)>::spec_depth(bytes.skip(n as int))),
            None => A::spec_depth(bytes),
        }
    }

    open spec fn spec_mem(bytes: Seq<u8>, align: Option<MemAlignment>) -> nat {
        match A::spec_parse(bytes) {
            Some(n) => A::spec_mem(bytes, align) + <(B, C, D, E, F, G, H, J, K, L, M, N, O, P, Q, R, S)>::spec_mem(bytes.skip(n as int), align),
            None => A::spec_mem(bytes, align),
        }
    }

    fn decode<I: Input>(input: &mut I) -> (r: Result<(A, B, C, D, E, F, G, H, J, K, L, M, N, O, P, Q, R, S), Error>) {
        let ghost before = old(input).unread();
        let ghost s0 = *old(input);
        let ghost al = mem_alignment(s0);
        let ghost da = A::spec_depth(before);
        let ghost ma = A::spec_mem(before, al);
        let ghost tail = before.skip(A::spec_parse(before).unwrap() as int);
        proof {
            if Self::spec_parse(before) is Some {
                assert(Self::spec_depth(before) == deeper(da, <(B, C, D, E, F, G, H, J, K, L, M, N, O, P, Q, R, S)>::spec_depth(tail)));
                assert(Self::spec_mem(before, al) == ma + <(B, C, D, E, F, G, H, J, K, L, M, N, O, P, Q, R, S)>::spec_mem(tail, al));
            }
        }
        let ra = A::decode(input);
        let ghost ra_g = ra;
        let ghost s1 = *input;
        let v0 = match ra {
            Ok(v) => v,
            Err(e) => {
                proof {
                    if Self::spec_parse(before) is Some {
                        lemma_limits_stop(
                            s0,
                            s1,
                            ra_g,
                            Err::<(A, B, C, D, E, F, G, H, J, K, L, M, N, O, P, Q, R, S), Error>(e),
                            da,
                            ma,
                            <(B, C, D, E, F, G, H, J, K, L, M, N, O, P, Q, R, S)>::spec_depth(tail),
                            <(B, C, D, E, F, G, H, J, K, L, M, N, O, P, Q, R, S)>::spec_mem(tail, al),
                        );
                    }
                }
                return Err(e);
            },
        };
        let ghost mid = input.unread();
        let rb = <(B, C, D, E, F, G, H, J, K, L, M, N, O, P, Q, R, S)>::decode(input);
        let ghost rb_g = rb;
        let (v1, v2, v3, v4, v5, v6, v7, v8, v9, v10, v11, v12, v13, v14, v15, v16, v17) = match rb {
            Ok(t) => t,
            Err(e) => {
                proof {
                    if Self::spec_parse(before) is Some {
                        assert(mem_alignment(s1) == al);
                        lemma_limits_then(
                            s0,
                            s1,
                            *input,
                            ra_g,
                            rb_g,
                            Err::<(A, B, C, D, E, F, G, H, J, K, L, M, N, O, P, Q, R, S), Error>(e),
                            da,
                            ma,
                            <(B, C, D, E, F, G, H, J, K, L, M, N, O, P, Q, R, S)>::spec_depth(mid),
                            <(B, C, D, E, F, G, H, J, K, L, M, N, O, P, Q, R, S)>::spec_mem(mid, al),
                        );
                    }
                }
                return Err(e);
            },
        };
        proof {
            let rest = (v1, v2, v3, v4, v5, v6, v7, v8, v9, v10, v11, v12, v13, v14, v15, v16, v17);
            if Self::spec_parse(before) is Some {
                lemma_two_parts(before, v0.spec_encode(), mid, rest.spec_encode(), input.unread());
                assert(mem_alignment(s1) == al);
                lemma_limits_then(
                    s0,
                    s1,
                    *input,
                    ra_g,
                    rb_g,
                    Ok::<(A, B, C, D, E, F, G, H, J, K, L, M, N, O, P, Q, R, S), Error>((v0, v1, v2, v3, v4, v5, v6, v7, v8, v9, v10, v11, v12, v13, v14, v15, v16, v17)),
                    da,
                    ma,
                    <(B, C, D, E, F, G, H, J, K, L, M, N, O, P, Q, R, S)>::spec_depth(mid),
                    <(B, C, D, E, F, G, H, J, K, L, M, N, O, P, Q, R, S)>::spec_mem(mid, al),
                );
            }
        }
        Ok((v0, v1, v2, v3, v4, v5, v6, v7, v8, v9, v10, v11, v12, v13, v14, v15, v16, v17))
    }
}

impl<
    A: DecodeLaws,
    B: DecodeLaws,
    C: DecodeLaws,
    D: DecodeLaws,
    E: DecodeLaws,
    F: DecodeLaws,
    G: DecodeLaws,
    H: DecodeLaws,
    J: DecodeLaws,
    K: DecodeLaws,
    L: DecodeLaws,
    M: DecodeLaws,
    N: DecodeLaws,
    O: DecodeLaws,
    P: DecodeLaws,
    Q: DecodeLaws,
    R: DecodeLaws,
    S: DecodeLaws,
> DecodeLaws for (A, B, C, D, E, F, G, H, J, K, L, M, N, O, P, Q, R, S) {
    proof fn lemma_parse_bounded(bytes: Seq<u8>) {
        A::lemma_parse_bounded(bytes);
        if let Some(n) = A::spec_parse(bytes) {
            <(B, C, D, E, F, G, H, J, K, L, M, N, O, P, Q, R, S)>::lemma_parse_bounded(bytes.skip(n as int));
        }
    }

    proof fn lemma_parse_encoding(v: (A, B, C, D, E, F, G, H, J, K, L, M, N, O, P, Q, R, S), rest: Seq<u8>) {
        let ea = v.0.spec_encode();
        let et = rest_of_18(v).spec_encode();
        assert(ea + et + rest =~= ea + (et + rest));
        A::lemma_parse_encoding(v.0, et + rest);
        assert((ea + (et + rest)).skip(ea.len() as int) =~= et + rest);
        <(B, C, D, E, F, G, H, J, K, L, M, N, O, P, Q, R, S)>::lemma_parse_encoding(rest_of_18(v), rest);
    }

    open spec fn same_value(
        a: (A, B, C, D, E, F, G, H, J, K, L, M, N, O, P, Q, R, S),
        b: (A, B, C, D, E, F, G, H, J, K, L, M, N, O, P, Q, R, S),
    ) -> bool {
        A::same_value(a.0, b.0)
            && <(B, C, D, E, F, G, H, J, K, L, M, N, O, P, Q, R, S)>::same_value(rest_of_18(a), rest_of_18(b))
    }

    proof fn lemma_encoding_injective(
        a: (A, B, C, D, E, F, G, H, J, K, L, M, N, O, P, Q, R, S),
        b: (A, B, C, D, E, F, G, H, J, K, L, M, N, O, P, Q, R, S),
    ) {
        lemma_split_encodings(a.0, rest_of_18(a).spec_encode(), b.0, rest_of_18(b).spec_encode());
        A::lemma_encoding_injective(a.0, b.0);
        <(B, C, D, E, F, G, H, J, K, L, M, N, O, P, Q, R, S)>::lemma_encoding_injective(rest_of_18(a), rest_of_18(b));
    }
}

impl<
    A: EncodeLike<A2>,
    A2: Encode,
    B: EncodeLike<B2>,
    B2: Encode,
    C: EncodeLike<C2>,
    C2: Encode,
    D: EncodeLike<D2>,
    D2: Encode,
    E: EncodeLike<E2>,
    E2: Encode,
    F: EncodeLike<F2>,
    F2: Encode,
    G: EncodeLike<G2>,
    G2: Encode,
    H: EncodeLike<H2>,
    H2: Encode,
    J: EncodeLike<J2>,
    J2: Encode,
    K: EncodeLike<K2>,
    K2: Encode,
    L: EncodeLike<L2>,
    L2: Encode,
    M: EncodeLike<M2>,
    M2: Encode,
    N: EncodeLike<N2>,
    N2: Encode,
    O: EncodeLike<O2>,
    O2: Encode,
    P: EncodeLike<P2>,
    P2: Encode,
    Q: EncodeLike<Q2>,
    Q2: Encode,
    R: EncodeLike<R2>,
    R2: Encode,
    S: EncodeLike<S2>,
    S2: Encode,
> EncodeLike<(A2, B2, C2, D2, E2, F2, G2, H2, J2, K2, L2, M2, N2, O2, P2, Q2, R2, S2)> for (A, B, C, D, E, F, G, H, J, K, L, M, N, O, P, Q, R, S) {

}

impl<
    A: DecodeLength,
    B,
    C,
    D,
    E,
    F,
    G,
    H,
    J,
    K,
    L,
    M,
    N,
    O,
    P,
    Q,
    R,
    S,
> DecodeLength for (A, B, C, D, E, F, G, H, J, K, L, M, N, O, P, Q, R, S) {
    open spec fn spec_len(self_encoded: Seq<u8>) -> Option<nat> {
        A::spec_len(self_encoded)
    }

    fn len(self_encoded: &[u8]) -> (r: Result<usize, Error>) {
        A::len(self_encoded)
    }
}

impl<
    A: DecodeWithMemTracking,
    B: DecodeWithMemTracking,
    C: DecodeWithMemTracking,
    D: DecodeWithMemTracking,
    E: DecodeWithMemTracking,
    F: DecodeWithMemTracking,
    G: DecodeWithMemTracking,
    H: DecodeWithMemTracking,
    J: DecodeWithMemTracking,
    K: DecodeWithMemTracking,
    L: DecodeWithMemTracking,
    M: DecodeWithMemTracking,
    N: DecodeWithMemTracking,
    O: DecodeWithMemTracking,
    P: DecodeWithMemTracking,
    Q: DecodeWithMemTracking,
    R: DecodeWithMemTracking,
    S: DecodeWithMemTracking,
> DecodeWithMemTracking for (A, B, C, D, E, F, G, H, J, K, L, M, N, O, P, Q, R, S) {

}

} // verus!
