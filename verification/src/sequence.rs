//! Sequences: `Vec`, `VecDeque`, arrays and strings, encoded as their items one after another,
//! behind the compact encoding of their length where the length is not fixed by the type.
use crate::codec::{
    deeper, decodes_to, fixed_size_call, fixed_size_of, lemma_limits_more, lemma_limits_nested, lemma_limits_same,
    lemma_limits_then, lemma_no_hooks, lemma_split_encodings, limits_kept, mem_alignment,
    saturated, Decode, DecodeLaws, Encode,
};
use crate::memory_limit::{aligned_size, MemAlignment};
use crate::compact::{compact_parse_max, decode_compact_max};
use crate::compact_spec::{
    compact_encoding, compact_parse, lemma_compact_encoding_len, lemma_compact_parse_canonical,
    lemma_compact_parse_encoding, lemma_compact_u128, write_compact,
};
use crate::error::Error;
use crate::io::{Input, Output};
use vstd::prelude::*;
use vstd::string::StringSliceAdditionalSpecFns;
use vstd::utf8::{
    decode_utf8, decode_utf8_encode_utf8, encode_utf8, encode_utf8_decode_utf8, encode_utf8_valid_utf8,
    valid_utf8,
};
use std::collections::VecDeque;

verus! {

/// Upper bound, in bytes, on what decoding preallocates when the input does not tell its length.
pub const MAX_PREALLOCATION: usize = 4096;

/// The encodings of `s`'s items, one after another.
pub open spec fn items_encoding<T: Encode>(s: Seq<T>) -> Seq<u8>
    decreases s.len(),
{
    if s.len() == 0 {
        Seq::empty()
    } else {
        s[0].spec_encode() + items_encoding(s.drop_first())
    }
}

/// Every item of `s` can be encoded.
pub open spec fn all_encodable<T: Encode>(s: Seq<T>) -> bool {
    forall|i: int| 0 <= i < s.len() ==> #[trigger] s[i].encodable()
}

/// The length of `n` encoded items at the front of `bytes`, if `bytes` starts with them.
pub open spec fn items_parse<T: Decode>(bytes: Seq<u8>, n: nat) -> Option<nat>
    decreases n,
{
    if n == 0 {
        Some(0)
    } else {
        match T::spec_parse(bytes) {
            Some(a) => match items_parse::<T>(bytes.skip(a as int), (n - 1) as nat) {
                Some(b) => Some(a + b),
                None => None,
            },
            None => None,
        }
    }
}

/// The deepest nesting among `n` items read one after another from the front of `bytes`.
pub open spec fn items_depth<T: Decode>(bytes: Seq<u8>, n: nat) -> nat
    decreases n,
{
    if n == 0 {
        0
    } else {
        match T::spec_parse(bytes) {
            Some(a) => deeper(
                T::spec_depth(bytes),
                items_depth::<T>(bytes.skip(a as int), (n - 1) as nat),
            ),
            None => T::spec_depth(bytes),
        }
    }
}

/// The memory that reading `n` items one after another from the front of `bytes` asks for.
pub open spec fn items_mem<T: Decode>(bytes: Seq<u8>, n: nat, align: Option<MemAlignment>) -> nat
    decreases n,
{
    if n == 0 {
        0
    } else {
        match T::spec_parse(bytes) {
            Some(a) => T::spec_mem(bytes, align) + items_mem::<T>(
                bytes.skip(a as int),
                (n - 1) as nat,
                align,
            ),
            None => T::spec_mem(bytes, align),
        }
    }
}

/// The memory that a vector of `len` items is counted as, before its items are read: the
/// vector itself and room for its items, capped at the largest `usize`.
pub open spec fn vec_alloc_size<T>(len: usize) -> usize {
    saturated(
        core::mem::size_of::<Vec<T>>() + if len * core::mem::size_of::<T>() <= usize::MAX {
            len * core::mem::size_of::<T>()
        } else {
            usize::MAX as int
        },
    )
}

/// The length of a length-prefixed sequence of items at the front of `bytes`, if `bytes` starts
/// with one: the compact encoding of a count up to `u32::MAX`, then that many items.
pub open spec fn prefixed_items_parse<T: Decode>(bytes: Seq<u8>) -> Option<nat> {
    match compact_parse(bytes) {
        Some((n, k)) => if n <= u32::MAX {
            match items_parse::<T>(bytes.skip(k as int), n) {
                Some(m) => Some(k + m),
                None => None,
            }
        } else {
            None
        },
        None => None,
    }
}

/// The encoding of a sequence with its length in front.
pub open spec fn prefixed_items_encoding<T: Encode>(s: Seq<T>) -> Seq<u8> {
    compact_encoding(s.len()) + items_encoding(s)
}

pub proof fn lemma_items_encoding_concat<T: Encode>(a: Seq<T>, b: Seq<T>)
    ensures
        items_encoding(a + b) == items_encoding(a) + items_encoding(b),
    decreases a.len(),
{
    if a.len() == 0 {
        assert(a + b =~= b);
        assert(items_encoding(a) + items_encoding(b) =~= items_encoding(b));
    } else {
        assert((a + b).drop_first() =~= a.drop_first() + b);
        assert((a + b)[0] == a[0]);
        lemma_items_encoding_concat(a.drop_first(), b);
        assert(items_encoding(a + b) =~= items_encoding(a) + items_encoding(b));
    }
}

pub proof fn lemma_items_encoding_push<T: Encode>(s: Seq<T>, x: T)
    ensures
        items_encoding(s.push(x)) == items_encoding(s) + x.spec_encode(),
{
    lemma_items_encoding_concat(s, seq![x]);
    assert(s + seq![x] =~= s.push(x));
    assert(seq![x].drop_first() =~= Seq::<T>::empty());
    assert(items_encoding(seq![x].drop_first()) =~= Seq::<u8>::empty());
    assert(seq![x][0] == x);
    assert(items_encoding(seq![x]) =~= x.spec_encode() + Seq::<u8>::empty());
    assert(x.spec_encode() + Seq::<u8>::empty() =~= x.spec_encode());
}

/// Reading the encodings of items gives their number back, whatever follows.
pub proof fn lemma_items_parse_encoding<T: DecodeLaws>(s: Seq<T>, rest: Seq<u8>)
    requires
        all_encodable(s),
    ensures
        items_parse::<T>(items_encoding(s) + rest, s.len()) == Some(items_encoding(s).len()),
    decreases s.len(),
{
    if s.len() > 0 {
        let tail = s.drop_first();
        let after = items_encoding(tail) + rest;
        assert(items_encoding(s) + rest =~= s[0].spec_encode() + after);
        assert(s[0].encodable());
        T::lemma_parse_encoding(s[0], after);
        assert((s[0].spec_encode() + after).skip(s[0].spec_encode().len() as int) =~= after);
        assert(all_encodable(tail)) by {
            assert forall|i: int| 0 <= i < tail.len() implies #[trigger] tail[i].encodable() by {
                assert(tail[i] == s[i + 1]);
            }
        }
        lemma_items_parse_encoding(tail, rest);
    }
}

pub proof fn lemma_items_parse_bounded<T: DecodeLaws>(bytes: Seq<u8>, n: nat)
    ensures
        items_parse::<T>(bytes, n) matches Some(m) ==> m <= bytes.len(),
    decreases n,
{
    if n > 0 {
        T::lemma_parse_bounded(bytes);
        if let Some(a) = T::spec_parse(bytes) {
            lemma_items_parse_bounded::<T>(bytes.skip(a as int), (n - 1) as nat);
        }
    }
}

pub proof fn lemma_prefixed_parse_encoding<T: DecodeLaws>(s: Seq<T>, rest: Seq<u8>)
    requires
        all_encodable(s),
        s.len() <= u32::MAX,
    ensures
        prefixed_items_parse::<T>(prefixed_items_encoding(s) + rest) == Some(
            prefixed_items_encoding(s).len(),
        ),
{
    let c = compact_encoding(s.len());
    let body = items_encoding(s) + rest;
    assert(prefixed_items_encoding(s) + rest =~= c + body);
    lemma_compact_u128(s.len());
    lemma_compact_parse_encoding(s.len(), body);
    assert((c + body).skip(c.len() as int) =~= body);
    lemma_items_parse_encoding(s, rest);
}

pub proof fn lemma_prefixed_parse_bounded<T: DecodeLaws>(bytes: Seq<u8>)
    ensures
        prefixed_items_parse::<T>(bytes) matches Some(m) ==> m <= bytes.len(),
{
    if let Some((n, k)) = compact_parse(bytes) {
        lemma_compact_parse_canonical(bytes);
        lemma_items_parse_bounded::<T>(bytes.skip(k as int), n);
    }
}

/// `a * b`, or `usize::MAX` where that does not fit.
pub(crate) fn mul_or_max(a: usize, b: usize) -> (r: usize)
    ensures
        r == if a * b <= usize::MAX {
            a * b
        } else {
            usize::MAX as int
        },
{
    match a.checked_mul(b) {
        Some(x) => x,
        None => usize::MAX,
    }
}

/// Writes the compact encoding of `len`, refusing lengths above `u32::MAX`.
pub fn compact_encode_len_to<W: Output>(dest: &mut W, len: usize) -> (r: Result<(), Error>)
    requires
        old(dest).written().len() + compact_encoding(len as nat).len() <= usize::MAX,
    ensures
        r is Ok <==> len <= u32::MAX,
        r is Ok ==> final(dest).written() == old(dest).written() + compact_encoding(len as nat),
        r is Err ==> final(dest).written() == old(dest).written(),
        r matches Err(e) ==> e.description()
            == "Attempted to serialize a collection with too many elements."@,
{
    if len > u32::MAX as usize {
        return Err(Error::new("Attempted to serialize a collection with too many elements."));
    }
    write_compact(dest, len as u128);
    Ok(())
}

/// Encodes the items of `s`, one after another, without their number.
pub(crate) fn encode_slice_no_len<T: Encode, W: Output>(s: &[T], dest: &mut W)
    requires
        all_encodable(s@),
        old(dest).written().len() + items_encoding(s@).len() <= usize::MAX,
    ensures
        final(dest).written() == old(dest).written() + items_encoding(s@),
{
    let mut i: usize = 0;
    while i < s.len()
        invariant
            i <= s@.len(),
            all_encodable(s@),
            old(dest).written().len() + items_encoding(s@).len() <= usize::MAX,
            dest.written() == old(dest).written() + items_encoding(s@.take(i as int)),
        decreases s@.len() - i,
    {
        proof {
            lemma_items_encoding_push(s@.take(i as int), s@[i as int]);
            assert(s@.take(i as int).push(s@[i as int]) =~= s@.take(i + 1));
            lemma_items_encoding_concat(s@.take(i + 1), s@.skip(i + 1));
            assert(s@.take(i + 1) + s@.skip(i + 1) =~= s@);
            assert(s@[i as int].encodable());
        }
        s[i].encode_to(dest);
        i = i + 1;
    }
    assert(s@.take(s@.len() as int) =~= s@);
}

/// Decodes `len` items one after another, appending them to `r`.
fn decode_items<T: Decode, I: Input>(input: &mut I, len: usize, r: &mut Vec<T>) -> (res: Result<
    (),
    Error,
>)
    ensures
        final(input).hooks_succeed() == old(input).hooks_succeed(),
        res is Ok ==> final(r)@.len() == old(r)@.len() + len && final(r)@.take(
            old(r)@.len() as int,
        ) == old(r)@,
        items_parse::<T>(old(input).unread(), len as nat) is Some ==> (res is Ok ==> ({
            let items = final(r)@.skip(old(r)@.len() as int);
            &&& final(r)@.len() == old(r)@.len() + len
            &&& final(r)@.take(old(r)@.len() as int) == old(r)@
            &&& all_encodable(items)
            &&& items_parse::<T>(old(input).unread(), len as nat) == Some(items_encoding(items).len())
            &&& items_encoding(items).len() <= old(input).unread().len()
            &&& old(input).unread().take(items_encoding(items).len() as int) == items_encoding(items)
            &&& final(input).unread() == old(input).unread().skip(items_encoding(items).len() as int)
        })),
        res is Err ==> items_parse::<T>(old(input).unread(), len as nat) is None || !old(
            input,
        ).hooks_succeed(),
        items_parse::<T>(old(input).unread(), len as nat) is Some ==> limits_kept(
            *old(input),
            *final(input),
            res,
            items_depth::<T>(old(input).unread(), len as nat),
            items_mem::<T>(old(input).unread(), len as nat, mem_alignment(*old(input))),
        ),
{
    let ghost orig = old(input).unread();
    let ghost s0 = *old(input);
    let ghost al = mem_alignment(s0);
    let ghost mut dacc: nat = 0;
    let ghost mut macc: nat = 0;
    proof {
        lemma_no_hooks(s0, s0, ());
    }
    let ghost start = old(r)@.len();
    let mut i: usize = 0;
    assert(orig.take(0) =~= Seq::<u8>::empty());
    assert(orig.skip(0) =~= orig);
    assert(r@.skip(start as int) =~= Seq::<T>::empty());
    while i < len
        invariant
            i <= len,
            r@.len() == start + i,
            r@.take(start as int) == old(r)@,
            input.hooks_succeed() == old(input).hooks_succeed(),
            orig == old(input).unread(),
            items_parse::<T>(orig, len as nat) is Some ==> {
                &&& all_encodable(r@.skip(start as int))
                &&& items_encoding(r@.skip(start as int)).len() <= orig.len()
                &&& orig.take(items_encoding(r@.skip(start as int)).len() as int) == items_encoding(
                    r@.skip(start as int),
                )
                &&& input.unread() == orig.skip(items_encoding(r@.skip(start as int)).len() as int)
                &&& items_parse::<T>(orig, len as nat) == match items_parse::<T>(
                    input.unread(),
                    (len - i) as nat,
                ) {
                    Some(m) => Some(m + items_encoding(r@.skip(start as int)).len()),
                    None => None,
                }
            },
            al == mem_alignment(s0),
            s0 == *old(input),
            items_parse::<T>(orig, len as nat) is Some ==> {
                &&& limits_kept(s0, *input, Ok::<(), Error>(()), dacc, macc)
                &&& items_depth::<T>(orig, len as nat) == deeper(
                    dacc,
                    items_depth::<T>(input.unread(), (len - i) as nat),
                )
                &&& items_mem::<T>(orig, len as nat, al) == macc + items_mem::<T>(
                    input.unread(),
                    (len - i) as nat,
                    al,
                )
            },
        decreases len - i,
    {
        let ghost done = r@.skip(start as int);
        let ghost c = items_encoding(done).len();
        let ghost cur = input.unread();
        let ghost si = *input;
        let ghost dx = T::spec_depth(cur);
        let ghost mx = T::spec_mem(cur, al);
        let rx = T::decode(input);
        let ghost rx_g = rx;
        proof {
            if items_parse::<T>(orig, len as nat) is Some {
                assert(mem_alignment(si) == al);
                assert(T::spec_parse(cur) is Some);
            }
        }
        let x = match rx {
            Ok(x) => x,
            Err(e) => {
                proof {
                    if items_parse::<T>(orig, len as nat) is Some {
                        lemma_limits_then(
                            s0,
                            si,
                            *input,
                            Ok::<(), Error>(()),
                            rx_g,
                            Err::<(), Error>(e),
                            dacc,
                            macc,
                            dx,
                            mx,
                        );
                        lemma_limits_more(
                            s0,
                            *input,
                            Err::<(), Error>(e),
                            deeper(dacc, dx),
                            macc + mx,
                            items_depth::<T>(orig, len as nat),
                            items_mem::<T>(orig, len as nat, al),
                        );
                    }
                }
                return Err(e);
            },
        };
        proof {
            if items_parse::<T>(orig, len as nat) is Some {
                lemma_limits_then(
                    s0,
                    si,
                    *input,
                    Ok::<(), Error>(()),
                    rx_g,
                    Ok::<(), Error>(()),
                    dacc,
                    macc,
                    dx,
                    mx,
                );
                dacc = deeper(dacc, dx);
                macc = macc + mx;
            }
        }
        let ghost a = x.spec_encode().len();
        proof {
            if items_parse::<T>(orig, len as nat) is Some {
                assert(cur.skip(a as int) =~= orig.skip((c + a) as int));
                lemma_items_encoding_push(done, x);
                assert(orig.take((c + a) as int) =~= orig.take(c as int) + cur.take(a as int));
            }
        }
        r.push(x);
        i = i + 1;
        proof {
            assert(r@.skip(start as int) =~= done.push(x));
            assert(r@.take(start as int) =~= old(r)@);
            if items_parse::<T>(orig, len as nat) is Some {
                assert forall|j: int| 0 <= j < r@.skip(start as int).len() implies #[trigger] r@.skip(
                    start as int,
                )[j].encodable() by {
                    if j < done.len() {
                        assert(r@.skip(start as int)[j] == done[j]);
                    }
                }
            }
        }
    }
    Ok(())
}

/// Decode `len` items (without a length in front).
///
/// The input is asked for its remaining length to bound what is preallocated, is told of the
/// memory that the items take, and is descended into while they are read.
pub fn decode_vec_with_len<T: Decode, I: Input>(input: &mut I, len: usize) -> (r: Result<
    Vec<T>,
    Error,
>)
    ensures
        final(input).hooks_succeed() == old(input).hooks_succeed(),
        r matches Ok(v) ==> v@.len() == len,
        items_parse::<T>(old(input).unread(), len as nat) is Some ==> (r matches Ok(v) ==> ({
            &&& all_encodable(v@)
            &&& items_parse::<T>(old(input).unread(), len as nat) == Some(items_encoding(v@).len())
            &&& items_encoding(v@).len() <= old(input).unread().len()
            &&& old(input).unread().take(items_encoding(v@).len() as int) == items_encoding(v@)
            &&& final(input).unread() == old(input).unread().skip(items_encoding(v@).len() as int)
        })),
        r is Err ==> items_parse::<T>(old(input).unread(), len as nat) is None || !old(
            input,
        ).hooks_succeed(),
        items_parse::<T>(old(input).unread(), len as nat) is Some ==> limits_kept(
            *old(input),
            *final(input),
            r,
            items_depth::<T>(old(input).unread(), len as nat) + 1,
            aligned_size(mem_alignment(*old(input)), vec_alloc_size::<T>(len)) + items_mem::<T>(
                old(input).unread(),
                len as nat,
                mem_alignment(*old(input)),
            ),
        ),
        exists|f: Option<usize>|
            #[trigger] fixed_size_of::<T>(f) && (f matches Some(n) ==> (old(input).knows_len() && (
            old(input).hooks_succeed() || old(input).depth_count() is Some || old(
                input,
            ).mem_budget() is Some) ==> {
                &&& len * n > usize::MAX ==> (r matches Err(e) && e.description()
                    == "Item is too big and cannot be allocated"@)
                &&& len * n <= usize::MAX && old(input).unread().len() < len * n ==> (r matches Err(
                    e,
                ) && e.description() == "Not enough data to decode vector"@)
                &&& len * n > old(input).unread().len() ==> final(input).unread() == old(
                    input,
                ).unread()
            })),
{
    let ghost s = old(input).unread();
    let ghost s0 = *old(input);
    let ghost al = mem_alignment(s0);
    let ghost dv = items_depth::<T>(s, len as nat);
    let ghost mv = items_mem::<T>(s, len as nat, al);
    let item_size = core::mem::size_of::<T>();
    let fixed = fixed_size_call::<T>();
    let remaining = input.remaining_len()?;
    let ghost s_r = *input;
    if let Some(n) = fixed {
        if let Some(l) = remaining {
            proof {
                lemma_fixed_items::<T>(s, len as nat, n as nat);
            }
            match len.checked_mul(n) {
                None => {
                    return Err(Error::new("Item is too big and cannot be allocated"));
                },
                Some(byte_len) => {
                    if l < byte_len {
                        return Err(Error::new("Not enough data to decode vector"));
                    }
                },
            }
        }
    }
    let input_len = match remaining {
        Some(l) => l,
        None => MAX_PREALLOCATION,
    };
    let input_capacity = if item_size == 0 {
        0
    } else {
        input_len / item_size
    };
    let capacity = if input_capacity < len {
        input_capacity
    } else {
        len
    };
    let vec_size = core::mem::size_of::<Vec<T>>();
    let size = vec_size.saturating_add(mul_or_max(len, item_size));
    assert(size == vec_alloc_size::<T>(len));
    let ghost ma = aligned_size(al, size);
    let ra = input.try_alloc(size);
    let ghost ra_g = ra;
    let ghost s_a = *input;
    proof {
        assert(mem_alignment(s_r) == al);
        lemma_no_hooks(s0, s_r, ());
        assert(limits_kept(s_r, s_a, ra_g, 0, ma));
        lemma_limits_then(s0, s_r, s_a, Ok::<(), Error>(()), ra_g, ra_g, 0, 0, 0, ma);
    }
    match ra {
        Ok(()) => {},
        Err(e) => {
            proof {
                lemma_limits_more(s0, s_a, Err::<Vec<T>, Error>(e), 0, ma, dv + 1, ma + mv);
            }
            return Err(e);
        },
    }
    let mut v: Vec<T> = Vec::with_capacity(capacity);
    let rd = input.descend_ref();
    let ghost rd_g = rd;
    let ghost s_d = *input;
    match rd {
        Ok(()) => {},
        Err(e) => {
            proof {
                lemma_limits_nested(
                    s_a,
                    s_d,
                    s_d,
                    s_d,
                    rd_g,
                    Err::<(), Error>(e),
                    Err::<Vec<T>, Error>(e),
                    dv,
                    mv,
                );
                lemma_limits_then(
                    s0,
                    s_a,
                    s_d,
                    ra_g,
                    Err::<Vec<T>, Error>(e),
                    Err::<Vec<T>, Error>(e),
                    0,
                    ma,
                    dv + 1,
                    mv,
                );
            }
            return Err(e);
        },
    }
    proof {
        assert(mem_alignment(s_d) == al);
    }
    let ri = decode_items(input, len, &mut v);
    let ghost ri_g = ri;
    let ghost s_i = *input;
    match ri {
        Ok(()) => {},
        Err(e) => {
            proof {
                if items_parse::<T>(s, len as nat) is Some {
                    lemma_limits_nested(s_a, s_d, s_i, s_i, rd_g, ri_g, Err::<Vec<T>, Error>(e), dv, mv);
                    lemma_limits_then(
                        s0,
                        s_a,
                        s_i,
                        ra_g,
                        Err::<Vec<T>, Error>(e),
                        Err::<Vec<T>, Error>(e),
                        0,
                        ma,
                        dv + 1,
                        mv,
                    );
                }
            }
            return Err(e);
        },
    }
    input.ascend_ref();
    assert(v@.skip(0) =~= v@);
    proof {
        if items_parse::<T>(s, len as nat) is Some {
            lemma_limits_nested(s_a, s_d, s_i, *input, rd_g, ri_g, Ok::<Vec<T>, Error>(v), dv, mv);
            lemma_limits_then(
                s0,
                s_a,
                *input,
                ra_g,
                Ok::<Vec<T>, Error>(v),
                Ok::<Vec<T>, Error>(v),
                0,
                ma,
                dv + 1,
                mv,
            );
        }
    }
    Ok(v)
}

/// Items that all take `size` bytes: `cnt` of them take `cnt * size` bytes.
proof fn lemma_fixed_items<T: Decode>(bytes: Seq<u8>, cnt: nat, size: nat)
    requires
        forall|b: Seq<u8>| #[trigger] T::spec_parse(b) matches Some(k) ==> k == size && k <= b.len(),
    ensures
        items_parse::<T>(bytes, cnt) matches Some(m) ==> m == cnt * size && m <= bytes.len(),
    decreases cnt,
{
    if cnt > 0 {
        if let Some(a) = T::spec_parse(bytes) {
            lemma_fixed_items::<T>(bytes.skip(a as int), (cnt - 1) as nat, size);
            assert(cnt * size == size + (cnt - 1) * size) by (nonlinear_arith)
                requires
                    cnt > 0,
            ;
        }
    }
}

/// Reading a count and then that many items reads a length-prefixed sequence.
proof fn lemma_prefixed_parts<T: Decode>(s: Seq<u8>, n: nat, k: nat)
    requires
        compact_parse(s) == Some((n, k)),
        n <= u32::MAX,
    ensures
        prefixed_items_parse::<T>(s) == match items_parse::<T>(s.skip(k as int), n) {
            Some(m) => Some(k + m),
            None => None,
        },
{
}

impl<T: Encode> Encode for Vec<T> {
    open spec fn spec_encode(&self) -> Seq<u8> {
        prefixed_items_encoding(self@)
    }

    open spec fn encodable(&self) -> bool {
        self@.len() <= u32::MAX && all_encodable(self@)
    }

    fn size_hint(&self) -> (n: usize)
        ensures
            n == saturated(4 + core::mem::size_of::<T>() * self@.len()),
    {
        let item = core::mem::size_of::<T>();
        4usize.saturating_add(mul_or_max(item, self.len()))
    }

    fn encode_to<W: Output>(&self, dest: &mut W) {
        proof {
            lemma_compact_encoding_len(self@.len());
        }
        let _ = compact_encode_len_to(dest, self.len());
        encode_slice_no_len(self.as_slice(), dest);
        assert(dest.written() =~= old(dest).written() + self.spec_encode());
    }
}

impl<T: Encode> Encode for [T] {
    open spec fn spec_encode(&self) -> Seq<u8> {
        prefixed_items_encoding(self@)
    }

    open spec fn encodable(&self) -> bool {
        self@.len() <= u32::MAX && all_encodable(self@)
    }

    fn size_hint(&self) -> (n: usize)
        ensures
            n == saturated(4 + core::mem::size_of::<T>() * self@.len()),
    {
        let item = core::mem::size_of::<T>();
        4usize.saturating_add(mul_or_max(item, self.len()))
    }

    fn encode_to<W: Output>(&self, dest: &mut W) {
        proof {
            lemma_compact_encoding_len(self@.len());
        }
        let _ = compact_encode_len_to(dest, self.len());
        encode_slice_no_len(self, dest);
        assert(dest.written() =~= old(dest).written() + self.spec_encode());
    }
}

impl<T: Decode> Decode for Vec<T> {
    open spec fn spec_parse(bytes: Seq<u8>) -> Option<nat> {
        prefixed_items_parse::<T>(bytes)
    }

    open spec fn spec_depth(bytes: Seq<u8>) -> nat {
        match compact_parse(bytes) {
            Some((n, k)) => items_depth::<T>(bytes.skip(k as int), n) + 1,
            None => 0,
        }
    }

    open spec fn spec_mem(bytes: Seq<u8>, align: Option<MemAlignment>) -> nat {
        match compact_parse(bytes) {
            Some((n, k)) => aligned_size(align, vec_alloc_size::<T>(n as usize)) + items_mem::<T>(
                bytes.skip(k as int),
                n,
                align,
            ),
            None => 0,
        }
    }

    fn decode<I: Input>(input: &mut I) -> (r: Result<Vec<T>, Error>) {
        let ghost s = old(input).unread();
        let ghost s0 = *old(input);
        let ghost al = mem_alignment(s0);
        let len = match decode_compact_max(input, u32::MAX as u128) {
            Ok(l) => l,
            Err(e) => {
                assert(prefixed_items_parse::<T>(s) is None || !old(input).hooks_succeed());
                return Err(e);
            },
        };
        let ghost k = compact_encoding(len as nat).len();
        proof {
            lemma_prefixed_parts::<T>(s, len as nat, k);
        }
        let ghost s_c = *input;
        let rv = decode_vec_with_len(input, len as usize);
        let ghost rv_g = rv;
        proof {
            assert(mem_alignment(s_c) == al);
            lemma_no_hooks(s0, s_c, ());
            if Self::spec_parse(s) is Some {
                assert(Self::spec_depth(s) == deeper(0, items_depth::<T>(s_c.unread(), len as nat) + 1));
                assert(Self::spec_mem(s, al) == 0 + (aligned_size(al, vec_alloc_size::<T>(len as usize))
                    + items_mem::<T>(s_c.unread(), len as nat, al)));
                lemma_limits_then(
                    s0,
                    s_c,
                    *input,
                    Ok::<(), Error>(()),
                    rv_g,
                    rv_g,
                    0,
                    0,
                    items_depth::<T>(s_c.unread(), len as nat) + 1,
                    aligned_size(al, vec_alloc_size::<T>(len as usize)) + items_mem::<T>(
                        s_c.unread(),
                        len as nat,
                        al,
                    ),
                );
            }
        }
        let v = match rv {
            Ok(v) => v,
            Err(e) => {
                return Err(e);
            },
        };
        proof {
            if Self::spec_parse(s) is Some {
                assert(s.skip(k as int).take(items_encoding(v@).len() as int) == items_encoding(v@));
                assert(s.take((k + items_encoding(v@).len()) as int) =~= s.take(k as int) + s.skip(
                    k as int,
                ).take(items_encoding(v@).len() as int));
                assert(input.unread() =~= s.skip((k + items_encoding(v@).len()) as int));
            }
        }
        Ok(v)
    }
}

impl<T: DecodeLaws> DecodeLaws for Vec<T> {
    proof fn lemma_parse_bounded(bytes: Seq<u8>) {
        lemma_prefixed_parse_bounded::<T>(bytes);
    }

    proof fn lemma_parse_encoding(v: Vec<T>, rest: Seq<u8>) {
        lemma_prefixed_parse_encoding::<T>(v@, rest);
    }

    open spec fn same_value(a: Vec<T>, b: Vec<T>) -> bool {
        same_items(a@, b@)
    }

    proof fn lemma_encoding_injective(a: Vec<T>, b: Vec<T>) {
        lemma_prefixed_items_injective(a@, b@);
    }
}

/// Items encode as themselves when they are bytes.
pub proof fn lemma_items_encoding_bytes(s: Seq<u8>)
    ensures
        items_encoding(s) == s,
        all_encodable(s),
    decreases s.len(),
{
    if s.len() > 0 {
        lemma_items_encoding_bytes(s.drop_first());
        assert(seq![s[0]] + s.drop_first() =~= s);
    }
}

/// `n` bytes are read as `n` items when there are that many.
pub proof fn lemma_items_parse_bytes(bytes: Seq<u8>, n: nat)
    ensures
        items_parse::<u8>(bytes, n) == if n <= bytes.len() {
            Some(n)
        } else {
            None::<nat>
        },
    decreases n,
{
    if n > 0 {
        if bytes.len() >= 1 {
            lemma_items_parse_bytes(bytes.skip(1), (n - 1) as nat);
        }
    }
}

impl<T: Encode, const N: usize> Encode for [T; N] {
    open spec fn spec_encode(&self) -> Seq<u8> {
        items_encoding(self@)
    }

    open spec fn encodable(&self) -> bool {
        all_encodable(self@)
    }

    fn size_hint(&self) -> (n: usize)
        ensures
            n == saturated(core::mem::size_of::<T>() * N),
    {
        mul_or_max(core::mem::size_of::<T>(), N)
    }

    fn encode_to<W: Output>(&self, dest: &mut W) {
        encode_slice_no_len(self.as_slice(), dest);
    }
}

/// Calls std's `<[T; N]>::try_from` on a vector, documented to succeed exactly when the vector
/// holds `N` items and then to give them in order. The contract claims that, for a vector of `N`
/// items, the array holds the vector's items.
#[verifier::external_body]
fn vec_into_array<T, const N: usize>(v: Vec<T>) -> (a: [T; N])
    requires
        v@.len() == N,
    ensures
        a@ == v@,
{
    <[T; N]>::try_from(v).ok().unwrap()
}

impl<T: Decode, const N: usize> Decode for [T; N] {
    open spec fn spec_parse(bytes: Seq<u8>) -> Option<nat> {
        items_parse::<T>(bytes, N as nat)
    }

    open spec fn spec_depth(bytes: Seq<u8>) -> nat {
        items_depth::<T>(bytes, N as nat)
    }

    open spec fn spec_mem(bytes: Seq<u8>, align: Option<MemAlignment>) -> nat {
        items_mem::<T>(bytes, N as nat, align)
    }

    fn decode<I: Input>(input: &mut I) -> (r: Result<[T; N], Error>) {
        let ghost s = old(input).unread();
        let ghost s0 = *old(input);
        let ghost al = mem_alignment(s0);
        proof {
            assert(Self::spec_depth(s) == items_depth::<T>(s, N as nat));
            assert(Self::spec_mem(s, al) == items_mem::<T>(s, N as nat, al));
        }
        let mut v: Vec<T> = Vec::new();
        let ri = decode_items(input, N, &mut v);
        let ghost ri_g = ri;
        match ri {
            Ok(()) => {},
            Err(e) => {
                proof {
                    if Self::spec_parse(s) is Some {
                        lemma_limits_same(
                            s0,
                            *input,
                            ri_g,
                            Err::<[T; N], Error>(e),
                            items_depth::<T>(s, N as nat),
                            items_mem::<T>(s, N as nat, al),
                        );
                    }
                }
                return Err(e);
            },
        }
        assert(v@.skip(0) =~= v@);
        let a = vec_into_array(v);
        proof {
            if Self::spec_parse(s) is Some {
                lemma_limits_same(
                    s0,
                    *input,
                    ri_g,
                    Ok::<[T; N], Error>(a),
                    items_depth::<T>(s, N as nat),
                    items_mem::<T>(s, N as nat, al),
                );
            }
        }
        Ok(a)
    }
}

impl<T: DecodeLaws, const N: usize> DecodeLaws for [T; N] {
    proof fn lemma_parse_bounded(bytes: Seq<u8>) {
        lemma_items_parse_bounded::<T>(bytes, N as nat);
    }

    proof fn lemma_parse_encoding(v: [T; N], rest: Seq<u8>) {
        lemma_items_parse_encoding::<T>(v@, rest);
    }

    open spec fn same_value(a: [T; N], b: [T; N]) -> bool {
        same_items(a@, b@)
    }

    proof fn lemma_encoding_injective(a: [T; N], b: [T; N]) {
        lemma_items_injective(a@, b@);
    }
}

impl<T: Encode> Encode for VecDeque<T> {
    open spec fn spec_encode(&self) -> Seq<u8> {
        prefixed_items_encoding(self@)
    }

    open spec fn encodable(&self) -> bool {
        self@.len() <= u32::MAX && all_encodable(self@)
    }

    fn size_hint(&self) -> (n: usize)
        ensures
            n == saturated(4 + core::mem::size_of::<T>() * self@.len()),
    {
        4usize.saturating_add(mul_or_max(core::mem::size_of::<T>(), self.len()))
    }

    fn encode_to<W: Output>(&self, dest: &mut W) {
        proof {
            lemma_compact_encoding_len(self@.len());
        }
        let _ = compact_encode_len_to(dest, self.len());
        let ghost start = dest.written();
        let mut i: usize = 0;
        while i < self.len()
            invariant
                i <= self@.len(),
                all_encodable(self@),
                start.len() + items_encoding(self@).len() <= usize::MAX,
                dest.written() == start + items_encoding(self@.take(i as int)),
            decreases self@.len() - i,
        {
            proof {
                lemma_items_encoding_push(self@.take(i as int), self@[i as int]);
                assert(self@.take(i as int).push(self@[i as int]) =~= self@.take(i + 1));
                lemma_items_encoding_concat(self@.take(i + 1), self@.skip(i + 1));
                assert(self@.take(i + 1) + self@.skip(i + 1) =~= self@);
                assert(self@[i as int].encodable());
            }
            self[i].encode_to(dest);
            i = i + 1;
        }
        assert(self@.take(self@.len() as int) =~= self@);
        assert(dest.written() =~= old(dest).written() + self.spec_encode());
    }
}

impl<T: Decode> Decode for VecDeque<T> {
    open spec fn spec_parse(bytes: Seq<u8>) -> Option<nat> {
        prefixed_items_parse::<T>(bytes)
    }

    open spec fn spec_depth(bytes: Seq<u8>) -> nat {
        <Vec<T>>::spec_depth(bytes)
    }

    open spec fn spec_mem(bytes: Seq<u8>, align: Option<MemAlignment>) -> nat {
        <Vec<T>>::spec_mem(bytes, align)
    }

    fn decode<I: Input>(input: &mut I) -> (r: Result<VecDeque<T>, Error>) {
        let ghost s = old(input).unread();
        let ghost s0 = *old(input);
        let ghost al = mem_alignment(s0);
        proof {
            assert(Self::spec_depth(s) == <Vec<T>>::spec_depth(s));
            assert(Self::spec_mem(s, al) == <Vec<T>>::spec_mem(s, al));
        }
        let rv = <Vec<T>>::decode(input);
        let ghost rv_g = rv;
        let v = match rv {
            Ok(v) => v,
            Err(e) => {
                proof {
                    if Self::spec_parse(s) is Some {
                        lemma_limits_same(
                            s0,
                            *input,
                            rv_g,
                            Err::<VecDeque<T>, Error>(e),
                            <Vec<T>>::spec_depth(s),
                            <Vec<T>>::spec_mem(s, al),
                        );
                    }
                }
                return Err(e);
            },
        };
        let ghost s_v = *input;
        let ghost items = v@;
        let mut d: VecDeque<T> = VecDeque::new();
        for x in it: v
            invariant
                d@ == it.seq().take(it.index()),
                it.seq() == items,
        {
            d.push_back(x);
            assert(d@ =~= it.seq().take(it.index() + 1));
        }
        assert(d@ =~= items);
        proof {
            if Self::spec_parse(s) is Some {
                lemma_limits_same(
                    s0,
                    s_v,
                    rv_g,
                    Ok::<VecDeque<T>, Error>(d),
                    <Vec<T>>::spec_depth(s),
                    <Vec<T>>::spec_mem(s, al),
                );
            }
        }
        Ok(d)
    }
}

impl<T: DecodeLaws> DecodeLaws for VecDeque<T> {
    proof fn lemma_parse_bounded(bytes: Seq<u8>) {
        lemma_prefixed_parse_bounded::<T>(bytes);
    }

    proof fn lemma_parse_encoding(v: VecDeque<T>, rest: Seq<u8>) {
        lemma_prefixed_parse_encoding::<T>(v@, rest);
    }

    open spec fn same_value(a: VecDeque<T>, b: VecDeque<T>) -> bool {
        same_items(a@, b@)
    }

    proof fn lemma_encoding_injective(a: VecDeque<T>, b: VecDeque<T>) {
        lemma_prefixed_items_injective(a@, b@);
    }
}

/// The encoding of a string: its UTF-8 bytes behind the compact encoding of their number.
pub open spec fn string_encoding(chars: Seq<char>) -> Seq<u8> {
    compact_encoding(encode_utf8(chars).len()) + encode_utf8(chars)
}

/// The length of an encoded string at the front of `bytes`, if `bytes` starts with one: a
/// length-prefixed byte sequence whose bytes are valid UTF-8.
pub open spec fn string_parse(bytes: Seq<u8>) -> Option<nat> {
    match compact_parse(bytes) {
        Some((n, k)) => if n <= u32::MAX && k + n <= bytes.len() && valid_utf8(
            bytes.subrange(k as int, (k + n) as int),
        ) {
            Some(k + n)
        } else {
            None
        },
        None => None,
    }
}

/// A string at the front of `s` is first a byte sequence there.
proof fn lemma_string_needs_bytes(s: Seq<u8>)
    ensures
        string_parse(s) is Some ==> prefixed_items_parse::<u8>(s) is Some,
{
    if let Some((n, k)) = compact_parse(s) {
        lemma_compact_parse_canonical(s);
        lemma_items_parse_bytes(s.skip(k as int), n);
    }
}

/// Where a byte sequence `b` was read from the front of `s`, `s` holds the count and then `b`.
proof fn lemma_string_bytes(s: Seq<u8>, b: Seq<u8>)
    requires
        b.len() <= u32::MAX,
        prefixed_items_encoding(b).len() <= s.len(),
        s.take(prefixed_items_encoding(b).len() as int) == prefixed_items_encoding(b),
    ensures
        compact_parse(s) == Some((b.len(), compact_encoding(b.len()).len())),
        compact_encoding(b.len()).len() + b.len() <= s.len(),
        s.subrange(
            compact_encoding(b.len()).len() as int,
            (compact_encoding(b.len()).len() + b.len()) as int,
        ) == b,
        prefixed_items_encoding(b) == compact_encoding(b.len()) + b,
{
    lemma_items_encoding_bytes(b);
    let c = compact_encoding(b.len());
    let k = c.len();
    lemma_compact_u128(b.len());
    assert(s =~= c + s.skip(k as int)) by {
        assert(s.take(k as int) =~= c);
    }
    lemma_compact_parse_encoding(b.len(), s.skip(k as int));
    assert(s.subrange(k as int, (k + b.len()) as int) =~= s.take(
        prefixed_items_encoding(b).len() as int,
    ).skip(k as int));
}

impl Encode for str {
    open spec fn spec_encode(&self) -> Seq<u8> {
        string_encoding(self@)
    }

    open spec fn encodable(&self) -> bool {
        encode_utf8(self@).len() <= u32::MAX
    }

    fn size_hint(&self) -> (n: usize)
        ensures
            n == saturated(4 + encode_utf8(self@).len() as int),
    {
        4usize.saturating_add(self.as_bytes().len())
    }

    fn encode_to<W: Output>(&self, dest: &mut W) {
        let bytes = self.as_bytes();
        proof {
            lemma_compact_encoding_len(bytes@.len());
        }
        let _ = compact_encode_len_to(dest, bytes.len());
        dest.write(bytes);
        assert(dest.written() =~= old(dest).written() + self.spec_encode());
    }
}

impl Encode for String {
    open spec fn spec_encode(&self) -> Seq<u8> {
        string_encoding(self@)
    }

    open spec fn encodable(&self) -> bool {
        encode_utf8(self@).len() <= u32::MAX
    }

    fn size_hint(&self) -> (n: usize)
        ensures
            n == saturated(4 + encode_utf8(self@).len() as int),
    {
        self.as_str().size_hint()
    }

    fn encode_to<W: Output>(&self, dest: &mut W) {
        self.as_str().encode_to(dest);
    }
}

/// Calls std's `String::from_utf8`, documented to succeed exactly when the bytes are valid UTF-8
/// and then to give the string they spell. The contract claims that, with validity and spelling
/// taken as vstd's `valid_utf8` and `decode_utf8`.
#[verifier::external_body]
fn string_from_utf8(bytes: Vec<u8>) -> (s: Option<String>)
    ensures
        s is Some <==> valid_utf8(bytes@),
        s matches Some(s) ==> s@ == decode_utf8(bytes@),
{
    String::from_utf8(bytes).ok()
}

impl Decode for String {
    open spec fn spec_parse(bytes: Seq<u8>) -> Option<nat> {
        string_parse(bytes)
    }

    open spec fn spec_depth(bytes: Seq<u8>) -> nat {
        <Vec<u8>>::spec_depth(bytes)
    }

    open spec fn spec_mem(bytes: Seq<u8>, align: Option<MemAlignment>) -> nat {
        <Vec<u8>>::spec_mem(bytes, align)
    }

    /// A byte sequence that is not valid UTF-8 is refused as "Invalid utf8 sequence", where the
    /// input's hooks succeed.
    fn decode<I: Input>(input: &mut I) -> (r: Result<String, Error>)
        ensures
            old(input).hooks_succeed() && prefixed_items_parse::<u8>(old(input).unread()) is Some
                && string_parse(old(input).unread()) is None ==> (r matches Err(e)
                && e.description() == "Invalid utf8 sequence"@),
    {
        let ghost s = old(input).unread();
        let ghost s0 = *old(input);
        let ghost al = mem_alignment(s0);
        proof {
            lemma_string_needs_bytes(s);
            assert(Self::spec_depth(s) == <Vec<u8>>::spec_depth(s));
            assert(Self::spec_mem(s, al) == <Vec<u8>>::spec_mem(s, al));
        }
        let rv = <Vec<u8>>::decode(input);
        let ghost rv_g = rv;
        let bytes = match rv {
            Ok(b) => b,
            Err(e) => {
                proof {
                    if Self::spec_parse(s) is Some {
                        lemma_limits_same(
                            s0,
                            *input,
                            rv_g,
                            Err::<String, Error>(e),
                            <Vec<u8>>::spec_depth(s),
                            <Vec<u8>>::spec_mem(s, al),
                        );
                    }
                }
                return Err(e);
            },
        };
        proof {
            if <Vec<u8>>::spec_parse(s) is Some {
                lemma_string_bytes(s, bytes@);
            }
        }
        match string_from_utf8(bytes) {
            Some(st) => {
                proof {
                    decode_utf8_encode_utf8(bytes@);
                    assert(encode_utf8(st@) == bytes@);
                    if <Vec<u8>>::spec_parse(s) is Some {
                        assert(st.spec_encode() == prefixed_items_encoding(bytes@));
                    }
                    if Self::spec_parse(s) is Some {
                        lemma_limits_same(
                            s0,
                            *input,
                            rv_g,
                            Ok::<String, Error>(st),
                            <Vec<u8>>::spec_depth(s),
                            <Vec<u8>>::spec_mem(s, al),
                        );
                    }
                }
                Ok(st)
            },
            None => Err(Error::new("Invalid utf8 sequence")),
        }
    }
}

impl DecodeLaws for String {
    proof fn lemma_parse_bounded(bytes: Seq<u8>) {
        if compact_parse(bytes) is Some {
            lemma_compact_parse_canonical(bytes);
        }
    }

    proof fn lemma_parse_encoding(v: String, rest: Seq<u8>) {
        lemma_string_parse_encoding(v@, rest);
    }

    open spec fn same_value(a: String, b: String) -> bool {
        a@ == b@
    }

    proof fn lemma_encoding_injective(a: String, b: String) {
        lemma_string_encoding_injective(a@, b@);
    }
}

/// Reading the encoding of a string reads exactly that encoding, whatever follows it.
pub proof fn lemma_string_parse_encoding(chars: Seq<char>, rest: Seq<u8>)
    requires
        encode_utf8(chars).len() <= u32::MAX,
    ensures
        string_parse(string_encoding(chars) + rest) == Some(string_encoding(chars).len()),
{
    let b = encode_utf8(chars);
    let c = compact_encoding(b.len());
    lemma_compact_u128(b.len());
    lemma_compact_parse_encoding(b.len(), b + rest);
    assert(string_encoding(chars) + rest =~= c + (b + rest));
    assert((c + (b + rest)).subrange(c.len() as int, (c.len() + b.len()) as int) =~= b);
    encode_utf8_valid_utf8(chars);
}

/// `s` and `t` hold the same values, in the same order.
pub open spec fn same_items<T: DecodeLaws>(s: Seq<T>, t: Seq<T>) -> bool {
    &&& s.len() == t.len()
    &&& forall|i: int| 0 <= i < s.len() ==> #[trigger] T::same_value(s[i], t[i])
}

/// Sequences of items with the same encodings, as many of them, hold the same values.
pub proof fn lemma_items_injective<T: DecodeLaws>(s: Seq<T>, t: Seq<T>)
    requires
        s.len() == t.len(),
        all_encodable(s),
        all_encodable(t),
        items_encoding(s) == items_encoding(t),
    ensures
        same_items(s, t),
    decreases s.len(),
{
    if s.len() > 0 {
        let (s1, t1) = (s.drop_first(), t.drop_first());
        assert(s[0].encodable() && t[0].encodable());
        lemma_split_encodings(s[0], items_encoding(s1), t[0], items_encoding(t1));
        T::lemma_encoding_injective(s[0], t[0]);
        assert(all_encodable(s1)) by {
            assert forall|i: int| 0 <= i < s1.len() implies #[trigger] s1[i].encodable() by {
                assert(s1[i] == s[i + 1]);
            }
        }
        assert(all_encodable(t1)) by {
            assert forall|i: int| 0 <= i < t1.len() implies #[trigger] t1[i].encodable() by {
                assert(t1[i] == t[i + 1]);
            }
        }
        lemma_items_injective(s1, t1);
        assert forall|i: int| 0 <= i < s.len() implies #[trigger] T::same_value(s[i], t[i]) by {
            if i > 0 {
                assert(s1[i - 1] == s[i] && t1[i - 1] == t[i]);
                assert(T::same_value(s1[i - 1], t1[i - 1]));
            }
        }
    }
}

/// Length-prefixed sequences with the same encoding hold the same values.
pub proof fn lemma_prefixed_items_injective<T: DecodeLaws>(s: Seq<T>, t: Seq<T>)
    requires
        s.len() <= u32::MAX,
        t.len() <= u32::MAX,
        all_encodable(s),
        all_encodable(t),
        prefixed_items_encoding(s) == prefixed_items_encoding(t),
    ensures
        same_items(s, t),
{
    lemma_compact_u128(s.len());
    lemma_compact_u128(t.len());
    lemma_compact_parse_encoding(s.len(), items_encoding(s));
    lemma_compact_parse_encoding(t.len(), items_encoding(t));
    let k = compact_encoding(s.len()).len();
    assert(prefixed_items_encoding(s).skip(k as int) =~= items_encoding(s));
    assert(prefixed_items_encoding(t).skip(k as int) =~= items_encoding(t));
    lemma_items_injective(s, t);
}

/// Strings with the same encoding have the same characters.
pub proof fn lemma_string_encoding_injective(a: Seq<char>, b: Seq<char>)
    requires
        encode_utf8(a).len() <= u32::MAX,
        encode_utf8(b).len() <= u32::MAX,
        string_encoding(a) == string_encoding(b),
    ensures
        a == b,
{
    let (ua, ub) = (encode_utf8(a), encode_utf8(b));
    lemma_compact_u128(ua.len());
    lemma_compact_u128(ub.len());
    lemma_compact_parse_encoding(ua.len(), ua);
    lemma_compact_parse_encoding(ub.len(), ub);
    let k = compact_encoding(ua.len()).len();
    assert(string_encoding(a).skip(k as int) =~= ua);
    assert(string_encoding(b).skip(k as int) =~= ub);
    encode_utf8_decode_utf8(a);
    encode_utf8_decode_utf8(b);
}

/// Trait that allows the length of a collection to be read, without having
/// to read and decode the entire elements.
pub trait DecodeLength {
    /// The number of elements that `self_encoded` says it holds, if it starts with a length.
    spec fn spec_len(self_encoded: Seq<u8>) -> Option<nat>;

    /// Return the number of elements in `self_encoded`.
    fn len(self_encoded: &[u8]) -> (r: Result<usize, Error>)
        ensures
            r is Ok <==> Self::spec_len(self_encoded@) is Some,
            r matches Ok(n) ==> Self::spec_len(self_encoded@) == Some(n as nat),
    ;
}

/// The count in front of a length-prefixed sequence, if `bytes` starts with one up to `u32::MAX`.
pub open spec fn prefix_count(bytes: Seq<u8>) -> Option<nat> {
    match compact_parse(bytes) {
        Some((n, _)) => if n <= u32::MAX {
            Some(n)
        } else {
            None
        },
        None => None,
    }
}

/// The length read from the front of the encoding of a sequence of items is their number,
/// whatever follows the encoding.
pub proof fn lemma_len_of_encoding<T: Encode>(s: Seq<T>, rest: Seq<u8>)
    requires
        s.len() <= u32::MAX,
    ensures
        prefix_count(prefixed_items_encoding(s) + rest) == Some(s.len()),
{
    lemma_compact_u128(s.len());
    assert(prefixed_items_encoding(s) + rest =~= compact_encoding(s.len()) + (items_encoding(s)
        + rest));
    lemma_compact_parse_encoding(s.len(), items_encoding(s) + rest);
}

/// Reads the count in front of a length-prefixed sequence.
pub(crate) fn read_prefix_count(self_encoded: &[u8]) -> (r: Result<usize, Error>)
    ensures
        r is Ok <==> prefix_count(self_encoded@) is Some,
        r matches Ok(n) ==> prefix_count(self_encoded@) == Some(n as nat),
{
    let mut input: &[u8] = self_encoded;
    let n = decode_compact_max(&mut input, u32::MAX as u128)?;
    Ok(n as usize)
}

impl<T> DecodeLength for Vec<T> {
    open spec fn spec_len(self_encoded: Seq<u8>) -> Option<nat> {
        prefix_count(self_encoded)
    }

    fn len(self_encoded: &[u8]) -> (r: Result<usize, Error>) {
        read_prefix_count(self_encoded)
    }
}

impl<T> DecodeLength for VecDeque<T> {
    open spec fn spec_len(self_encoded: Seq<u8>) -> Option<nat> {
        prefix_count(self_encoded)
    }

    fn len(self_encoded: &[u8]) -> (r: Result<usize, Error>) {
        read_prefix_count(self_encoded)
    }
}

impl<A: DecodeLength> DecodeLength for (A,) {
    open spec fn spec_len(self_encoded: Seq<u8>) -> Option<nat> {
        A::spec_len(self_encoded)
    }

    fn len(self_encoded: &[u8]) -> (r: Result<usize, Error>) {
        A::len(self_encoded)
    }
}

impl<A: DecodeLength, B> DecodeLength for (A, B) {
    open spec fn spec_len(self_encoded: Seq<u8>) -> Option<nat> {
        A::spec_len(self_encoded)
    }

    fn len(self_encoded: &[u8]) -> (r: Result<usize, Error>) {
        A::len(self_encoded)
    }
}


/// A sequence opens one level of its own: with a count in front it nests at least one level
/// deep, and a sequence of one item nests one level deeper than that item.
pub proof fn lemma_sequence_depth<T: Decode>(bytes: Seq<u8>)
    ensures
        compact_parse(bytes) is Some ==> <Vec<T>>::spec_depth(bytes) >= 1,
        compact_parse(bytes) is Some ==> <VecDeque<T>>::spec_depth(bytes) >= 1,
        compact_parse(bytes) is Some ==> <String>::spec_depth(bytes) == 1,
        compact_parse(bytes) matches Some((n, k)) ==> (n == 1 ==> <Vec<T>>::spec_depth(bytes)
            == T::spec_depth(bytes.skip(k as int)) + 1),
        compact_parse(bytes) matches Some((n, k)) ==> (n == 1 ==> <VecDeque<T>>::spec_depth(bytes)
            == T::spec_depth(bytes.skip(k as int)) + 1),
        forall|al: Option<MemAlignment>|
            compact_parse(bytes) matches Some((n, k)) ==> #[trigger] <Vec<T>>::spec_mem(bytes, al)
                >= aligned_size(al, vec_alloc_size::<T>(n as usize)),
{
    match compact_parse(bytes) {
        Some((n, k)) => {
            lemma_items_depth_u8(bytes.skip(k as int), n);
            if n == 1 {
                let b = bytes.skip(k as int);
                match T::spec_parse(b) {
                    Some(a) => {
                        assert(items_depth::<T>(b.skip(a as int), 0) == 0);
                    },
                    None => {},
                }
                assert(items_depth::<T>(b, 1) == T::spec_depth(b));
            }
        },
        None => {},
    }
}

/// Bytes nest no deeper than a level.
proof fn lemma_items_depth_u8(bytes: Seq<u8>, n: nat)
    ensures
        items_depth::<u8>(bytes, n) == 0,
    decreases n,
{
    if n > 0 {
        match <u8>::spec_parse(bytes) {
            Some(a) => {
                lemma_items_depth_u8(bytes.skip(a as int), (n - 1) as nat);
            },
            None => {},
        }
    }
}

} // verus!
