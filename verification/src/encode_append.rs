//! Appending items to an encoded sequence without decoding the items already there.
use crate::codec::Encode;
use crate::compact::{decode_compact_max, CompactLen, Compact};
use crate::compact_spec::{
    compact_encoding, compact_parse, lemma_compact_encoding_len, lemma_compact_parse_canonical,
    lemma_compact_parse_encoding, lemma_compact_u128, lemma_compact_u32, write_compact,
};
use crate::encode_like::EncodeLike;
use crate::error::Error;
use crate::io::Output;
use crate::sequence::{
    all_encodable, compact_encode_len_to, encode_slice_no_len, items_encoding,
    lemma_items_encoding_concat, prefixed_items_encoding,
};
use std::collections::VecDeque;
use vstd::prelude::*;
use vstd::slice::slice_subrange;

verus! {

/// What appending `items` to the encoded sequence `encoded` gives, if it can be done.
///
/// Empty bytes stand for no sequence yet: the items are then encoded as a new one. Otherwise
/// `encoded` must start with the compact encoding of a count, which is replaced by that count
/// plus the number of new items (at most `u32::MAX`); the new items' encodings follow the bytes
/// already there.
pub open spec fn append_result<E: Encode>(encoded: Seq<u8>, items: Seq<E>) -> Option<Seq<u8>> {
    if encoded.len() == 0 {
        if items.len() <= u32::MAX {
            Some(compact_encoding(items.len()) + items_encoding(items))
        } else {
            None
        }
    } else {
        match compact_parse(encoded) {
            Some((len, k)) => if len + items.len() <= u32::MAX {
                Some(
                    compact_encoding(len + items.len()) + encoded.skip(k as int) + items_encoding(
                        items,
                    ),
                )
            } else {
                None
            },
            None => None,
        }
    }
}

/// Trait that allows to append items to an encoded representation without
/// decoding all previous added items.
pub trait EncodeAppend {
    /// The item that will be appended.
    type Item: Encode;

    /// Append all `items` to the given `self_encoded` representation
    /// or if `self_encoded` value is empty, `items` are encoded to the `Self` representation.
    fn append_or_new<EncodeLikeItem: EncodeLike<Self::Item>>(
        self_encoded: Vec<u8>,
        items: &[EncodeLikeItem],
    ) -> (r: Result<Vec<u8>, Error>)
        requires
            all_encodable(items@),
            self_encoded@.len() + 5 + items_encoding(items@).len() <= usize::MAX,
        ensures
            r is Ok <==> append_result(self_encoded@, items@) is Some,
            r matches Ok(v) ==> Some(v@) == append_result(self_encoded@, items@),
    ;
}

impl<T: Encode> EncodeAppend for Vec<T> {
    type Item = T;

    fn append_or_new<EncodeLikeItem: EncodeLike<T>>(
        self_encoded: Vec<u8>,
        items: &[EncodeLikeItem],
    ) -> (r: Result<Vec<u8>, Error>) {
        append_or_new_vec_with_any_item(self_encoded, items)
    }
}

impl<T: Encode> EncodeAppend for VecDeque<T> {
    type Item = T;

    fn append_or_new<EncodeLikeItem: EncodeLike<T>>(
        self_encoded: Vec<u8>,
        items: &[EncodeLikeItem],
    ) -> (r: Result<Vec<u8>, Error>) {
        append_or_new_vec_with_any_item(self_encoded, items)
    }
}

/// Reads the count at the front of `data`, and returns the count plus `input_len` with the
/// lengths of the compact encodings of both counts.
fn extract_length_data(data: &[u8], input_len: usize) -> (r: Result<(u32, usize, usize), Error>)
    ensures
        r is Ok <==> (compact_parse(data@) matches Some((len, _)) && len + input_len <= u32::MAX),
        r matches Ok((new_len, encoded_len, encoded_new_len)) ==> ({
            let (len, k) = compact_parse(data@).unwrap();
            &&& new_len == len + input_len
            &&& encoded_len == k
            &&& k == compact_encoding(len).len()
            &&& k <= data@.len()
            &&& encoded_new_len == compact_encoding(new_len as nat).len()
        }),
        compact_parse(data@) is Some && compact_parse(data@).unwrap().0 <= u32::MAX && compact_parse(
            data@,
        ).unwrap().0 + input_len > u32::MAX ==> (r matches Err(e) && e.description()
            == "New vec length greater than `u32::TEST_VALUE()`."@),
{
    let mut input: &[u8] = data;
    proof {
        if compact_parse(data@) is Some {
            lemma_compact_parse_canonical(data@);
        }
    }
    let len = match decode_compact_max(&mut input, u32::MAX as u128) {
        Ok(l) => l as u32,
        Err(e) => {
            return Err(e);
        },
    };
    if input_len > u32::MAX as usize {
        return Err(Error::new("New vec length greater than `u32::TEST_VALUE()`."));
    }
    let new_len = match len.checked_add(input_len as u32) {
        Some(n) => n,
        None => {
            return Err(Error::new("New vec length greater than `u32::TEST_VALUE()`."));
        },
    };
    let encoded_len = <Compact<u32> as CompactLen<u32>>::compact_len(&len);
    let encoded_new_len = <Compact<u32> as CompactLen<u32>>::compact_len(&new_len);
    Ok((new_len, encoded_len, encoded_new_len))
}

/// Overwrites the front of `dest` with the compact encoding of `new_len`, which must be as long
/// as what it replaces.
fn replace_len(dest: &mut Vec<u8>, new_len: u32)
    requires
        compact_encoding(new_len as nat).len() <= old(dest)@.len(),
    ensures
        final(dest)@ == compact_encoding(new_len as nat) + old(dest)@.skip(
            compact_encoding(new_len as nat).len() as int,
        ),
{
    let mut e: Vec<u8> = Vec::new();
    proof {
        lemma_compact_encoding_len(new_len as nat);
        lemma_compact_u128(new_len as nat);
    }
    write_compact(&mut e, new_len as u128);
    assert(e@ =~= compact_encoding(new_len as nat));
    let mut i: usize = 0;
    while i < e.len()
        invariant
            i <= e@.len(),
            e@ == compact_encoding(new_len as nat),
            e@.len() <= old(dest)@.len(),
            dest@.len() == old(dest)@.len(),
            forall|j: int| 0 <= j < i ==> dest@[j] == e@[j],
            forall|j: int| i <= j < dest@.len() ==> dest@[j] == old(dest)@[j],
        decreases e@.len() - i,
    {
        dest.set(i, e[i]);
        i = i + 1;
    }
    assert(dest@ =~= e@ + old(dest)@.skip(e@.len() as int));
}

// Item must have same encoding as encoded value in the encoded vec.
fn append_or_new_vec_with_any_item<Item: Encode>(self_encoded: Vec<u8>, items: &[Item]) -> (r: Result<
    Vec<u8>,
    Error,
>)
    requires
        all_encodable(items@),
        self_encoded@.len() + 5 + items_encoding(items@).len() <= usize::MAX,
    ensures
        r is Ok <==> append_result(self_encoded@, items@) is Some,
        r matches Ok(v) ==> Some(v@) == append_result(self_encoded@, items@),
{
    let mut self_encoded = self_encoded;
    let input_len = items.len();
    proof {
        lemma_compact_encoding_len(input_len as nat);
    }
    // No data present, just encode the given input data.
    if self_encoded.len() == 0 {
        if input_len > u32::MAX as usize {
            return Err(Error::new("Attempted to serialize a collection with too many elements."));
        }
        proof {
            lemma_compact_u128(input_len as nat);
            lemma_compact_u32(input_len as nat);
        }
        let _ = compact_encode_len_to(&mut self_encoded, input_len);
        encode_slice_no_len(items, &mut self_encoded);
        assert(self_encoded@ =~= compact_encoding(items@.len()) + items_encoding(items@));
        return Ok(self_encoded);
    }
    let ghost old_len = self_encoded@.len();
    let (new_len, encoded_len, encoded_new_len) = extract_length_data(
        self_encoded.as_slice(),
        input_len,
    )?;
    proof {
        lemma_compact_u128(new_len as nat);
        lemma_compact_u32(new_len as nat);
        lemma_compact_encoding_len(new_len as nat);
    }
    // If old and new encoded len is equal, we don't need to copy the
    // already encoded data.
    if encoded_len == encoded_new_len {
        replace_len(&mut self_encoded, new_len);
        assert(self_encoded@.len() == old_len);
        encode_slice_no_len(items, &mut self_encoded);
        Ok(self_encoded)
    } else {
        let mut res: Vec<u8> = Vec::new();
        write_compact(&mut res, new_len as u128);
        let rest = slice_subrange(self_encoded.as_slice(), encoded_len, self_encoded.len());
        res.write(rest);
        encode_slice_no_len(items, &mut res);
        assert(res@ =~= compact_encoding(new_len as nat) + self_encoded@.skip(encoded_len as int)
            + items_encoding(items@));
        Ok(res)
    }
}

/// Appending to the encoding of a sequence gives the encoding of the longer sequence.
pub proof fn lemma_append_to_encoding<T: Encode>(xs: Seq<T>, ys: Seq<T>)
    requires
        xs.len() + ys.len() <= u32::MAX,
    ensures
        append_result(prefixed_items_encoding(xs), ys) == Some(prefixed_items_encoding(xs + ys)),
{
    let c = compact_encoding(xs.len());
    let body = items_encoding(xs);
    lemma_compact_u128(xs.len());
    lemma_compact_encoding_len(xs.len());
    lemma_compact_parse_encoding(xs.len(), body);
    assert((c + body).skip(c.len() as int) =~= body);
    lemma_items_encoding_concat(xs, ys);
    assert(c + body + items_encoding(ys) =~= c + (body + items_encoding(ys)));
    assert(compact_encoding(xs.len() + ys.len()) + body + items_encoding(ys) =~= prefixed_items_encoding(
        xs + ys,
    ));
}

/// Items that encode, one by one, as `zs` do, encode together as `zs` do.
proof fn lemma_items_encoding_alike<U: Encode, T: Encode>(ys: Seq<U>, zs: Seq<T>)
    requires
        ys.len() == zs.len(),
        forall|i: int| 0 <= i < ys.len() ==> #[trigger] ys[i].spec_encode() == zs[i].spec_encode(),
    ensures
        items_encoding(ys) == items_encoding(zs),
    decreases ys.len(),
{
    if ys.len() > 0 {
        assert forall|i: int| 0 <= i < ys.drop_first().len() implies #[trigger] ys.drop_first()[i].spec_encode()
            == zs.drop_first()[i].spec_encode() by {
            assert(ys.drop_first()[i] == ys[i + 1]);
            assert(zs.drop_first()[i] == zs[i + 1]);
        }
        lemma_items_encoding_alike(ys.drop_first(), zs.drop_first());
        assert(ys[0].spec_encode() == zs[0].spec_encode());
    }
}

/// Appending items of another type that encode, one by one, as the items `zs` do, to the
/// encoding of a sequence `xs`, gives the encoding of `xs` followed by `zs`.
pub proof fn lemma_append_like_items<T: Encode, U: Encode>(xs: Seq<T>, ys: Seq<U>, zs: Seq<T>)
    requires
        ys.len() == zs.len(),
        forall|i: int| 0 <= i < ys.len() ==> #[trigger] ys[i].spec_encode() == zs[i].spec_encode(),
        xs.len() + ys.len() <= u32::MAX,
    ensures
        append_result(prefixed_items_encoding(xs), ys) == Some(prefixed_items_encoding(xs + zs)),
{
    lemma_items_encoding_alike(ys, zs);
    lemma_append_to_encoding(xs, zs);
}

/// Appending to nothing gives the encoding of the new items.
pub proof fn lemma_append_to_nothing<T: Encode>(ys: Seq<T>)
    requires
        ys.len() <= u32::MAX,
    ensures
        append_result(Seq::<u8>::empty(), ys) == Some(prefixed_items_encoding(ys)),
{
}

} // verus!
