//! The rules that derived implementations follow: which variants of an enum are encoded, the
//! index byte each one gets, which indices are refused, how the index byte read back selects a
//! variant, and how the `#[codec(..)]` attributes on fields and variants are read.
//!
//! A derive reads these facts from the source of a type; here they are plain values.
use crate::error::Error;
use vstd::prelude::*;

verus! {

/// What a derive reads of an enum variant: whether it carries `#[codec(skip)]`, the value of
/// its `#[codec(index = ..)]` attribute, and the value of its explicit discriminant.
#[derive(Clone, Copy, Debug)]
pub struct VariantAttrs {
    pub skip: bool,
    pub index_attr: Option<usize>,
    pub discriminant: Option<usize>,
}

/// The most variants that an encodable enum may keep.
pub const MAX_VARIANTS: usize = 256;

/// The positions of the variants that are not skipped, in order.
pub open spec fn kept_positions(vs: Seq<VariantAttrs>) -> Seq<int>
    decreases vs.len(),
{
    if vs.len() == 0 {
        Seq::empty()
    } else {
        let rest = kept_positions(vs.drop_last());
        if vs.last().skip {
            rest
        } else {
            rest.push(vs.len() - 1)
        }
    }
}

/// The index of a variant kept at `position`: its index attribute, else its discriminant, else
/// its position among the kept variants.
pub open spec fn spec_variant_index(v: VariantAttrs, position: int) -> int {
    match v.index_attr {
        Some(i) => i as int,
        None => match v.discriminant {
            Some(d) => d as int,
            None => position,
        },
    }
}

/// The index of each kept variant, in order.
pub open spec fn spec_variant_indices(vs: Seq<VariantAttrs>) -> Seq<int> {
    Seq::new(
        kept_positions(vs).len(),
        |k: int| spec_variant_index(vs[kept_positions(vs)[k]], k),
    )
}

/// The kept positions are increasing positions of variants that are not skipped, and every
/// such variant is among them.
pub proof fn lemma_kept_positions(vs: Seq<VariantAttrs>)
    ensures
        kept_positions(vs).len() <= vs.len(),
        forall|k: int|
            0 <= k < kept_positions(vs).len() ==> 0 <= #[trigger] kept_positions(vs)[k] < vs.len()
                && !vs[kept_positions(vs)[k]].skip,
        forall|k: int, l: int|
            0 <= k < l < kept_positions(vs).len() ==> kept_positions(vs)[k] < kept_positions(
                vs,
            )[l],
        forall|i: int|
            0 <= i < vs.len() && !(#[trigger] vs[i]).skip ==> kept_positions(vs).contains(i),
    decreases vs.len(),
{
    if vs.len() > 0 {
        let init = vs.drop_last();
        lemma_kept_positions(init);
        assert forall|i: int| 0 <= i < vs.len() && !(#[trigger] vs[i]).skip implies kept_positions(
            vs,
        ).contains(i) by {
            if i < vs.len() - 1 {
                assert(init[i] == vs[i]);
                let w = choose|w: int| 0 <= w < kept_positions(init).len() && kept_positions(init)[w] == i;
                if !vs.last().skip {
                    assert(kept_positions(vs)[w] == i);
                }
            } else {
                assert(kept_positions(vs).last() == i);
            }
        }
    }
}

/// The index of a variant at `i` among the kept ones: its `#[codec(index = ..)]` attribute if
/// it has one, else its discriminant, else `i`.
pub fn variant_index(v: &VariantAttrs, i: usize) -> (r: usize)
    ensures
        r == spec_variant_index(*v, i as int),
{
    match v.index_attr {
        Some(index) => index,
        None => match v.discriminant {
            Some(d) => d,
            None => i,
        },
    }
}

/// The positions of the variants that are encoded: those not skipped, in order.
///
/// An enum may keep at most 256 variants.
pub fn try_get_variants(vs: &[VariantAttrs]) -> (r: Result<Vec<usize>, Error>)
    ensures
        r is Ok <==> kept_positions(vs@).len() <= MAX_VARIANTS,
        r matches Ok(p) ==> p@.len() == kept_positions(vs@).len() && forall|k: int|
            0 <= k < p@.len() ==> #[trigger] p@[k] as int == kept_positions(vs@)[k],
        r matches Err(e) ==> e.description()
            == "Currently only enums with at most 256 variants are encodable/decodable."@,
{
    let mut kept: Vec<usize> = Vec::new();
    let mut i: usize = 0;
    while i < vs.len()
        invariant
            i <= vs@.len(),
            kept@.len() == kept_positions(vs@.take(i as int)).len(),
            forall|k: int|
                0 <= k < kept@.len() ==> #[trigger] kept@[k] as int == kept_positions(
                    vs@.take(i as int),
                )[k],
        decreases vs@.len() - i,
    {
        assert(vs@.take(i + 1).drop_last() =~= vs@.take(i as int));
        if !vs[i].skip {
            kept.push(i);
        }
        i = i + 1;
    }
    assert(vs@.take(vs@.len() as int) =~= vs@);
    if kept.len() > MAX_VARIANTS {
        return Err(Error::new("Currently only enums with at most 256 variants are encodable/decodable."));
    }
    Ok(kept)
}

/// The index of each encoded variant, in order: the variants that are not skipped, each with
/// its index attribute, else its discriminant, else its position among them.
pub fn variant_indices(vs: &[VariantAttrs]) -> (r: Result<Vec<usize>, Error>)
    ensures
        r is Ok <==> kept_positions(vs@).len() <= MAX_VARIANTS,
        r matches Ok(ix) ==> ix@.len() == spec_variant_indices(vs@).len() && forall|k: int|
            0 <= k < ix@.len() ==> #[trigger] ix@[k] as int == spec_variant_indices(vs@)[k],
        r matches Err(e) ==> e.description()
            == "Currently only enums with at most 256 variants are encodable/decodable."@,
{
    let kept = try_get_variants(vs)?;
    proof {
        lemma_kept_positions(vs@);
    }
    let mut ix: Vec<usize> = Vec::new();
    let mut k: usize = 0;
    while k < kept.len()
        invariant
            k <= kept@.len(),
            kept@.len() == kept_positions(vs@).len(),
            forall|j: int| 0 <= j < kept@.len() ==> #[trigger] kept@[j] as int == kept_positions(vs@)[j],
            forall|j: int| 0 <= j < kept_positions(vs@).len() ==> 0 <= #[trigger] kept_positions(vs@)[j] < vs@.len(),
            ix@.len() == k,
            forall|j: int| 0 <= j < k ==> #[trigger] ix@[j] as int == spec_variant_indices(vs@)[j],
        decreases kept@.len() - k,
    {
        assert(kept@[k as int] as int == kept_positions(vs@)[k as int]);
        let index = variant_index(&vs[kept[k]], k);
        ix.push(index);
        k = k + 1;
    }
    Ok(ix)
}

/// Why the indices of an enum's variants are refused.
#[derive(Clone, Copy, Debug, PartialEq, Eq, Structural)]
pub enum VariantIndexError {
    /// The variant at `position` has an index above 255.
    InvalidIndex { position: usize, index: usize },
    /// The variants at `first` and `second` share `index`.
    Duplicate { first: usize, second: usize, index: usize },
}

/// No index is above 255.
pub open spec fn indices_in_range(ix: Seq<usize>) -> bool {
    forall|i: int| 0 <= i < ix.len() ==> #[trigger] ix[i] <= 255
}

/// No two indices are equal.
pub open spec fn indices_distinct(ix: Seq<usize>) -> bool {
    forall|a: int, b: int| 0 <= a < b < ix.len() ==> ix[a] != ix[b]
}

/// `i` is the first position whose index is above 255.
pub open spec fn first_out_of_range(ix: Seq<usize>, i: int) -> bool {
    &&& 0 <= i < ix.len()
    &&& ix[i] > 255
    &&& forall|j: int| 0 <= j < i ==> #[trigger] ix[j] <= 255
}

/// `(i, j)` is the first pair of positions that share an index: `i` is the first position
/// with a later equal index, and `j` the first such later position.
pub open spec fn first_duplicate(ix: Seq<usize>, i: int, j: int) -> bool {
    &&& 0 <= i < j < ix.len()
    &&& ix[i] == ix[j]
    &&& forall|a: int, b: int| 0 <= a < i && a < b < ix.len() ==> ix[a] != ix[b]
    &&& forall|b: int| i < b < j ==> ix[i] != #[trigger] ix[b]
}

/// Checks the indices of an enum's encoded variants: each must fit in a byte, and no two may
/// be equal. The first index above 255 is reported; failing that, the first pair that share
/// an index.
pub fn check_variant_indexes(ix: &[usize]) -> (r: Result<(), VariantIndexError>)
    ensures
        r is Ok <==> indices_in_range(ix@) && indices_distinct(ix@),
        r matches Err(VariantIndexError::InvalidIndex { position, index }) ==> first_out_of_range(
            ix@,
            position as int,
        ) && index == ix@[position as int],
        r matches Err(VariantIndexError::Duplicate { first, second, index }) ==> indices_in_range(
            ix@,
        ) && first_duplicate(ix@, first as int, second as int) && index == ix@[first as int],
{
    let mut i: usize = 0;
    while i < ix.len()
        invariant
            i <= ix@.len(),
            forall|j: int| 0 <= j < i ==> #[trigger] ix@[j] <= 255,
        decreases ix@.len() - i,
    {
        if ix[i] > 255 {
            return Err(VariantIndexError::InvalidIndex { position: i, index: ix[i] });
        }
        i = i + 1;
    }
    let mut i: usize = 0;
    while i < ix.len()
        invariant
            i <= ix@.len(),
            indices_in_range(ix@),
            forall|a: int, b: int| 0 <= a < i && a < b < ix@.len() ==> ix@[a] != ix@[b],
        decreases ix@.len() - i,
    {
        let mut j: usize = i + 1;
        while j < ix.len()
            invariant
                i < ix@.len(),
                i + 1 <= j <= ix@.len(),
                indices_in_range(ix@),
                forall|a: int, b: int| 0 <= a < i && a < b < ix@.len() ==> ix@[a] != ix@[b],
                forall|b: int| i < b < j ==> ix@[i as int] != #[trigger] ix@[b],
            decreases ix@.len() - j,
        {
            if ix[i] == ix[j] {
                return Err(VariantIndexError::Duplicate { first: i, second: j, index: ix[i] });
            }
            j = j + 1;
        }
        i = i + 1;
    }
    Ok(())
}

/// The position, among the encoded variants, of the one whose index is `byte`: the first such,
/// as the arms of a derived decoder are tried in order. Indices above 255 never match.
pub fn variant_position(ix: &[usize], byte: u8) -> (r: Option<usize>)
    ensures
        r matches Some(k) ==> k < ix@.len() && ix@[k as int] == byte as usize && forall|j: int|
            0 <= j < k ==> #[trigger] ix@[j] != byte as usize,
        r is None ==> forall|j: int| 0 <= j < ix@.len() ==> #[trigger] ix@[j] != byte as usize,
{
    let mut k: usize = 0;
    while k < ix.len()
        invariant
            k <= ix@.len(),
            forall|j: int| 0 <= j < k ==> #[trigger] ix@[j] != byte as usize,
        decreases ix@.len() - k,
    {
        if ix[k] == byte as usize {
            return Some(k);
        }
        k = k + 1;
    }
    None
}

/// Where the indices pass the check, each byte selects at most one variant, and the variant
/// at `k` is selected by its own index.
pub proof fn lemma_variant_position_unique(ix: Seq<usize>, k: int)
    requires
        indices_in_range(ix),
        indices_distinct(ix),
        0 <= k < ix.len(),
    ensures
        forall|j: int| 0 <= j < ix.len() && j != k ==> #[trigger] ix[j] != ix[k],
        ix[k] < 256,
{
    assert forall|j: int| 0 <= j < ix.len() && j != k implies #[trigger] ix[j] != ix[k] by {
        if j < k {
            assert(ix[j] != ix[k]);
        } else {
            assert(ix[k] != ix[j]);
        }
    }
}

/// What a derive reads of a field: whether it carries `#[codec(skip)]`, `#[codec(compact)]`
/// or `#[codec(encoded_as = ..)]`.
#[derive(Clone, Copy, Debug)]
pub struct FieldAttrs {
    pub skip: bool,
    pub compact: bool,
    pub encoded_as: bool,
}

/// How a derived implementation handles a field.
#[derive(Clone, Copy, Debug, PartialEq, Eq, Structural)]
pub enum FieldKind {
    /// Encoded and decoded as its own type.
    Plain,
    /// Encoded and decoded as the compact form of its type.
    Compact,
    /// Encoded and decoded as the type named by its attribute.
    EncodedAs,
    /// Not encoded; decoded as its default value.
    Skip,
}

/// The number of the attributes `skip`, `compact` and `encoded_as` that a field carries.
pub open spec fn field_attr_count(f: FieldAttrs) -> int {
    (if f.skip { 1int } else { 0int }) + (if f.compact { 1int } else { 0int }) + (if f.encoded_as {
        1int
    } else {
        0int
    })
}

/// How a field is handled: at most one of `skip`, `compact` and `encoded_as` may be given.
pub fn field_kind(f: &FieldAttrs) -> (r: Result<FieldKind, Error>)
    ensures
        r is Err <==> field_attr_count(*f) > 1,
        r matches Err(e) ==> e.description()
            == "`encoded_as`, `compact` and `skip` can only be used one at a time!"@,
        r matches Ok(k) ==> k == (if f.compact {
            FieldKind::Compact
        } else if f.encoded_as {
            FieldKind::EncodedAs
        } else if f.skip {
            FieldKind::Skip
        } else {
            FieldKind::Plain
        }),
{
    let count: u8 = (if f.skip { 1u8 } else { 0u8 }) + (if f.compact { 1u8 } else { 0u8 }) + (
    if f.encoded_as {
        1u8
    } else {
        0u8
    });
    if count > 1 {
        return Err(Error::new("`encoded_as`, `compact` and `skip` can only be used one at a time!"));
    }
    if f.compact {
        Ok(FieldKind::Compact)
    } else if f.encoded_as {
        Ok(FieldKind::EncodedAs)
    } else if f.skip {
        Ok(FieldKind::Skip)
    } else {
        Ok(FieldKind::Plain)
    }
}

/// The number of fields in `fs` that are not skipped.
pub open spec fn kept_field_count(fs: Seq<FieldAttrs>) -> nat
    decreases fs.len(),
{
    if fs.len() == 0 {
        0
    } else {
        kept_field_count(fs.drop_last()) + if fs.last().skip {
            0nat
        } else {
            1nat
        }
    }
}

/// The position of the only field that is not skipped, where exactly one is not.
///
/// A struct with such a field encodes as that field alone; only such a struct can stand for a
/// compact value.
pub fn single_kept_field(fs: &[FieldAttrs]) -> (r: Option<usize>)
    ensures
        r is Some <==> kept_field_count(fs@) == 1,
        r matches Some(i) ==> i < fs@.len() && !fs@[i as int].skip && forall|j: int|
            0 <= j < fs@.len() && j != i ==> (#[trigger] fs@[j]).skip,
{
    let mut found: Option<usize> = None;
    let mut count: usize = 0;
    let mut i: usize = 0;
    while i < fs.len()
        invariant
            i <= fs@.len(),
            count == kept_field_count(fs@.take(i as int)),
            count <= i,
            count == 0 ==> found is None && forall|j: int| 0 <= j < i ==> (#[trigger] fs@[j]).skip,
            count >= 1 ==> (found matches Some(f) && f < i && !fs@[f as int].skip),
            count == 1 ==> (found matches Some(f) && forall|j: int|
                0 <= j < i && j != f ==> (#[trigger] fs@[j]).skip),
        decreases fs@.len() - i,
    {
        assert(fs@.take(i + 1).drop_last() =~= fs@.take(i as int));
        if !fs[i].skip {
            if count == 0 {
                found = Some(i);
            }
            count = count + 1;
        }
        i = i + 1;
    }
    assert(fs@.take(fs@.len() as int) =~= fs@);
    if count == 1 {
        found
    } else {
        None
    }
}

/// One item inside a `#[codec(..)]` attribute, as a derive reads it.
#[derive(Clone, Copy, Debug)]
pub enum CodecMeta {
    /// `skip`
    Skip,
    /// `compact`
    Compact,
    /// `encoded_as = ".."`, and whether the string is valid Rust tokens.
    EncodedAs { valid_tokens: bool },
    /// `index = ..`, and whether the value is an integer literal.
    Index { int_literal: bool },
    /// `dumb_trait_bound`
    DumbTraitBound,
    /// Anything else.
    Other,
}

/// Checks the items of a `#[codec(..)]` attribute on a field: there must be exactly one, and it
/// must be `skip`, `compact`, or `encoded_as` with a string of valid tokens.
pub fn check_field_attribute(nested: &[CodecMeta]) -> (r: Result<(), Error>)
    ensures
        r is Ok <==> nested@.len() == 1 && (nested@[0] is Skip || nested@[0] is Compact
            || nested@[0] matches CodecMeta::EncodedAs { valid_tokens: true }),
        r matches Err(e) ==> e.description() == (if nested@.len() == 1 && nested@[0] matches CodecMeta::EncodedAs { valid_tokens: false } {
            "Invalid token stream"@
        } else {
            "Invalid attribute on field, only `#[codec(skip)]`, `#[codec(compact)]` and `#[codec(encoded_as = \"$EncodeAs\")]` are accepted."@
        }),
{
    let field_error =
        "Invalid attribute on field, only `#[codec(skip)]`, `#[codec(compact)]` and `#[codec(encoded_as = \"$EncodeAs\")]` are accepted.";
    if nested.len() != 1 {
        return Err(Error::new(field_error));
    }
    match nested[0] {
        CodecMeta::Skip => Ok(()),
        CodecMeta::Compact => Ok(()),
        CodecMeta::EncodedAs { valid_tokens } => if valid_tokens {
            Ok(())
        } else {
            Err(Error::new("Invalid token stream"))
        },
        _ => Err(Error::new(field_error)),
    }
}

/// Checks the items of a `#[codec(..)]` attribute on a variant: there must be exactly one, and
/// it must be `skip`, or `index` with an integer literal.
pub fn check_variant_attribute(nested: &[CodecMeta]) -> (r: Result<(), Error>)
    ensures
        r is Ok <==> nested@.len() == 1 && (nested@[0] is Skip || nested@[0] matches CodecMeta::Index {
            int_literal: true,
        }),
        r matches Err(e) ==> e.description()
            == "Invalid attribute on variant, only `#[codec(skip)]` and `#[codec(index = $u8)]` are accepted."@,
{
    let variant_error =
        "Invalid attribute on variant, only `#[codec(skip)]` and `#[codec(index = $u8)]` are accepted.";
    if nested.len() != 1 {
        return Err(Error::new(variant_error));
    }
    match nested[0] {
        CodecMeta::Skip => Ok(()),
        CodecMeta::Index { int_literal } => if int_literal {
            Ok(())
        } else {
            Err(Error::new(variant_error))
        },
        _ => Err(Error::new(variant_error)),
    }
}

/// Checks a `#[codec(..)]` attribute on a type: it is accepted when it reads as a trait bound
/// (`encode_bound(..)`, `decode_bound(..)`, `decode_with_mem_tracking_bound(..)`,
/// `mel_bound(..)`) or as `crate = ..`; otherwise its items must be exactly `dumb_trait_bound`.
pub fn check_top_attribute(bound_or_crate: bool, nested: &[CodecMeta]) -> (r: Result<(), Error>)
    ensures
        r is Ok <==> bound_or_crate || (nested@.len() == 1 && nested@[0] is DumbTraitBound),
        r matches Err(e) ==> e.description()
            == "Invalid attribute: only `#[codec(dumb_trait_bound)]`, `#[codec(crate = path::to::crate)]`, `#[codec(encode_bound(T: Encode))]`, `#[codec(decode_bound(T: Decode))]`, `#[codec(decode_with_mem_tracking_bound(T: DecodeWithMemTracking))]` or `#[codec(mel_bound(T: MaxEncodedLen))]` are accepted as top attribute"@,
{
    let top_error =
        "Invalid attribute: only `#[codec(dumb_trait_bound)]`, `#[codec(crate = path::to::crate)]`, `#[codec(encode_bound(T: Encode))]`, `#[codec(decode_bound(T: Decode))]`, `#[codec(decode_with_mem_tracking_bound(T: DecodeWithMemTracking))]` or `#[codec(mel_bound(T: MaxEncodedLen))]` are accepted as top attribute";
    if bound_or_crate {
        return Ok(());
    }
    if nested.len() == 1 {
        if let CodecMeta::DumbTraitBound = nested[0] {
            return Ok(());
        }
    }
    Err(Error::new(top_error))
}

/// Whether a derived `Decode` decodes the value in place through its one field that is not
/// zero-sized: the type is `#[repr(transparent)]`, it is a struct with at least one field, and
/// no field is skipped, compact or encoded as another type.
pub fn decodes_in_place(is_transparent: bool, is_struct: bool, fields: &[FieldAttrs]) -> (r: bool)
    ensures
        r <==> is_transparent && is_struct && fields@.len() > 0 && forall|i: int|
            0 <= i < fields@.len() ==> !fields@[i].skip && !fields@[i].compact
                && !fields@[i].encoded_as,
{
    if !is_transparent || !is_struct || fields.len() == 0 {
        return false;
    }
    let mut i: usize = 0;
    while i < fields.len()
        invariant
            i <= fields@.len(),
            forall|j: int|
                0 <= j < i ==> !fields@[j].skip && !fields@[j].compact && !fields@[j].encoded_as,
        decreases fields@.len() - i,
    {
        if fields[i].skip || fields[i].compact || fields[i].encoded_as {
            return false;
        }
        i = i + 1;
    }
    true
}

/// The decimal digits of `n`, most significant first.
pub open spec fn decimal(n: nat) -> Seq<char>
    decreases n,
{
    if n < 10 {
        seq![digit_char(n)]
    } else {
        decimal(n / 10).push(digit_char(n % 10))
    }
}

/// The character of the decimal digit `d`.
pub open spec fn digit_char(d: nat) -> char {
    seq!['0', '1', '2', '3', '4', '5', '6', '7', '8', '9'][d as int]
}

/// The string of the decimal digit `d`.
fn digit_str(d: usize) -> (s: &'static str)
    requires
        d < 10,
    ensures
        s@ == seq![digit_char(d as nat)],
{
    proof {
        reveal_strlit("0");
        reveal_strlit("1");
        reveal_strlit("2");
        reveal_strlit("3");
        reveal_strlit("4");
        reveal_strlit("5");
        reveal_strlit("6");
        reveal_strlit("7");
        reveal_strlit("8");
        reveal_strlit("9");
    }
    match d {
        0 => "0",
        1 => "1",
        2 => "2",
        3 => "3",
        4 => "4",
        5 => "5",
        6 => "6",
        7 => "7",
        8 => "8",
        _ => "9",
    }
}

/// Appends the decimal digits of `n` to `s`.
fn append_decimal(s: &mut String, n: usize)
    ensures
        final(s)@ == old(s)@ + decimal(n as nat),
    decreases n,
{
    if n >= 10 {
        append_decimal(s, n / 10);
    }
    let d = digit_str(n % 10);
    s.append(d);
    proof {
        if n >= 10 {
            assert(decimal(n as nat) == decimal((n / 10) as nat).push(digit_char((n % 10) as nat)));
        }
    }
}

/// The name by which a derived decoder refers to the named field `field` of `owner` (a type, or
/// a variant written `Type::Variant`): `owner::field`.
pub fn named_field_path(owner: &str, field: &str) -> (s: String)
    ensures
        s@ == owner@ + "::"@ + field@,
{
    let mut s = String::new();
    s.append(owner);
    s.append("::");
    s.append(field);
    s
}

/// The name by which a derived decoder refers to the unnamed field at `index` of `owner`:
/// `owner.index`, the index written in decimal.
pub fn unnamed_field_path(owner: &str, index: usize) -> (s: String)
    ensures
        s@ == owner@ + "."@ + decimal(index as nat),
{
    let mut s = String::new();
    s.append(owner);
    s.append(".");
    append_decimal(&mut s, index);
    s
}

/// The description that a derived decoder chains to the error of a field it could not decode:
/// "Could not decode `path`".
pub fn field_error_text(path: &str) -> (s: String)
    ensures
        s@ == "Could not decode `"@ + path@ + "`"@,
{
    let mut s = String::new();
    s.append("Could not decode `");
    s.append(path);
    s.append("`");
    s
}

/// The description that a derived decoder of the enum `enum_name` chains to the error of
/// reading its variant byte.
pub fn variant_byte_error_text(enum_name: &str) -> (s: String)
    ensures
        s@ == "Could not decode `"@ + enum_name@ + "`, failed to read variant byte"@,
{
    let mut s = String::new();
    s.append("Could not decode `");
    s.append(enum_name);
    s.append("`, failed to read variant byte");
    s
}

/// The description of the error with which a derived decoder of the enum `enum_name` refuses a
/// variant byte that selects no variant.
pub fn missing_variant_error_text(enum_name: &str) -> (s: String)
    ensures
        s@ == "Could not decode `"@ + enum_name@ + "`, variant doesn't exist"@,
{
    let mut s = String::new();
    s.append("Could not decode `");
    s.append(enum_name);
    s.append("`, variant doesn't exist");
    s
}

} // verus!
