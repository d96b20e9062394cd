//! Serialization: the `Encode` and `Decode` traits and their implementations for the primitive
//! types.
use crate::compact_spec::{read_le, write_le};
use crate::endian::{le_bytes, le_value, lemma_le_bytes_len, lemma_le_value_bound, lemma_le_value_of_bytes, lemma_pow256_small, pow256};
use crate::depth_limit::DEPTH_LIMIT_ERR_MSG;
use crate::error::Error;
use crate::memory_limit::{MemAlignment, MEM_LIMIT_ERR_MSG};
use crate::io::{reads_fully, Input, Output, SizeTracker};
use vstd::prelude::*;

verus! {

/// Trait that allows zero-copy write of value-references to slices in LE format.
///
/// A value is modelled by the bytes it encodes to (`spec_encode`) and by whether it can be
/// encoded at all (`encodable`: a collection with more than `u32::MAX` elements cannot).
pub trait Encode {
    /// The bytes this value encodes to.
    ///
    /// A type implemented outside verified code keeps this default, of which other modules
    /// know nothing.
    closed spec fn spec_encode(&self) -> Seq<u8> {
        Seq::empty()
    }

    /// Whether this value can be encoded.
    ///
    /// The default promises nothing: a type implemented outside verified code is not assumed
    /// to be encodable.
    open spec fn encodable(&self) -> bool {
        false
    }

    /// If possible give a hint of expected size of the encoding.
    ///
    /// This method is used inside default implementation of `encode`
    /// to avoid re-allocations. A type that gives no hint of its own hints 0.
    fn size_hint(&self) -> (n: usize)
        default_ensures
            n == 0,
    {
        0
    }

    /// Convert self to a slice and append it to the destination.
    fn encode_to<W: Output>(&self, dest: &mut W)
        requires
            self.encodable(),
            old(dest).written().len() + self.spec_encode().len() <= usize::MAX,
        ensures
            final(dest).written() == old(dest).written() + self.spec_encode(),
    ;

    /// Convert self to an owned vector.
    fn encode(&self) -> (r: Vec<u8>)
        requires
            self.encodable(),
            self.spec_encode().len() <= usize::MAX,
        ensures
            r@ == self.spec_encode(),
    {
        let mut r: Vec<u8> = Vec::with_capacity(self.size_hint());
        self.encode_to(&mut r);
        assert(r@ =~= self.spec_encode());
        r
    }

    /// Convert self to a slice and then invoke the given closure with it.
    fn using_encoded<R, F: FnOnce(&[u8]) -> R>(&self, f: F) -> (r: R)
        requires
            self.encodable(),
            self.spec_encode().len() <= usize::MAX,
            forall|s: &[u8]| s@ == self.spec_encode() ==> f.requires((s,)),
        ensures
            exists|s: &[u8]| s@ == self.spec_encode() && f.ensures((s,), r),
    {
        let v = self.encode();
        f(v.as_slice())
    }

    /// Calculates the encoded size.
    ///
    /// Should be used when the encoded data isn't required.
    fn encoded_size(&self) -> (n: usize)
        requires
            self.encodable(),
            self.spec_encode().len() <= usize::MAX,
        ensures
            n == self.spec_encode().len(),
    {
        let mut size_tracker = SizeTracker::new();
        self.encode_to(&mut size_tracker);
        size_tracker.count()
    }
}

/// `h` is a size hint that `v.size_hint()` gives.
pub open spec fn size_hint_of<T: Encode + ?Sized>(v: &T, h: usize) -> bool {
    call_ensures(T::size_hint, (v,), h)
}

/// `total`, or the largest `usize` where `total` is larger: what adding up with
/// `saturating_add` gives.
pub open spec fn saturated(total: int) -> usize {
    if total > usize::MAX {
        usize::MAX
    } else {
        total as usize
    }
}

/// The size hint of `v`, taken as a call of its `size_hint`.
pub(crate) fn hint_of<T: Encode + ?Sized>(v: &T) -> (h: usize)
    ensures
        size_hint_of(v, h),
{
    let size_hint = T::size_hint;
    let h = size_hint(v);
    assert(call_ensures(T::size_hint, (v,), h));
    h
}

/// `f` is what `T::encoded_fixed_size()` gives.
pub open spec fn fixed_size_of<T: Decode>(f: Option<usize>) -> bool {
    call_ensures(T::encoded_fixed_size, (), f)
}

/// The fixed encoded size of `T`, taken as a call of its `encoded_fixed_size`.
pub(crate) fn fixed_size_call<T: Decode>() -> (f: Option<usize>)
    ensures
        fixed_size_of::<T>(f),
{
    let size_fn = T::encoded_fixed_size;
    let f = size_fn();
    assert(call_ensures(T::encoded_fixed_size, (), f));
    f
}

/// `v` was read from the front of `before`, leaving `after`: the bytes read are exactly the
/// encoding of `v`.
pub open spec fn decodes_to<T: Encode>(v: T, before: Seq<u8>, after: Seq<u8>) -> bool {
    &&& v.encodable()
    &&& v.spec_encode().len() <= before.len()
    &&& before.take(v.spec_encode().len() as int) == v.spec_encode()
    &&& after == before.skip(v.spec_encode().len() as int)
}

/// A value that nests `depth` deep fits on an input at nesting `d` of at most `m`.
pub open spec fn depth_fits(depth: nat, d: nat, m: nat) -> bool {
    depth == 0 || d + depth <= m
}

/// The alignment by which an input counts allocations (none where it does not count them).
pub open spec fn mem_alignment<I: Input>(i: I) -> Option<MemAlignment> {
    match i.mem_budget() {
        Some((_, al)) => al,
        None => None,
    }
}

/// How a decoding that ends in `r`, of a value that nests `depth` deep and asks for `mem` bytes,
/// leaves an input that counts nesting or memory: it succeeds exactly when the value fits, is
/// otherwise refused with the limit's error, and on success has opened as many nested values as
/// it closed and spent `mem` of the budget.
pub open spec fn limits_kept<I: Input, V>(
    before: I,
    after: I,
    r: Result<V, Error>,
    depth: nat,
    mem: nat,
) -> bool {
    &&& (before.depth_count() is None ==> after.depth_count() is None)
    &&& (before.mem_budget() is None ==> after.mem_budget() is None)
    &&& (before.depth_count() matches Some((d, m)) ==> {
        &&& (r is Ok <==> depth_fits(depth, d, m))
        &&& (r is Ok ==> after.depth_count() == before.depth_count())
        &&& (r matches Err(e) ==> e.description() == DEPTH_LIMIT_ERR_MSG@)
    })
    &&& (before.mem_budget() matches Some((rem, al)) ==> {
        &&& (r is Ok <==> mem <= rem)
        &&& (r is Ok ==> after.mem_budget() == Some(((rem - mem) as nat, al)))
        &&& (r matches Err(e) ==> e.description() == MEM_LIMIT_ERR_MSG@)
    })
}

/// A decoding that calls no hook leaves the counts of the input as they were, and fits them
/// whatever they are.
pub(crate) proof fn lemma_no_hooks<I: Input, V>(before: I, after: I, v: V)
    requires
        after.depth_count() == before.depth_count(),
        after.mem_budget() == before.mem_budget(),
    ensures
        limits_kept(before, after, Ok::<V, Error>(v), 0, 0),
{
}

/// The deeper of two nestings.
pub open spec fn deeper(a: nat, b: nat) -> nat {
    if a >= b {
        a
    } else {
        b
    }
}

/// A decoding whose result stands or falls with that of one decoding leaves the counts as that
/// one did.
pub(crate) proof fn lemma_limits_same<I: Input, V, W>(
    s0: I,
    s1: I,
    r1: Result<V, Error>,
    r: Result<W, Error>,
    d: nat,
    m: nat,
)
    requires
        limits_kept(s0, s1, r1, d, m),
        r is Ok <==> r1 is Ok,
        r1 is Err ==> r->Err_0 == r1->Err_0,
    ensures
        limits_kept(s0, s1, r, d, m),
{
}

/// A decoding of a part that succeeded, followed by a second part, ends as the second part
/// did: it nests as deep as the deeper part and spends what both spend.
pub(crate) proof fn lemma_limits_then<I: Input, V1, V2, W>(
    s0: I,
    s1: I,
    s2: I,
    r1: Result<V1, Error>,
    r2: Result<V2, Error>,
    r: Result<W, Error>,
    d1: nat,
    m1: nat,
    d2: nat,
    m2: nat,
)
    requires
        r1 is Ok,
        limits_kept(s0, s1, r1, d1, m1),
        limits_kept(s1, s2, r2, d2, m2),
        r is Ok <==> r2 is Ok,
        r2 is Err ==> r->Err_0 == r2->Err_0,
    ensures
        limits_kept(s0, s2, r, deeper(d1, d2), m1 + m2),
{
}

/// A decoding that stops at a part that was refused is refused as that part was: the whole
/// nests deeper, or asks for more, than the part alone.
pub(crate) proof fn lemma_limits_stop<I: Input, V1, W>(
    s0: I,
    s1: I,
    r1: Result<V1, Error>,
    r: Result<W, Error>,
    d1: nat,
    m1: nat,
    d2: nat,
    m2: nat,
)
    requires
        r1 is Err,
        r is Err,
        r->Err_0 == r1->Err_0,
        limits_kept(s0, s1, r1, d1, m1),
    ensures
        limits_kept(s0, s1, r, deeper(d1, d2), m1 + m2),
{
}

/// Decoding a value one nested level down (`descend_ref`, the value, `ascend_ref`): refused
/// where the descent or the value is, and otherwise nesting one level deeper than the value and
/// spending what it spends.
pub(crate) proof fn lemma_limits_nested<I: Input, V, W>(
    s0: I,
    s1: I,
    s2: I,
    s3: I,
    rd: Result<(), Error>,
    rv: Result<V, Error>,
    r: Result<W, Error>,
    dv: nat,
    mv: nat,
)
    requires
        s1.mem_budget() == s0.mem_budget(),
        s0.mem_budget() is Some ==> rd is Ok,
        s0.depth_count() is None ==> s1.depth_count() is None,
        s0.depth_count() matches Some((d, m)) ==> {
            &&& rd is Ok <==> d < m
            &&& rd is Ok ==> s1.depth_count() == Some(((d + 1) as nat, m))
            &&& rd matches Err(e) ==> e.description() == DEPTH_LIMIT_ERR_MSG@
        },
        rd is Err ==> r is Err && r->Err_0 == rd->Err_0 && s3 == s1,
        rd is Ok ==> limits_kept(s1, s2, rv, dv, mv),
        rd is Ok && rv is Err ==> r is Err && r->Err_0 == rv->Err_0 && s3 == s2,
        rd is Ok && rv is Ok ==> {
            &&& r is Ok
            &&& s3.mem_budget() == s2.mem_budget()
            &&& s2.depth_count() is None ==> s3.depth_count() is None
            &&& s2.depth_count() matches Some((d2, m2)) ==> s3.depth_count() == Some(
                (if d2 > 0 { (d2 - 1) as nat } else { 0 }, m2),
            )
        },
    ensures
        limits_kept(s0, s3, r, dv + 1, mv),
{
}

/// A refusal stays a refusal for a value that nests at least as deep and asks for at least as
/// much.
pub(crate) proof fn lemma_limits_more<I: Input, V>(
    s0: I,
    s1: I,
    r: Result<V, Error>,
    d1: nat,
    m1: nat,
    d2: nat,
    m2: nat,
)
    requires
        r is Err,
        limits_kept(s0, s1, r, d1, m1),
        d1 <= d2,
        m1 <= m2,
    ensures
        limits_kept(s0, s1, r, d2, m2),
{
}

/// The laws that tie a type's decoding to its encoding.
///
/// Every type of this library that decodes has them, proved; a type implemented outside
/// verified code need not.
pub trait DecodeLaws: Decode {
    /// What is read is never longer than what is there.
    proof fn lemma_parse_bounded(bytes: Seq<u8>)
        ensures
            Self::spec_parse(bytes) matches Some(n) ==> n <= bytes.len(),
    ;

    /// Decoding the encoding of a value reads exactly that encoding, whatever follows it.
    proof fn lemma_parse_encoding(v: Self, rest: Seq<u8>)
        requires
            v.encodable(),
        ensures
            Self::spec_parse(v.spec_encode() + rest) == Some(v.spec_encode().len()),
    ;

    /// Whether `a` and `b` are the same value: equal numbers, the same variant holding the same
    /// values, the same items in the same order, the same characters.
    spec fn same_value(a: Self, b: Self) -> bool;

    /// Two values with the same encoding are the same value: the encoding is one-to-one.
    proof fn lemma_encoding_injective(a: Self, b: Self)
        requires
            a.encodable(),
            b.encodable(),
            a.spec_encode() == b.spec_encode(),
        ensures
            Self::same_value(a, b),
    ;
}

/// Of two values, each followed by some bytes, that make up the same bytes: the values have the
/// same encoding, and the bytes that follow them are the same.
pub proof fn lemma_split_encodings<T: DecodeLaws>(a: T, ra: Seq<u8>, b: T, rb: Seq<u8>)
    requires
        a.encodable(),
        b.encodable(),
        a.spec_encode() + ra == b.spec_encode() + rb,
    ensures
        a.spec_encode() == b.spec_encode(),
        ra == rb,
{
    T::lemma_parse_encoding(a, ra);
    T::lemma_parse_encoding(b, rb);
    let s = a.spec_encode() + ra;
    let n = a.spec_encode().len();
    assert(s.take(n as int) =~= a.spec_encode());
    assert((b.spec_encode() + rb).take(n as int) =~= b.spec_encode());
    assert(s.skip(n as int) =~= ra);
    assert((b.spec_encode() + rb).skip(n as int) =~= rb);
}

/// What a read gives back of a write: a value read from the front of the encoding of `v`
/// followed by any bytes is the same value as `v`, the read takes exactly that encoding, and
/// what is left is those bytes.
pub proof fn lemma_read_back<T: DecodeLaws>(v: T, rest: Seq<u8>, w: T, after: Seq<u8>)
    requires
        v.encodable(),
        decodes_to(w, v.spec_encode() + rest, after),
    ensures
        T::spec_parse(v.spec_encode() + rest) == Some(v.spec_encode().len()),
        w.spec_encode() == v.spec_encode(),
        T::same_value(v, w),
        after == rest,
{
    T::lemma_parse_encoding(v, rest);
    let s = v.spec_encode() + rest;
    let k = w.spec_encode().len();
    assert(s =~= w.spec_encode() + after) by {
        assert(s =~= s.take(k as int) + s.skip(k as int));
    }
    lemma_split_encodings(v, rest, w, after);
    T::lemma_encoding_injective(v, w);
}

/// Two numbers below `pow256(n)` written in the same `n` little-endian bytes are equal.
proof fn lemma_le_bytes_injective(x: nat, y: nat, n: nat)
    requires
        x < pow256(n),
        y < pow256(n),
        le_bytes(x, n) == le_bytes(y, n),
    ensures
        x == y,
{
    lemma_le_value_of_bytes(x, n);
    lemma_le_value_of_bytes(y, n);
}

/// Two numbers in the range of `n`-byte two's complement with the same bits are equal.
proof fn lemma_twos_injective(x: int, y: int, n: nat)
    requires
        -(pow256(n) / 2) <= x < pow256(n) / 2,
        -(pow256(n) / 2) <= y < pow256(n) / 2,
        twos(x, n) == twos(y, n),
    ensures
        x == y,
{
}

/// Trait that allows zero-copy read of value-references from slices in LE format.
///
/// Its model is `spec_parse`: the length of the encoding of a value at the front of some bytes,
/// if they start with one. Where they do, decoding reads exactly that encoding and returns the
/// value it encodes. Some types also decode bytes that are no value's encoding (a set decodes
/// items out of order, and sorts them); what such a decoding gives, their own contracts say.
pub trait Decode: Encode + Sized {
    /// The length of the encoding of a value at the front of `bytes`, if `bytes` starts with one.
    ///
    /// The default parses nothing: a type implemented outside verified code is not assumed to
    /// decode.
    open spec fn spec_parse(bytes: Seq<u8>) -> Option<nat> {
        None
    }

    /// How deeply the value at the front of `bytes` nests: the most nested values (each opened
    /// by `descend_ref` and closed by `ascend_ref`) that are open at once while it is decoded.
    ///
    /// The default is a value that opens none.
    open spec fn spec_depth(bytes: Seq<u8>) -> nat {
        0
    }

    /// The memory that decoding the value at the front of `bytes` asks for through `try_alloc`,
    /// each request counted once aligned by `align`.
    ///
    /// The default is a value that asks for none.
    open spec fn spec_mem(bytes: Seq<u8>, align: Option<MemAlignment>) -> nat {
        0
    }

    /// Attempt to deserialise the value from input.
    ///
    /// On an input that counts nesting or memory, a value that parses decodes exactly when it
    /// fits, and is otherwise refused with the limit's error.
    fn decode<I: Input>(input: &mut I) -> (r: Result<Self, Error>)
        ensures
            final(input).hooks_succeed() == old(input).hooks_succeed(),
            Self::spec_parse(old(input).unread()) is Some ==> (r matches Ok(v) ==> Self::spec_parse(
                old(input).unread(),
            ) == Some(v.spec_encode().len())),
            Self::spec_parse(old(input).unread()) is Some ==> (r matches Ok(v) ==> decodes_to(
                v,
                old(input).unread(),
                final(input).unread(),
            )),
            r is Err ==> Self::spec_parse(old(input).unread()) is None || !old(input).hooks_succeed(),
            Self::spec_parse(old(input).unread()) is Some ==> limits_kept(
                *old(input),
                *final(input),
                r,
                Self::spec_depth(old(input).unread()),
                Self::spec_mem(old(input).unread(), mem_alignment(*old(input))),
            ),
    ;

    /// Attempt to skip the encoded value from input.
    fn skip<I: Input>(input: &mut I) -> (r: Result<(), Error>)
        ensures
            final(input).hooks_succeed() == old(input).hooks_succeed(),
            Self::spec_parse(old(input).unread()) is Some ==> (r is Ok ==> (Self::spec_parse(
                old(input).unread(),
            ) matches Some(n) && n <= old(input).unread().len() && final(input).unread() == old(
                input,
            ).unread().skip(n as int))),
            r is Err ==> Self::spec_parse(old(input).unread()) is None || !old(input).hooks_succeed(),
    {
        match Self::decode(input) {
            Ok(_) => Ok(()),
            Err(e) => Err(e),
        }
    }

    /// Returns the fixed encoded size of the type.
    ///
    /// If it returns `Some(size)` then all possible values of this
    /// type have the given size (in bytes) when encoded.
    fn encoded_fixed_size() -> (r: Option<usize>)
        ensures
            r matches Some(n) ==> forall|v: Self| #[trigger] v.spec_encode().len() == n,
            r matches Some(n) ==> forall|b: Seq<u8>|
                #[trigger] Self::spec_parse(b) matches Some(k) ==> k == n && k <= b.len(),
    {
        None
    }
}

/// Trait that allows zero-copy read/write of value-references to/from slices in LE format.
pub trait Codec: Decode + Encode {
}

impl<S: Decode + Encode> Codec for S {

}

/// Something that can be encoded as a reference: `RefType` is made from a reference to a `T` and
/// encodes it in this type's encoding.
pub trait EncodeAsRef<'a, T: 'a> {
    /// The reference type that is used for encoding.
    type RefType: Encode + From<&'a T>;
}

/// The length of a fixed-size encoding of `n` bytes at the front of `bytes`.
pub open spec fn fixed_parse(bytes: Seq<u8>, n: nat) -> Option<nat> {
    if n <= bytes.len() {
        Some(n)
    } else {
        None
    }
}

/// `x` as an unsigned number of `n` bytes in two's complement.
pub open spec fn twos(x: int, n: nat) -> nat {
    if x >= 0 {
        x as nat
    } else {
        (x + pow256(n)) as nat
    }
}

/// Encodes `v`, known to be below `pow256(n)`, as `n` little-endian bytes.
fn encode_unsigned<W: Output>(v: u128, n: usize, dest: &mut W)
    requires
        old(dest).written().len() + n <= usize::MAX,
    ensures
        final(dest).written() == old(dest).written() + le_bytes(v as nat, n as nat),
{
    write_le(dest, v, n);
}

/// Reads `n` little-endian bytes.
fn decode_unsigned<I: Input>(input: &mut I, n: usize) -> (r: Result<u128, Error>)
    requires
        n <= 16,
    ensures
        final(input).depth_count() == old(input).depth_count(),
        final(input).mem_budget() == old(input).mem_budget(),
        final(input).short_read_error() == old(input).short_read_error(),
        final(input).hooks_succeed() == old(input).hooks_succeed(),
        r is Ok ==> n <= old(input).unread().len(),
        reads_fully(old(input)) && n <= old(input).unread().len() ==> r is Ok,
        r matches Ok(v) ==> v < pow256(n as nat) && le_bytes(v as nat, n as nat) == old(
            input,
        ).unread().take(n as int),
        r is Ok ==> final(input).unread() == old(input).unread().skip(n as int),
{
    let r = read_le(input, n);
    proof {
        if r is Ok {
            lemma_le_value_bound(old(input).unread().take(n as int));
        }
    }
    r
}

/// The two's complement bits of `x` in `n` bytes, where `m1 == pow256(n) - 1`.
fn to_twos(x: i128, n: usize, m1: u128) -> (u: u128)
    requires
        1 <= n <= 16,
        m1 == pow256(n as nat) - 1,
        -(pow256(n as nat) / 2) <= x < pow256(n as nat) / 2,
    ensures
        u == twos(x as int, n as nat),
        u < pow256(n as nat),
{
    if x >= 0 {
        x as u128
    } else {
        m1 - ((-(x + 1)) as u128)
    }
}

/// The number whose two's complement bits in `n` bytes are `u`, where `m1 == pow256(n) - 1`.
fn from_twos(u: u128, n: usize, m1: u128) -> (x: i128)
    requires
        1 <= n <= 16,
        m1 == pow256(n as nat) - 1,
        u < pow256(n as nat),
        pow256(n as nat) % 2 == 0,
    ensures
        twos(x as int, n as nat) == u,
        -(pow256(n as nat) / 2) <= x < pow256(n as nat) / 2,
{
    let half = m1 / 2 + 1;
    if u < half {
        u as i128
    } else {
        -((m1 - u) as i128) - 1
    }
}

impl Encode for u8 {
    open spec fn spec_encode(&self) -> Seq<u8> {
        seq![*self]
    }

    open spec fn encodable(&self) -> bool {
        true
    }

    fn size_hint(&self) -> (n: usize)
        ensures
            n == 1,
    {
        1
    }

    fn encode_to<W: Output>(&self, dest: &mut W) {
        dest.push_byte(*self);
        assert(old(dest).written().push(*self) =~= old(dest).written() + seq![*self]);
    }
}

impl Decode for u8 {
    open spec fn spec_parse(bytes: Seq<u8>) -> Option<nat> {
        fixed_parse(bytes, 1)
    }

    /// Every value takes 1 byte.
    fn encoded_fixed_size() -> (r: Option<usize>)
        ensures
            r == Some(1usize),
    {
        Some(1)
    }

    fn decode<I: Input>(input: &mut I) -> (r: Result<u8, Error>) {
        let b = input.read_byte()?;
        assert(old(input).unread().take(1) =~= seq![b]);
        assert(old(input).unread().skip(1) =~= old(input).unread().drop_first());
        proof {
            assert(Self::spec_depth(old(input).unread()) == 0);
            assert(Self::spec_mem(old(input).unread(), mem_alignment(*old(input))) == 0);
            lemma_no_hooks(*old(input), *input, b);
        }
        Ok(b)
    }
}

impl DecodeLaws for u8 {
    proof fn lemma_parse_bounded(bytes: Seq<u8>) {
    }

    proof fn lemma_parse_encoding(v: u8, rest: Seq<u8>) {
    }

    open spec fn same_value(a: u8, b: u8) -> bool {
        a == b
    }

    proof fn lemma_encoding_injective(a: u8, b: u8) {
        assert(seq![a][0] == a);
    }
}

impl Encode for i8 {
    open spec fn spec_encode(&self) -> Seq<u8> {
        seq![twos(*self as int, 1) as u8]
    }

    open spec fn encodable(&self) -> bool {
        true
    }

    fn size_hint(&self) -> (n: usize)
        ensures
            n == 1,
    {
        1
    }

    fn encode_to<W: Output>(&self, dest: &mut W) {
        proof {
            lemma_pow256_small();
        }
        let u = to_twos(*self as i128, 1, 0xff);
        dest.push_byte(u as u8);
        assert(old(dest).written().push(u as u8) =~= old(dest).written() + self.spec_encode());
    }
}

impl Decode for i8 {
    open spec fn spec_parse(bytes: Seq<u8>) -> Option<nat> {
        fixed_parse(bytes, 1)
    }

    /// Every value takes 1 byte.
    fn encoded_fixed_size() -> (r: Option<usize>)
        ensures
            r == Some(1usize),
    {
        Some(1)
    }

    fn decode<I: Input>(input: &mut I) -> (r: Result<i8, Error>) {
        proof {
            lemma_pow256_small();
        }
        let b = input.read_byte()?;
        let x = from_twos(b as u128, 1, 0xff) as i8;
        assert(old(input).unread().take(1) =~= x.spec_encode());
        assert(old(input).unread().skip(1) =~= old(input).unread().drop_first());
        proof {
            assert(Self::spec_depth(old(input).unread()) == 0);
            assert(Self::spec_mem(old(input).unread(), mem_alignment(*old(input))) == 0);
            lemma_no_hooks(*old(input), *input, x);
        }
        Ok(x)
    }
}

impl DecodeLaws for i8 {
    proof fn lemma_parse_bounded(bytes: Seq<u8>) {
    }

    proof fn lemma_parse_encoding(v: i8, rest: Seq<u8>) {
    }

    open spec fn same_value(a: i8, b: i8) -> bool {
        a == b
    }

    proof fn lemma_encoding_injective(a: i8, b: i8) {
        lemma_pow256_small();
        assert(seq![twos(a as int, 1) as u8][0] == twos(a as int, 1) as u8);
        assert(seq![twos(b as int, 1) as u8][0] == twos(b as int, 1) as u8);
        lemma_twos_injective(a as int, b as int, 1);
    }
}

impl Encode for u16 {
    open spec fn spec_encode(&self) -> Seq<u8> {
        le_bytes(*self as nat, 2)
    }

    open spec fn encodable(&self) -> bool {
        true
    }

    fn size_hint(&self) -> (n: usize)
        ensures
            n == 2,
    {
        2
    }

    fn encode_to<W: Output>(&self, dest: &mut W) {
        proof {
            lemma_le_bytes_len(*self as nat, 2);
        }
        encode_unsigned(*self as u128, 2, dest);
    }
}

impl Decode for u16 {
    open spec fn spec_parse(bytes: Seq<u8>) -> Option<nat> {
        fixed_parse(bytes, 2)
    }

    /// Every value takes 2 bytes.
    fn encoded_fixed_size() -> (r: Option<usize>)
        ensures
            r == Some(2usize),
    {
        assert forall|v: u16| #[trigger] v.spec_encode().len() == 2 by {
            lemma_le_bytes_len(v as nat, 2);
        }
        Some(2)
    }

    fn decode<I: Input>(input: &mut I) -> (r: Result<u16, Error>) {
        proof {
            lemma_pow256_small();
            lemma_le_bytes_len(0, 2);
        }
        let v = decode_unsigned(input, 2)?;
        proof {
            lemma_le_bytes_len(v as nat, 2);
        }
        proof {
            assert(Self::spec_depth(old(input).unread()) == 0);
            assert(Self::spec_mem(old(input).unread(), mem_alignment(*old(input))) == 0);
            lemma_no_hooks(*old(input), *input, v as u16);
        }
        Ok(v as u16)
    }
}

impl DecodeLaws for u16 {
    proof fn lemma_parse_bounded(bytes: Seq<u8>) {
    }

    proof fn lemma_parse_encoding(v: u16, rest: Seq<u8>) {
        lemma_le_bytes_len(v as nat, 2);
    }

    open spec fn same_value(a: u16, b: u16) -> bool {
        a == b
    }

    proof fn lemma_encoding_injective(a: u16, b: u16) {
        lemma_pow256_small();
        lemma_le_bytes_injective(a as nat, b as nat, 2);
    }
}

impl Encode for i16 {
    open spec fn spec_encode(&self) -> Seq<u8> {
        le_bytes(twos(*self as int, 2), 2)
    }

    open spec fn encodable(&self) -> bool {
        true
    }

    fn size_hint(&self) -> (n: usize)
        ensures
            n == 2,
    {
        2
    }

    fn encode_to<W: Output>(&self, dest: &mut W) {
        proof {
            lemma_pow256_small();
            lemma_le_bytes_len(twos(*self as int, 2), 2);
        }
        let u = to_twos(*self as i128, 2, 0xffff);
        encode_unsigned(u, 2, dest);
    }
}

impl Decode for i16 {
    open spec fn spec_parse(bytes: Seq<u8>) -> Option<nat> {
        fixed_parse(bytes, 2)
    }

    /// Every value takes 2 bytes.
    fn encoded_fixed_size() -> (r: Option<usize>)
        ensures
            r == Some(2usize),
    {
        assert forall|v: i16| #[trigger] v.spec_encode().len() == 2 by {
            lemma_le_bytes_len(twos(v as int, 2), 2);
        }
        Some(2)
    }

    fn decode<I: Input>(input: &mut I) -> (r: Result<i16, Error>) {
        proof {
            lemma_pow256_small();
        }
        let u = decode_unsigned(input, 2)?;
        let x = from_twos(u, 2, 0xffff) as i16;
        proof {
            lemma_le_bytes_len(u as nat, 2);
        }
        proof {
            assert(Self::spec_depth(old(input).unread()) == 0);
            assert(Self::spec_mem(old(input).unread(), mem_alignment(*old(input))) == 0);
            lemma_no_hooks(*old(input), *input, x);
        }
        Ok(x)
    }
}

impl DecodeLaws for i16 {
    proof fn lemma_parse_bounded(bytes: Seq<u8>) {
    }

    proof fn lemma_parse_encoding(v: i16, rest: Seq<u8>) {
        lemma_le_bytes_len(twos(v as int, 2), 2);
    }

    open spec fn same_value(a: i16, b: i16) -> bool {
        a == b
    }

    proof fn lemma_encoding_injective(a: i16, b: i16) {
        lemma_pow256_small();
        lemma_le_bytes_injective(twos(a as int, 2), twos(b as int, 2), 2);
        lemma_twos_injective(a as int, b as int, 2);
    }
}

impl Encode for u32 {
    open spec fn spec_encode(&self) -> Seq<u8> {
        le_bytes(*self as nat, 4)
    }

    open spec fn encodable(&self) -> bool {
        true
    }

    fn size_hint(&self) -> (n: usize)
        ensures
            n == 4,
    {
        4
    }

    fn encode_to<W: Output>(&self, dest: &mut W) {
        proof {
            lemma_le_bytes_len(*self as nat, 4);
        }
        encode_unsigned(*self as u128, 4, dest);
    }
}

impl Decode for u32 {
    open spec fn spec_parse(bytes: Seq<u8>) -> Option<nat> {
        fixed_parse(bytes, 4)
    }

    /// Every value takes 4 bytes.
    fn encoded_fixed_size() -> (r: Option<usize>)
        ensures
            r == Some(4usize),
    {
        assert forall|v: u32| #[trigger] v.spec_encode().len() == 4 by {
            lemma_le_bytes_len(v as nat, 4);
        }
        Some(4)
    }

    fn decode<I: Input>(input: &mut I) -> (r: Result<u32, Error>) {
        proof {
            lemma_pow256_small();
        }
        let v = decode_unsigned(input, 4)?;
        proof {
            lemma_le_bytes_len(v as nat, 4);
        }
        proof {
            assert(Self::spec_depth(old(input).unread()) == 0);
            assert(Self::spec_mem(old(input).unread(), mem_alignment(*old(input))) == 0);
            lemma_no_hooks(*old(input), *input, v as u32);
        }
        Ok(v as u32)
    }
}

impl DecodeLaws for u32 {
    proof fn lemma_parse_bounded(bytes: Seq<u8>) {
    }

    proof fn lemma_parse_encoding(v: u32, rest: Seq<u8>) {
        lemma_le_bytes_len(v as nat, 4);
    }

    open spec fn same_value(a: u32, b: u32) -> bool {
        a == b
    }

    proof fn lemma_encoding_injective(a: u32, b: u32) {
        lemma_pow256_small();
        lemma_le_bytes_injective(a as nat, b as nat, 4);
    }
}

impl Encode for i32 {
    open spec fn spec_encode(&self) -> Seq<u8> {
        le_bytes(twos(*self as int, 4), 4)
    }

    open spec fn encodable(&self) -> bool {
        true
    }

    fn size_hint(&self) -> (n: usize)
        ensures
            n == 4,
    {
        4
    }

    fn encode_to<W: Output>(&self, dest: &mut W) {
        proof {
            lemma_pow256_small();
            lemma_le_bytes_len(twos(*self as int, 4), 4);
        }
        let u = to_twos(*self as i128, 4, 0xffff_ffff);
        encode_unsigned(u, 4, dest);
    }
}

impl Decode for i32 {
    open spec fn spec_parse(bytes: Seq<u8>) -> Option<nat> {
        fixed_parse(bytes, 4)
    }

    /// Every value takes 4 bytes.
    fn encoded_fixed_size() -> (r: Option<usize>)
        ensures
            r == Some(4usize),
    {
        assert forall|v: i32| #[trigger] v.spec_encode().len() == 4 by {
            lemma_le_bytes_len(twos(v as int, 4), 4);
        }
        Some(4)
    }

    fn decode<I: Input>(input: &mut I) -> (r: Result<i32, Error>) {
        proof {
            lemma_pow256_small();
        }
        let u = decode_unsigned(input, 4)?;
        let x = from_twos(u, 4, 0xffff_ffff) as i32;
        proof {
            lemma_le_bytes_len(u as nat, 4);
        }
        proof {
            assert(Self::spec_depth(old(input).unread()) == 0);
            assert(Self::spec_mem(old(input).unread(), mem_alignment(*old(input))) == 0);
            lemma_no_hooks(*old(input), *input, x);
        }
        Ok(x)
    }
}

impl DecodeLaws for i32 {
    proof fn lemma_parse_bounded(bytes: Seq<u8>) {
    }

    proof fn lemma_parse_encoding(v: i32, rest: Seq<u8>) {
        lemma_le_bytes_len(twos(v as int, 4), 4);
    }

    open spec fn same_value(a: i32, b: i32) -> bool {
        a == b
    }

    proof fn lemma_encoding_injective(a: i32, b: i32) {
        lemma_pow256_small();
        lemma_le_bytes_injective(twos(a as int, 4), twos(b as int, 4), 4);
        lemma_twos_injective(a as int, b as int, 4);
    }
}

impl Encode for u64 {
    open spec fn spec_encode(&self) -> Seq<u8> {
        le_bytes(*self as nat, 8)
    }

    open spec fn encodable(&self) -> bool {
        true
    }

    fn size_hint(&self) -> (n: usize)
        ensures
            n == 8,
    {
        8
    }

    fn encode_to<W: Output>(&self, dest: &mut W) {
        proof {
            lemma_le_bytes_len(*self as nat, 8);
        }
        encode_unsigned(*self as u128, 8, dest);
    }
}

impl Decode for u64 {
    open spec fn spec_parse(bytes: Seq<u8>) -> Option<nat> {
        fixed_parse(bytes, 8)
    }

    /// Every value takes 8 bytes.
    fn encoded_fixed_size() -> (r: Option<usize>)
        ensures
            r == Some(8usize),
    {
        assert forall|v: u64| #[trigger] v.spec_encode().len() == 8 by {
            lemma_le_bytes_len(v as nat, 8);
        }
        Some(8)
    }

    fn decode<I: Input>(input: &mut I) -> (r: Result<u64, Error>) {
        proof {
            lemma_pow256_small();
        }
        let v = decode_unsigned(input, 8)?;
        proof {
            lemma_le_bytes_len(v as nat, 8);
        }
        proof {
            assert(Self::spec_depth(old(input).unread()) == 0);
            assert(Self::spec_mem(old(input).unread(), mem_alignment(*old(input))) == 0);
            lemma_no_hooks(*old(input), *input, v as u64);
        }
        Ok(v as u64)
    }
}

impl DecodeLaws for u64 {
    proof fn lemma_parse_bounded(bytes: Seq<u8>) {
    }

    proof fn lemma_parse_encoding(v: u64, rest: Seq<u8>) {
        lemma_le_bytes_len(v as nat, 8);
    }

    open spec fn same_value(a: u64, b: u64) -> bool {
        a == b
    }

    proof fn lemma_encoding_injective(a: u64, b: u64) {
        lemma_pow256_small();
        lemma_le_bytes_injective(a as nat, b as nat, 8);
    }
}

impl Encode for i64 {
    open spec fn spec_encode(&self) -> Seq<u8> {
        le_bytes(twos(*self as int, 8), 8)
    }

    open spec fn encodable(&self) -> bool {
        true
    }

    fn size_hint(&self) -> (n: usize)
        ensures
            n == 8,
    {
        8
    }

    fn encode_to<W: Output>(&self, dest: &mut W) {
        proof {
            lemma_pow256_small();
            lemma_le_bytes_len(twos(*self as int, 8), 8);
        }
        let u = to_twos(*self as i128, 8, 0xffff_ffff_ffff_ffff);
        encode_unsigned(u, 8, dest);
    }
}

impl Decode for i64 {
    open spec fn spec_parse(bytes: Seq<u8>) -> Option<nat> {
        fixed_parse(bytes, 8)
    }

    /// Every value takes 8 bytes.
    fn encoded_fixed_size() -> (r: Option<usize>)
        ensures
            r == Some(8usize),
    {
        assert forall|v: i64| #[trigger] v.spec_encode().len() == 8 by {
            lemma_le_bytes_len(twos(v as int, 8), 8);
        }
        Some(8)
    }

    fn decode<I: Input>(input: &mut I) -> (r: Result<i64, Error>) {
        proof {
            lemma_pow256_small();
        }
        let u = decode_unsigned(input, 8)?;
        let x = from_twos(u, 8, 0xffff_ffff_ffff_ffff) as i64;
        proof {
            lemma_le_bytes_len(u as nat, 8);
        }
        proof {
            assert(Self::spec_depth(old(input).unread()) == 0);
            assert(Self::spec_mem(old(input).unread(), mem_alignment(*old(input))) == 0);
            lemma_no_hooks(*old(input), *input, x);
        }
        Ok(x)
    }
}

impl DecodeLaws for i64 {
    proof fn lemma_parse_bounded(bytes: Seq<u8>) {
    }

    proof fn lemma_parse_encoding(v: i64, rest: Seq<u8>) {
        lemma_le_bytes_len(twos(v as int, 8), 8);
    }

    open spec fn same_value(a: i64, b: i64) -> bool {
        a == b
    }

    proof fn lemma_encoding_injective(a: i64, b: i64) {
        lemma_pow256_small();
        lemma_le_bytes_injective(twos(a as int, 8), twos(b as int, 8), 8);
        lemma_twos_injective(a as int, b as int, 8);
    }
}

impl Encode for u128 {
    open spec fn spec_encode(&self) -> Seq<u8> {
        le_bytes(*self as nat, 16)
    }

    open spec fn encodable(&self) -> bool {
        true
    }

    fn size_hint(&self) -> (n: usize)
        ensures
            n == 16,
    {
        16
    }

    fn encode_to<W: Output>(&self, dest: &mut W) {
        proof {
            lemma_le_bytes_len(*self as nat, 16);
        }
        encode_unsigned(*self, 16, dest);
    }
}

impl Decode for u128 {
    open spec fn spec_parse(bytes: Seq<u8>) -> Option<nat> {
        fixed_parse(bytes, 16)
    }

    /// Every value takes 16 bytes.
    fn encoded_fixed_size() -> (r: Option<usize>)
        ensures
            r == Some(16usize),
    {
        assert forall|v: u128| #[trigger] v.spec_encode().len() == 16 by {
            lemma_le_bytes_len(v as nat, 16);
        }
        Some(16)
    }

    fn decode<I: Input>(input: &mut I) -> (r: Result<u128, Error>) {
        let v = decode_unsigned(input, 16)?;
        proof {
            lemma_le_bytes_len(v as nat, 16);
        }
        proof {
            assert(Self::spec_depth(old(input).unread()) == 0);
            assert(Self::spec_mem(old(input).unread(), mem_alignment(*old(input))) == 0);
            lemma_no_hooks(*old(input), *input, v);
        }
        Ok(v)
    }
}

impl DecodeLaws for u128 {
    proof fn lemma_parse_bounded(bytes: Seq<u8>) {
    }

    proof fn lemma_parse_encoding(v: u128, rest: Seq<u8>) {
        lemma_le_bytes_len(v as nat, 16);
    }

    open spec fn same_value(a: u128, b: u128) -> bool {
        a == b
    }

    proof fn lemma_encoding_injective(a: u128, b: u128) {
        lemma_pow256_small();
        lemma_le_bytes_injective(a as nat, b as nat, 16);
    }
}

impl Encode for i128 {
    open spec fn spec_encode(&self) -> Seq<u8> {
        le_bytes(twos(*self as int, 16), 16)
    }

    open spec fn encodable(&self) -> bool {
        true
    }

    fn size_hint(&self) -> (n: usize)
        ensures
            n == 16,
    {
        16
    }

    fn encode_to<W: Output>(&self, dest: &mut W) {
        proof {
            lemma_pow256_small();
            lemma_le_bytes_len(twos(*self as int, 16), 16);
        }
        let u = to_twos(*self, 16, u128::MAX);
        encode_unsigned(u, 16, dest);
    }
}

impl Decode for i128 {
    open spec fn spec_parse(bytes: Seq<u8>) -> Option<nat> {
        fixed_parse(bytes, 16)
    }

    /// Every value takes 16 bytes.
    fn encoded_fixed_size() -> (r: Option<usize>)
        ensures
            r == Some(16usize),
    {
        assert forall|v: i128| #[trigger] v.spec_encode().len() == 16 by {
            lemma_le_bytes_len(twos(v as int, 16), 16);
        }
        Some(16)
    }

    fn decode<I: Input>(input: &mut I) -> (r: Result<i128, Error>) {
        proof {
            lemma_pow256_small();
        }
        let u = decode_unsigned(input, 16)?;
        let x = from_twos(u, 16, u128::MAX);
        proof {
            lemma_le_bytes_len(u as nat, 16);
        }
        proof {
            assert(Self::spec_depth(old(input).unread()) == 0);
            assert(Self::spec_mem(old(input).unread(), mem_alignment(*old(input))) == 0);
            lemma_no_hooks(*old(input), *input, x);
        }
        Ok(x)
    }
}

impl DecodeLaws for i128 {
    proof fn lemma_parse_bounded(bytes: Seq<u8>) {
    }

    proof fn lemma_parse_encoding(v: i128, rest: Seq<u8>) {
        lemma_le_bytes_len(twos(v as int, 16), 16);
    }

    open spec fn same_value(a: i128, b: i128) -> bool {
        a == b
    }

    proof fn lemma_encoding_injective(a: i128, b: i128) {
        lemma_pow256_small();
        lemma_le_bytes_injective(twos(a as int, 16), twos(b as int, 16), 16);
        lemma_twos_injective(a as int, b as int, 16);
    }
}

impl Encode for bool {
    open spec fn spec_encode(&self) -> Seq<u8> {
        seq![if *self { 1u8 } else { 0u8 }]
    }

    open spec fn encodable(&self) -> bool {
        true
    }

    fn size_hint(&self) -> (n: usize)
        ensures
            n == 1,
    {
        1
    }

    fn encode_to<W: Output>(&self, dest: &mut W) {
        let b: u8 = if *self { 1 } else { 0 };
        dest.push_byte(b);
        assert(old(dest).written().push(b) =~= old(dest).written() + self.spec_encode());
    }
}

impl Decode for bool {
    open spec fn spec_parse(bytes: Seq<u8>) -> Option<nat> {
        if bytes.len() >= 1 && bytes[0] <= 1 {
            Some(1)
        } else {
            None
        }
    }

    /// A byte other than 0 and 1 is refused as "Invalid boolean representation".
    fn decode<I: Input>(input: &mut I) -> (r: Result<bool, Error>)
        ensures
            reads_fully(old(input)) && old(input).unread().len() > 0 && old(input).unread()[0] > 1 ==> (r matches Err(e)
                && e.description() == "Invalid boolean representation"@),
    {
        let byte = input.read_byte()?;
        assert(old(input).unread().skip(1) =~= old(input).unread().drop_first());
        if byte == 0 {
            assert(old(input).unread().take(1) =~= false.spec_encode());
            proof {
                assert(Self::spec_depth(old(input).unread()) == 0);
                assert(Self::spec_mem(old(input).unread(), mem_alignment(*old(input))) == 0);
                lemma_no_hooks(*old(input), *input, false);
            }
            Ok(false)
        } else if byte == 1 {
            assert(old(input).unread().take(1) =~= true.spec_encode());
            proof {
                assert(Self::spec_depth(old(input).unread()) == 0);
                assert(Self::spec_mem(old(input).unread(), mem_alignment(*old(input))) == 0);
                lemma_no_hooks(*old(input), *input, true);
            }
            Ok(true)
        } else {
            Err(Error::new("Invalid boolean representation"))
        }
    }
}

impl DecodeLaws for bool {
    proof fn lemma_parse_bounded(bytes: Seq<u8>) {
    }

    proof fn lemma_parse_encoding(v: bool, rest: Seq<u8>) {
    }

    open spec fn same_value(a: bool, b: bool) -> bool {
        a == b
    }

    proof fn lemma_encoding_injective(a: bool, b: bool) {
        assert(a.spec_encode()[0] == if a { 1u8 } else { 0u8 });
        assert(b.spec_encode()[0] == if b { 1u8 } else { 0u8 });
    }
}

impl Encode for () {
    open spec fn spec_encode(&self) -> Seq<u8> {
        Seq::empty()
    }

    open spec fn encodable(&self) -> bool {
        true
    }

    fn size_hint(&self) -> (n: usize)
        ensures
            n == 0,
    {
        0
    }

    fn encode_to<W: Output>(&self, dest: &mut W) {
        assert(old(dest).written() + Seq::<u8>::empty() =~= old(dest).written());
    }
}

impl Decode for () {
    open spec fn spec_parse(bytes: Seq<u8>) -> Option<nat> {
        Some(0)
    }

    fn decode<I: Input>(input: &mut I) -> (r: Result<(), Error>) {
        assert(old(input).unread().take(0) =~= Seq::<u8>::empty());
        assert(old(input).unread().skip(0) =~= old(input).unread());
        proof {
            assert(Self::spec_depth(old(input).unread()) == 0);
            assert(Self::spec_mem(old(input).unread(), mem_alignment(*old(input))) == 0);
            lemma_no_hooks(*old(input), *input, ());
        }
        Ok(())
    }
}

impl DecodeLaws for () {
    proof fn lemma_parse_bounded(bytes: Seq<u8>) {
    }

    proof fn lemma_parse_encoding(v: (), rest: Seq<u8>) {
    }

    open spec fn same_value(a: (), b: ()) -> bool {
        a == b
    }

    proof fn lemma_encoding_injective(a: (), b: ()) {
    }
}

} // verus!
