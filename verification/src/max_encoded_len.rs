//! The longest encoding that a value of a type can have.
use crate::codec::{saturated, twos, Encode};
use crate::compact::Compact;
use crate::compact_spec::{compact_encoding, lemma_compact_encoding_len, lemma_compact_u128, lemma_compact_u32};
use crate::composite::Duration;
use crate::endian::{lemma_le_bytes_len, lemma_min_bytes, lemma_pow256_monotone, lemma_pow256_small, min_bytes};
use crate::sequence::{items_encoding, mul_or_max};
use vstd::prelude::*;

verus! {

/// Items implementing `MaxEncodedLen` have a statically known maximum encoded size.
///
/// Its model is `spec_max_encoded_len`: a length that the encoding of no value of the type
/// exceeds.
pub trait MaxEncodedLen: Encode + Sized {
    /// A length, in bytes, that the encoding of no value of this type exceeds.
    spec fn spec_max_encoded_len() -> nat;

    /// Upper bound, in bytes, of the maximum encoded size of this item; the largest `usize`
    /// where the bound is larger.
    fn max_encoded_len() -> (n: usize)
        ensures
            n == saturated(Self::spec_max_encoded_len() as int),
            forall|v: Self| v.encodable() ==> #[trigger] v.spec_encode().len()
                <= Self::spec_max_encoded_len(),
    ;
}

/// Saturating additions compose: adding up bounds that may have saturated saturates where the
/// exact sum is too large.
pub proof fn lemma_saturated_add(a: nat, b: nat)
    ensures
        (if saturated(a as int) + saturated(b as int) > usize::MAX {
            usize::MAX as int
        } else {
            saturated(a as int) + saturated(b as int)
        }) == saturated((a + b) as int),
{
}

/// Values up to `u64::MAX` take at most nine bytes as compact encodings.
proof fn lemma_compact_u64(v: nat)
    requires
        v <= u64::MAX,
    ensures
        compact_encoding(v).len() <= 9,
{
    lemma_pow256_small();
    lemma_min_bytes(v);
    if min_bytes(v) > 8 {
        lemma_pow256_monotone(8, (min_bytes(v) - 1) as nat);
    }
    lemma_compact_encoding_len(v);
}

/// Items whose encodings are each at most `m` long encode, one after another, to at most
/// `s.len() * m` bytes.
proof fn lemma_items_encoding_bound<T: Encode>(s: Seq<T>, m: nat)
    requires
        forall|i: int| 0 <= i < s.len() ==> #[trigger] s[i].spec_encode().len() <= m,
    ensures
        items_encoding(s).len() <= s.len() * m,
    decreases s.len(),
{
    if s.len() > 0 {
        let rest = s.drop_first();
        assert forall|i: int| 0 <= i < rest.len() implies #[trigger] rest[i].spec_encode().len()
            <= m by {
            assert(rest[i] == s[i + 1]);
        }
        lemma_items_encoding_bound(rest, m);
        assert(s[0].spec_encode().len() <= m);
        assert((rest.len() + 1) * m == rest.len() * m + m) by (nonlinear_arith);
    }
}

impl MaxEncodedLen for u8 {
    open spec fn spec_max_encoded_len() -> nat {
        1
    }

    fn max_encoded_len() -> (n: usize) {
        assert forall|v: u8| v.encodable() implies #[trigger] v.spec_encode().len() <= 1 by {
            lemma_le_bytes_len(v as nat, 1);
        }
        1
    }
}

impl MaxEncodedLen for i8 {
    open spec fn spec_max_encoded_len() -> nat {
        1
    }

    fn max_encoded_len() -> (n: usize) {
        assert forall|v: i8| v.encodable() implies #[trigger] v.spec_encode().len() <= 1 by {
            lemma_le_bytes_len(twos(v as int, 1), 1);
        }
        1
    }
}

impl MaxEncodedLen for u16 {
    open spec fn spec_max_encoded_len() -> nat {
        2
    }

    fn max_encoded_len() -> (n: usize) {
        assert forall|v: u16| v.encodable() implies #[trigger] v.spec_encode().len() <= 2 by {
            lemma_le_bytes_len(v as nat, 2);
        }
        2
    }
}

impl MaxEncodedLen for i16 {
    open spec fn spec_max_encoded_len() -> nat {
        2
    }

    fn max_encoded_len() -> (n: usize) {
        assert forall|v: i16| v.encodable() implies #[trigger] v.spec_encode().len() <= 2 by {
            lemma_le_bytes_len(twos(v as int, 2), 2);
        }
        2
    }
}

impl MaxEncodedLen for u32 {
    open spec fn spec_max_encoded_len() -> nat {
        4
    }

    fn max_encoded_len() -> (n: usize) {
        assert forall|v: u32| v.encodable() implies #[trigger] v.spec_encode().len() <= 4 by {
            lemma_le_bytes_len(v as nat, 4);
        }
        4
    }
}

impl MaxEncodedLen for i32 {
    open spec fn spec_max_encoded_len() -> nat {
        4
    }

    fn max_encoded_len() -> (n: usize) {
        assert forall|v: i32| v.encodable() implies #[trigger] v.spec_encode().len() <= 4 by {
            lemma_le_bytes_len(twos(v as int, 4), 4);
        }
        4
    }
}

impl MaxEncodedLen for u64 {
    open spec fn spec_max_encoded_len() -> nat {
        8
    }

    fn max_encoded_len() -> (n: usize) {
        assert forall|v: u64| v.encodable() implies #[trigger] v.spec_encode().len() <= 8 by {
            lemma_le_bytes_len(v as nat, 8);
        }
        8
    }
}

impl MaxEncodedLen for i64 {
    open spec fn spec_max_encoded_len() -> nat {
        8
    }

    fn max_encoded_len() -> (n: usize) {
        assert forall|v: i64| v.encodable() implies #[trigger] v.spec_encode().len() <= 8 by {
            lemma_le_bytes_len(twos(v as int, 8), 8);
        }
        8
    }
}

impl MaxEncodedLen for u128 {
    open spec fn spec_max_encoded_len() -> nat {
        16
    }

    fn max_encoded_len() -> (n: usize) {
        assert forall|v: u128| v.encodable() implies #[trigger] v.spec_encode().len() <= 16 by {
            lemma_le_bytes_len(v as nat, 16);
        }
        16
    }
}

impl MaxEncodedLen for i128 {
    open spec fn spec_max_encoded_len() -> nat {
        16
    }

    fn max_encoded_len() -> (n: usize) {
        assert forall|v: i128| v.encodable() implies #[trigger] v.spec_encode().len() <= 16 by {
            lemma_le_bytes_len(twos(v as int, 16), 16);
        }
        16
    }
}

impl MaxEncodedLen for bool {
    open spec fn spec_max_encoded_len() -> nat {
        1
    }

    fn max_encoded_len() -> (n: usize) {
        1
    }
}

impl MaxEncodedLen for () {
    open spec fn spec_max_encoded_len() -> nat {
        0
    }

    fn max_encoded_len() -> (n: usize) {
        0
    }
}

impl<T> MaxEncodedLen for core::marker::PhantomData<T> {
    open spec fn spec_max_encoded_len() -> nat {
        0
    }

    fn max_encoded_len() -> (n: usize) {
        0
    }
}

impl MaxEncodedLen for Duration {
    open spec fn spec_max_encoded_len() -> nat {
        12
    }

    fn max_encoded_len() -> (n: usize) {
        let a = u64::max_encoded_len();
        let b = u32::max_encoded_len();
        a + b
    }
}

impl<T: MaxEncodedLen> MaxEncodedLen for Option<T> {
    open spec fn spec_max_encoded_len() -> nat {
        T::spec_max_encoded_len() + 1
    }

    fn max_encoded_len() -> (n: usize) {
        let t = T::max_encoded_len();
        proof {
            lemma_saturated_add(T::spec_max_encoded_len(), 1);
        }
        t.saturating_add(1)
    }
}

impl<T: MaxEncodedLen, E: MaxEncodedLen> MaxEncodedLen for Result<T, E> {
    open spec fn spec_max_encoded_len() -> nat {
        if T::spec_max_encoded_len() >= E::spec_max_encoded_len() {
            T::spec_max_encoded_len() + 1
        } else {
            E::spec_max_encoded_len() + 1
        }
    }

    fn max_encoded_len() -> (n: usize) {
        let t = T::max_encoded_len();
        let e = E::max_encoded_len();
        let m = if t >= e {
            t
        } else {
            e
        };
        proof {
            lemma_saturated_add(T::spec_max_encoded_len(), 1);
            lemma_saturated_add(E::spec_max_encoded_len(), 1);
        }
        m.saturating_add(1)
    }
}

impl<T: MaxEncodedLen> MaxEncodedLen for Box<T> {
    open spec fn spec_max_encoded_len() -> nat {
        T::spec_max_encoded_len()
    }

    fn max_encoded_len() -> (n: usize) {
        T::max_encoded_len()
    }
}

impl<T: MaxEncodedLen, const N: usize> MaxEncodedLen for [T; N] {
    open spec fn spec_max_encoded_len() -> nat {
        T::spec_max_encoded_len() * (N as nat)
    }

    fn max_encoded_len() -> (n: usize) {
        let t = T::max_encoded_len();
        assert forall|v: [T; N]| v.encodable() implies #[trigger] v.spec_encode().len()
            <= T::spec_max_encoded_len() * N by {
            assert forall|i: int| 0 <= i < v@.len() implies #[trigger] v@[i].spec_encode().len()
                <= T::spec_max_encoded_len() by {
                assert(v@[i].encodable());
            }
            lemma_items_encoding_bound(v@, T::spec_max_encoded_len());
            vstd::array::array_len_matches_n(&v);
        }
        let n = mul_or_max(t, N);
        proof {
            let m = T::spec_max_encoded_len();
            if N == 0 {
                assert(m * (N as nat) == 0);
                assert(t * N == 0);
            } else if m > usize::MAX {
                assert(m * (N as nat) >= m) by (nonlinear_arith)
                    requires
                        N > 0,
                ;
                assert(t * N >= t) by (nonlinear_arith)
                    requires
                        N > 0,
                ;
            } else {
                assert(t == m);
            }
        }
        n
    }
}

impl MaxEncodedLen for Compact<u8> {
    open spec fn spec_max_encoded_len() -> nat {
        2
    }

    fn max_encoded_len() -> (n: usize) {
        assert forall|v: Compact<u8>| v.encodable() implies #[trigger] v.spec_encode().len()
            <= 2 by {
            lemma_compact_encoding_len(v.0 as nat);
        }
        2
    }
}

impl MaxEncodedLen for Compact<u16> {
    open spec fn spec_max_encoded_len() -> nat {
        4
    }

    fn max_encoded_len() -> (n: usize) {
        assert forall|v: Compact<u16>| v.encodable() implies #[trigger] v.spec_encode().len()
            <= 4 by {
            lemma_compact_encoding_len(v.0 as nat);
        }
        4
    }
}

impl MaxEncodedLen for Compact<u32> {
    open spec fn spec_max_encoded_len() -> nat {
        5
    }

    fn max_encoded_len() -> (n: usize) {
        assert forall|v: Compact<u32>| v.encodable() implies #[trigger] v.spec_encode().len()
            <= 5 by {
            lemma_compact_u32(v.0 as nat);
        }
        5
    }
}

impl MaxEncodedLen for Compact<u64> {
    open spec fn spec_max_encoded_len() -> nat {
        9
    }

    fn max_encoded_len() -> (n: usize) {
        assert forall|v: Compact<u64>| v.encodable() implies #[trigger] v.spec_encode().len()
            <= 9 by {
            lemma_compact_u64(v.0 as nat);
        }
        9
    }
}

impl MaxEncodedLen for Compact<u128> {
    open spec fn spec_max_encoded_len() -> nat {
        17
    }

    fn max_encoded_len() -> (n: usize) {
        assert forall|v: Compact<u128>| v.encodable() implies #[trigger] v.spec_encode().len()
            <= 17 by {
            lemma_compact_u128(v.0 as nat);
        }
        17
    }
}

impl MaxEncodedLen for Compact<()> {
    open spec fn spec_max_encoded_len() -> nat {
        0
    }

    fn max_encoded_len() -> (n: usize) {
        0
    }
}

impl<A: MaxEncodedLen> MaxEncodedLen for (A,) {
    open spec fn spec_max_encoded_len() -> nat {
        A::spec_max_encoded_len()
    }

    fn max_encoded_len() -> (n: usize) {
        let mut n: usize = A::max_encoded_len();
        let ghost mut s: nat = A::spec_max_encoded_len();
        n
    }
}

impl<A: MaxEncodedLen, B: MaxEncodedLen> MaxEncodedLen for (A, B) {
    open spec fn spec_max_encoded_len() -> nat {
        A::spec_max_encoded_len() + B::spec_max_encoded_len()
    }

    fn max_encoded_len() -> (n: usize) {
        let mut n: usize = A::max_encoded_len();
        let ghost mut s: nat = A::spec_max_encoded_len();
        let m = B::max_encoded_len();
        proof {
            lemma_saturated_add(s, B::spec_max_encoded_len());
        }
        n = n.saturating_add(m);
        proof {
            s = s + B::spec_max_encoded_len();
        }
        n
    }
}

impl<A: MaxEncodedLen, B: MaxEncodedLen, C: MaxEncodedLen> MaxEncodedLen for (A, B, C) {
    open spec fn spec_max_encoded_len() -> nat {
        A::spec_max_encoded_len() + B::spec_max_encoded_len() + C::spec_max_encoded_len()
    }

    fn max_encoded_len() -> (n: usize) {
        let mut n: usize = A::max_encoded_len();
        let ghost mut s: nat = A::spec_max_encoded_len();
        let m = B::max_encoded_len();
        proof {
            lemma_saturated_add(s, B::spec_max_encoded_len());
        }
        n = n.saturating_add(m);
        proof {
            s = s + B::spec_max_encoded_len();
        }
        let m = C::max_encoded_len();
        proof {
            lemma_saturated_add(s, C::spec_max_encoded_len());
        }
        n = n.saturating_add(m);
        proof {
            s = s + C::spec_max_encoded_len();
        }
        n
    }
}

impl<A: MaxEncodedLen, B: MaxEncodedLen, C: MaxEncodedLen, D: MaxEncodedLen> MaxEncodedLen for (A, B, C, D) {
    open spec fn spec_max_encoded_len() -> nat {
        A::spec_max_encoded_len() + B::spec_max_encoded_len() + C::spec_max_encoded_len() + D::spec_max_encoded_len()
    }

    fn max_encoded_len() -> (n: usize) {
        let mut n: usize = A::max_encoded_len();
        let ghost mut s: nat = A::spec_max_encoded_len();
        let m = B::max_encoded_len();
        proof {
            lemma_saturated_add(s, B::spec_max_encoded_len());
        }
        n = n.saturating_add(m);
        proof {
            s = s + B::spec_max_encoded_len();
        }
        let m = C::max_encoded_len();
        proof {
            lemma_saturated_add(s, C::spec_max_encoded_len());
        }
        n = n.saturating_add(m);
        proof {
            s = s + C::spec_max_encoded_len();
        }
        let m = D::max_encoded_len();
        proof {
            lemma_saturated_add(s, D::spec_max_encoded_len());
        }
        n = n.saturating_add(m);
        proof {
            s = s + D::spec_max_encoded_len();
        }
        n
    }
}

impl<A: MaxEncodedLen, B: MaxEncodedLen, C: MaxEncodedLen, D: MaxEncodedLen, E: MaxEncodedLen> MaxEncodedLen for (A, B, C, D, E) {
    open spec fn spec_max_encoded_len() -> nat {
        A::spec_max_encoded_len() + B::spec_max_encoded_len() + C::spec_max_encoded_len() + D::spec_max_encoded_len() + E::spec_max_encoded_len()
    }

    fn max_encoded_len() -> (n: usize) {
        let mut n: usize = A::max_encoded_len();
        let ghost mut s: nat = A::spec_max_encoded_len();
        let m = B::max_encoded_len();
        proof {
            lemma_saturated_add(s, B::spec_max_encoded_len());
        }
        n = n.saturating_add(m);
        proof {
            s = s + B::spec_max_encoded_len();
        }
        let m = C::max_encoded_len();
        proof {
            lemma_saturated_add(s, C::spec_max_encoded_len());
        }
        n = n.saturating_add(m);
        proof {
            s = s + C::spec_max_encoded_len();
        }
        let m = D::max_encoded_len();
        proof {
            lemma_saturated_add(s, D::spec_max_encoded_len());
        }
        n = n.saturating_add(m);
        proof {
            s = s + D::spec_max_encoded_len();
        }
        let m = E::max_encoded_len();
        proof {
            lemma_saturated_add(s, E::spec_max_encoded_len());
        }
        n = n.saturating_add(m);
        proof {
            s = s + E::spec_max_encoded_len();
        }
        n
    }
}

impl<A: MaxEncodedLen, B: MaxEncodedLen, C: MaxEncodedLen, D: MaxEncodedLen, E: MaxEncodedLen, F: MaxEncodedLen> MaxEncodedLen for (A, B, C, D, E, F) {
    open spec fn spec_max_encoded_len() -> nat {
        A::spec_max_encoded_len() + B::spec_max_encoded_len() + C::spec_max_encoded_len() + D::spec_max_encoded_len() + E::spec_max_encoded_len() + F::spec_max_encoded_len()
    }

    fn max_encoded_len() -> (n: usize) {
        let mut n: usize = A::max_encoded_len();
        let ghost mut s: nat = A::spec_max_encoded_len();
        let m = B::max_encoded_len();
        proof {
            lemma_saturated_add(s, B::spec_max_encoded_len());
        }
        n = n.saturating_add(m);
        proof {
            s = s + B::spec_max_encoded_len();
        }
        let m = C::max_encoded_len();
        proof {
            lemma_saturated_add(s, C::spec_max_encoded_len());
        }
        n = n.saturating_add(m);
        proof {
            s = s + C::spec_max_encoded_len();
        }
        let m = D::max_encoded_len();
        proof {
            lemma_saturated_add(s, D::spec_max_encoded_len());
        }
        n = n.saturating_add(m);
        proof {
            s = s + D::spec_max_encoded_len();
        }
        let m = E::max_encoded_len();
        proof {
            lemma_saturated_add(s, E::spec_max_encoded_len());
        }
        n = n.saturating_add(m);
        proof {
            s = s + E::spec_max_encoded_len();
        }
        let m = F::max_encoded_len();
        proof {
            lemma_saturated_add(s, F::spec_max_encoded_len());
        }
        n = n.saturating_add(m);
        proof {
            s = s + F::spec_max_encoded_len();
        }
        n
    }
}

impl<A: MaxEncodedLen, B: MaxEncodedLen, C: MaxEncodedLen, D: MaxEncodedLen, E: MaxEncodedLen, F: MaxEncodedLen, G: MaxEncodedLen> MaxEncodedLen for (A, B, C, D, E, F, G) {
    open spec fn spec_max_encoded_len() -> nat {
        A::spec_max_encoded_len() + B::spec_max_encoded_len() + C::spec_max_encoded_len() + D::spec_max_encoded_len() + E::spec_max_encoded_len() + F::spec_max_encoded_len() + G::spec_max_encoded_len()
    }

    fn max_encoded_len() -> (n: usize) {
        let mut n: usize = A::max_encoded_len();
        let ghost mut s: nat = A::spec_max_encoded_len();
        let m = B::max_encoded_len();
        proof {
            lemma_saturated_add(s, B::spec_max_encoded_len());
        }
        n = n.saturating_add(m);
        proof {
            s = s + B::spec_max_encoded_len();
        }
        let m = C::max_encoded_len();
        proof {
            lemma_saturated_add(s, C::spec_max_encoded_len());
        }
        n = n.saturating_add(m);
        proof {
            s = s + C::spec_max_encoded_len();
        }
        let m = D::max_encoded_len();
        proof {
            lemma_saturated_add(s, D::spec_max_encoded_len());
        }
        n = n.saturating_add(m);
        proof {
            s = s + D::spec_max_encoded_len();
        }
        let m = E::max_encoded_len();
        proof {
            lemma_saturated_add(s, E::spec_max_encoded_len());
        }
        n = n.saturating_add(m);
        proof {
            s = s + E::spec_max_encoded_len();
        }
        let m = F::max_encoded_len();
        proof {
            lemma_saturated_add(s, F::spec_max_encoded_len());
        }
        n = n.saturating_add(m);
        proof {
            s = s + F::spec_max_encoded_len();
        }
        let m = G::max_encoded_len();
        proof {
            lemma_saturated_add(s, G::spec_max_encoded_len());
        }
        n = n.saturating_add(m);
        proof {
            s = s + G::spec_max_encoded_len();
        }
        n
    }
}

impl<A: MaxEncodedLen, B: MaxEncodedLen, C: MaxEncodedLen, D: MaxEncodedLen, E: MaxEncodedLen, F: MaxEncodedLen, G: MaxEncodedLen, H: MaxEncodedLen> MaxEncodedLen for (A, B, C, D, E, F, G, H) {
    open spec fn spec_max_encoded_len() -> nat {
        A::spec_max_encoded_len() + B::spec_max_encoded_len() + C::spec_max_encoded_len() + D::spec_max_encoded_len() + E::spec_max_encoded_len() + F::spec_max_encoded_len() + G::spec_max_encoded_len() + H::spec_max_encoded_len()
    }

    fn max_encoded_len() -> (n: usize) {
        let mut n: usize = A::max_encoded_len();
        let ghost mut s: nat = A::spec_max_encoded_len();
        let m = B::max_encoded_len();
        proof {
            lemma_saturated_add(s, B::spec_max_encoded_len());
        }
        n = n.saturating_add(m);
        proof {
            s = s + B::spec_max_encoded_len();
        }
        let m = C::max_encoded_len();
        proof {
            lemma_saturated_add(s, C::spec_max_encoded_len());
        }
        n = n.saturating_add(m);
        proof {
            s = s + C::spec_max_encoded_len();
        }
        let m = D::max_encoded_len();
        proof {
            lemma_saturated_add(s, D::spec_max_encoded_len());
        }
        n = n.saturating_add(m);
        proof {
            s = s + D::spec_max_encoded_len();
        }
        let m = E::max_encoded_len();
        proof {
            lemma_saturated_add(s, E::spec_max_encoded_len());
        }
        n = n.saturating_add(m);
        proof {
            s = s + E::spec_max_encoded_len();
        }
        let m = F::max_encoded_len();
        proof {
            lemma_saturated_add(s, F::spec_max_encoded_len());
        }
        n = n.saturating_add(m);
        proof {
            s = s + F::spec_max_encoded_len();
        }
        let m = G::max_encoded_len();
        proof {
            lemma_saturated_add(s, G::spec_max_encoded_len());
        }
        n = n.saturating_add(m);
        proof {
            s = s + G::spec_max_encoded_len();
        }
        let m = H::max_encoded_len();
        proof {
            lemma_saturated_add(s, H::spec_max_encoded_len());
        }
        n = n.saturating_add(m);
        proof {
            s = s + H::spec_max_encoded_len();
        }
        n
    }
}

impl<A: MaxEncodedLen, B: MaxEncodedLen, C: MaxEncodedLen, D: MaxEncodedLen, E: MaxEncodedLen, F: MaxEncodedLen, G: MaxEncodedLen, H: MaxEncodedLen, J: MaxEncodedLen> MaxEncodedLen for (A, B, C, D, E, F, G, H, J) {
    open spec fn spec_max_encoded_len() -> nat {
        A::spec_max_encoded_len() + B::spec_max_encoded_len() + C::spec_max_encoded_len() + D::spec_max_encoded_len() + E::spec_max_encoded_len() + F::spec_max_encoded_len() + G::spec_max_encoded_len() + H::spec_max_encoded_len() + J::spec_max_encoded_len()
    }

    fn max_encoded_len() -> (n: usize) {
        let mut n: usize = A::max_encoded_len();
        let ghost mut s: nat = A::spec_max_encoded_len();
        let m = B::max_encoded_len();
        proof {
            lemma_saturated_add(s, B::spec_max_encoded_len());
        }
        n = n.saturating_add(m);
        proof {
            s = s + B::spec_max_encoded_len();
        }
        let m = C::max_encoded_len();
        proof {
            lemma_saturated_add(s, C::spec_max_encoded_len());
        }
        n = n.saturating_add(m);
        proof {
            s = s + C::spec_max_encoded_len();
        }
        let m = D::max_encoded_len();
        proof {
            lemma_saturated_add(s, D::spec_max_encoded_len());
        }
        n = n.saturating_add(m);
        proof {
            s = s + D::spec_max_encoded_len();
        }
        let m = E::max_encoded_len();
        proof {
            lemma_saturated_add(s, E::spec_max_encoded_len());
        }
        n = n.saturating_add(m);
        proof {
            s = s + E::spec_max_encoded_len();
        }
        let m = F::max_encoded_len();
        proof {
            lemma_saturated_add(s, F::spec_max_encoded_len());
        }
        n = n.saturating_add(m);
        proof {
            s = s + F::spec_max_encoded_len();
        }
        let m = G::max_encoded_len();
        proof {
            lemma_saturated_add(s, G::spec_max_encoded_len());
        }
        n = n.saturating_add(m);
        proof {
            s = s + G::spec_max_encoded_len();
        }
        let m = H::max_encoded_len();
        proof {
            lemma_saturated_add(s, H::spec_max_encoded_len());
        }
        n = n.saturating_add(m);
        proof {
            s = s + H::spec_max_encoded_len();
        }
        let m = J::max_encoded_len();
        proof {
            lemma_saturated_add(s, J::spec_max_encoded_len());
        }
        n = n.saturating_add(m);
        proof {
            s = s + J::spec_max_encoded_len();
        }
        n
    }
}

impl<A: MaxEncodedLen, B: MaxEncodedLen, C: MaxEncodedLen, D: MaxEncodedLen, E: MaxEncodedLen, F: MaxEncodedLen, G: MaxEncodedLen, H: MaxEncodedLen, J: MaxEncodedLen, K: MaxEncodedLen> MaxEncodedLen for (A, B, C, D, E, F, G, H, J, K) {
    open spec fn spec_max_encoded_len() -> nat {
        A::spec_max_encoded_len() + B::spec_max_encoded_len() + C::spec_max_encoded_len() + D::spec_max_encoded_len() + E::spec_max_encoded_len() + F::spec_max_encoded_len() + G::spec_max_encoded_len() + H::spec_max_encoded_len() + J::spec_max_encoded_len() + K::spec_max_encoded_len()
    }

    fn max_encoded_len() -> (n: usize) {
        let mut n: usize = A::max_encoded_len();
        let ghost mut s: nat = A::spec_max_encoded_len();
        let m = B::max_encoded_len();
        proof {
            lemma_saturated_add(s, B::spec_max_encoded_len());
        }
        n = n.saturating_add(m);
        proof {
            s = s + B::spec_max_encoded_len();
        }
        let m = C::max_encoded_len();
        proof {
            lemma_saturated_add(s, C::spec_max_encoded_len());
        }
        n = n.saturating_add(m);
        proof {
            s = s + C::spec_max_encoded_len();
        }
        let m = D::max_encoded_len();
        proof {
            lemma_saturated_add(s, D::spec_max_encoded_len());
        }
        n = n.saturating_add(m);
        proof {
            s = s + D::spec_max_encoded_len();
        }
        let m = E::max_encoded_len();
        proof {
            lemma_saturated_add(s, E::spec_max_encoded_len());
        }
        n = n.saturating_add(m);
        proof {
            s = s + E::spec_max_encoded_len();
        }
        let m = F::max_encoded_len();
        proof {
            lemma_saturated_add(s, F::spec_max_encoded_len());
        }
        n = n.saturating_add(m);
        proof {
            s = s + F::spec_max_encoded_len();
        }
        let m = G::max_encoded_len();
        proof {
            lemma_saturated_add(s, G::spec_max_encoded_len());
        }
        n = n.saturating_add(m);
        proof {
            s = s + G::spec_max_encoded_len();
        }
        let m = H::max_encoded_len();
        proof {
            lemma_saturated_add(s, H::spec_max_encoded_len());
        }
        n = n.saturating_add(m);
        proof {
            s = s + H::spec_max_encoded_len();
        }
        let m = J::max_encoded_len();
        proof {
            lemma_saturated_add(s, J::spec_max_encoded_len());
        }
        n = n.saturating_add(m);
        proof {
            s = s + J::spec_max_encoded_len();
        }
        let m = K::max_encoded_len();
        proof {
            lemma_saturated_add(s, K::spec_max_encoded_len());
        }
        n = n.saturating_add(m);
        proof {
            s = s + K::spec_max_encoded_len();
        }
        n
    }
}

impl<A: MaxEncodedLen, B: MaxEncodedLen, C: MaxEncodedLen, D: MaxEncodedLen, E: MaxEncodedLen, F: MaxEncodedLen, G: MaxEncodedLen, H: MaxEncodedLen, J: MaxEncodedLen, K: MaxEncodedLen, L: MaxEncodedLen> MaxEncodedLen for (A, B, C, D, E, F, G, H, J, K, L) {
    open spec fn spec_max_encoded_len() -> nat {
        A::spec_max_encoded_len() + B::spec_max_encoded_len() + C::spec_max_encoded_len() + D::spec_max_encoded_len() + E::spec_max_encoded_len() + F::spec_max_encoded_len() + G::spec_max_encoded_len() + H::spec_max_encoded_len() + J::spec_max_encoded_len() + K::spec_max_encoded_len() + L::spec_max_encoded_len()
    }

    fn max_encoded_len() -> (n: usize) {
        let mut n: usize = A::max_encoded_len();
        let ghost mut s: nat = A::spec_max_encoded_len();
        let m = B::max_encoded_len();
        proof {
            lemma_saturated_add(s, B::spec_max_encoded_len());
        }
        n = n.saturating_add(m);
        proof {
            s = s + B::spec_max_encoded_len();
        }
        let m = C::max_encoded_len();
        proof {
            lemma_saturated_add(s, C::spec_max_encoded_len());
        }
        n = n.saturating_add(m);
        proof {
            s = s + C::spec_max_encoded_len();
        }
        let m = D::max_encoded_len();
        proof {
            lemma_saturated_add(s, D::spec_max_encoded_len());
        }
        n = n.saturating_add(m);
        proof {
            s = s + D::spec_max_encoded_len();
        }
        let m = E::max_encoded_len();
        proof {
            lemma_saturated_add(s, E::spec_max_encoded_len());
        }
        n = n.saturating_add(m);
        proof {
            s = s + E::spec_max_encoded_len();
        }
        let m = F::max_encoded_len();
        proof {
            lemma_saturated_add(s, F::spec_max_encoded_len());
        }
        n = n.saturating_add(m);
        proof {
            s = s + F::spec_max_encoded_len();
        }
        let m = G::max_encoded_len();
        proof {
            lemma_saturated_add(s, G::spec_max_encoded_len());
        }
        n = n.saturating_add(m);
        proof {
            s = s + G::spec_max_encoded_len();
        }
        let m = H::max_encoded_len();
        proof {
            lemma_saturated_add(s, H::spec_max_encoded_len());
        }
        n = n.saturating_add(m);
        proof {
            s = s + H::spec_max_encoded_len();
        }
        let m = J::max_encoded_len();
        proof {
            lemma_saturated_add(s, J::spec_max_encoded_len());
        }
        n = n.saturating_add(m);
        proof {
            s = s + J::spec_max_encoded_len();
        }
        let m = K::max_encoded_len();
        proof {
            lemma_saturated_add(s, K::spec_max_encoded_len());
        }
        n = n.saturating_add(m);
        proof {
            s = s + K::spec_max_encoded_len();
        }
        let m = L::max_encoded_len();
        proof {
            lemma_saturated_add(s, L::spec_max_encoded_len());
        }
        n = n.saturating_add(m);
        proof {
            s = s + L::spec_max_encoded_len();
        }
        n
    }
}

impl<A: MaxEncodedLen, B: MaxEncodedLen, C: MaxEncodedLen, D: MaxEncodedLen, E: MaxEncodedLen, F: MaxEncodedLen, G: MaxEncodedLen, H: MaxEncodedLen, J: MaxEncodedLen, K: MaxEncodedLen, L: MaxEncodedLen, M: MaxEncodedLen> MaxEncodedLen for (A, B, C, D, E, F, G, H, J, K, L, M) {
    open spec fn spec_max_encoded_len() -> nat {
        A::spec_max_encoded_len() + B::spec_max_encoded_len() + C::spec_max_encoded_len() + D::spec_max_encoded_len() + E::spec_max_encoded_len() + F::spec_max_encoded_len() + G::spec_max_encoded_len() + H::spec_max_encoded_len() + J::spec_max_encoded_len() + K::spec_max_encoded_len() + L::spec_max_encoded_len() + M::spec_max_encoded_len()
    }

    fn max_encoded_len() -> (n: usize) {
        let mut n: usize = A::max_encoded_len();
        let ghost mut s: nat = A::spec_max_encoded_len();
        let m = B::max_encoded_len();
        proof {
            lemma_saturated_add(s, B::spec_max_encoded_len());
        }
        n = n.saturating_add(m);
        proof {
            s = s + B::spec_max_encoded_len();
        }
        let m = C::max_encoded_len();
        proof {
            lemma_saturated_add(s, C::spec_max_encoded_len());
        }
        n = n.saturating_add(m);
        proof {
            s = s + C::spec_max_encoded_len();
        }
        let m = D::max_encoded_len();
        proof {
            lemma_saturated_add(s, D::spec_max_encoded_len());
        }
        n = n.saturating_add(m);
        proof {
            s = s + D::spec_max_encoded_len();
        }
        let m = E::max_encoded_len();
        proof {
            lemma_saturated_add(s, E::spec_max_encoded_len());
        }
        n = n.saturating_add(m);
        proof {
            s = s + E::spec_max_encoded_len();
        }
        let m = F::max_encoded_len();
        proof {
            lemma_saturated_add(s, F::spec_max_encoded_len());
        }
        n = n.saturating_add(m);
        proof {
            s = s + F::spec_max_encoded_len();
        }
        let m = G::max_encoded_len();
        proof {
            lemma_saturated_add(s, G::spec_max_encoded_len());
        }
        n = n.saturating_add(m);
        proof {
            s = s + G::spec_max_encoded_len();
        }
        let m = H::max_encoded_len();
        proof {
            lemma_saturated_add(s, H::spec_max_encoded_len());
        }
        n = n.saturating_add(m);
        proof {
            s = s + H::spec_max_encoded_len();
        }
        let m = J::max_encoded_len();
        proof {
            lemma_saturated_add(s, J::spec_max_encoded_len());
        }
        n = n.saturating_add(m);
        proof {
            s = s + J::spec_max_encoded_len();
        }
        let m = K::max_encoded_len();
        proof {
            lemma_saturated_add(s, K::spec_max_encoded_len());
        }
        n = n.saturating_add(m);
        proof {
            s = s + K::spec_max_encoded_len();
        }
        let m = L::max_encoded_len();
        proof {
            lemma_saturated_add(s, L::spec_max_encoded_len());
        }
        n = n.saturating_add(m);
        proof {
            s = s + L::spec_max_encoded_len();
        }
        let m = M::max_encoded_len();
        proof {
            lemma_saturated_add(s, M::spec_max_encoded_len());
        }
        n = n.saturating_add(m);
        proof {
            s = s + M::spec_max_encoded_len();
        }
        n
    }
}

impl<A: MaxEncodedLen, B: MaxEncodedLen, C: MaxEncodedLen, D: MaxEncodedLen, E: MaxEncodedLen, F: MaxEncodedLen, G: MaxEncodedLen, H: MaxEncodedLen, J: MaxEncodedLen, K: MaxEncodedLen, L: MaxEncodedLen, M: MaxEncodedLen, N: MaxEncodedLen> MaxEncodedLen for (A, B, C, D, E, F, G, H, J, K, L, M, N) {
    open spec fn spec_max_encoded_len() -> nat {
        A::spec_max_encoded_len() + B::spec_max_encoded_len() + C::spec_max_encoded_len() + D::spec_max_encoded_len() + E::spec_max_encoded_len() + F::spec_max_encoded_len() + G::spec_max_encoded_len() + H::spec_max_encoded_len() + J::spec_max_encoded_len() + K::spec_max_encoded_len() + L::spec_max_encoded_len() + M::spec_max_encoded_len() + N::spec_max_encoded_len()
    }

    fn max_encoded_len() -> (n: usize) {
        let mut n: usize = A::max_encoded_len();
        let ghost mut s: nat = A::spec_max_encoded_len();
        let m = B::max_encoded_len();
        proof {
            lemma_saturated_add(s, B::spec_max_encoded_len());
        }
        n = n.saturating_add(m);
        proof {
            s = s + B::spec_max_encoded_len();
        }
        let m = C::max_encoded_len();
        proof {
            lemma_saturated_add(s, C::spec_max_encoded_len());
        }
        n = n.saturating_add(m);
        proof {
            s = s + C::spec_max_encoded_len();
        }
        let m = D::max_encoded_len();
        proof {
            lemma_saturated_add(s, D::spec_max_encoded_len());
        }
        n = n.saturating_add(m);
        proof {
            s = s + D::spec_max_encoded_len();
        }
        let m = E::max_encoded_len();
        proof {
            lemma_saturated_add(s, E::spec_max_encoded_len());
        }
        n = n.saturating_add(m);
        proof {
            s = s + E::spec_max_encoded_len();
        }
        let m = F::max_encoded_len();
        proof {
            lemma_saturated_add(s, F::spec_max_encoded_len());
        }
        n = n.saturating_add(m);
        proof {
            s = s + F::spec_max_encoded_len();
        }
        let m = G::max_encoded_len();
        proof {
            lemma_saturated_add(s, G::spec_max_encoded_len());
        }
        n = n.saturating_add(m);
        proof {
            s = s + G::spec_max_encoded_len();
        }
        let m = H::max_encoded_len();
        proof {
            lemma_saturated_add(s, H::spec_max_encoded_len());
        }
        n = n.saturating_add(m);
        proof {
            s = s + H::spec_max_encoded_len();
        }
        let m = J::max_encoded_len();
        proof {
            lemma_saturated_add(s, J::spec_max_encoded_len());
        }
        n = n.saturating_add(m);
        proof {
            s = s + J::spec_max_encoded_len();
        }
        let m = K::max_encoded_len();
        proof {
            lemma_saturated_add(s, K::spec_max_encoded_len());
        }
        n = n.saturating_add(m);
        proof {
            s = s + K::spec_max_encoded_len();
        }
        let m = L::max_encoded_len();
        proof {
            lemma_saturated_add(s, L::spec_max_encoded_len());
        }
        n = n.saturating_add(m);
        proof {
            s = s + L::spec_max_encoded_len();
        }
        let m = M::max_encoded_len();
        proof {
            lemma_saturated_add(s, M::spec_max_encoded_len());
        }
        n = n.saturating_add(m);
        proof {
            s = s + M::spec_max_encoded_len();
        }
        let m = N::max_encoded_len();
        proof {
            lemma_saturated_add(s, N::spec_max_encoded_len());
        }
        n = n.saturating_add(m);
        proof {
            s = s + N::spec_max_encoded_len();
        }
        n
    }
}

impl<A: MaxEncodedLen, B: MaxEncodedLen, C: MaxEncodedLen, D: MaxEncodedLen, E: MaxEncodedLen, F: MaxEncodedLen, G: MaxEncodedLen, H: MaxEncodedLen, J: MaxEncodedLen, K: MaxEncodedLen, L: MaxEncodedLen, M: MaxEncodedLen, N: MaxEncodedLen, O: MaxEncodedLen> MaxEncodedLen for (A, B, C, D, E, F, G, H, J, K, L, M, N, O) {
    open spec fn spec_max_encoded_len() -> nat {
        A::spec_max_encoded_len() + B::spec_max_encoded_len() + C::spec_max_encoded_len() + D::spec_max_encoded_len() + E::spec_max_encoded_len() + F::spec_max_encoded_len() + G::spec_max_encoded_len() + H::spec_max_encoded_len() + J::spec_max_encoded_len() + K::spec_max_encoded_len() + L::spec_max_encoded_len() + M::spec_max_encoded_len() + N::spec_max_encoded_len() + O::spec_max_encoded_len()
    }

    fn max_encoded_len() -> (n: usize) {
        let mut n: usize = A::max_encoded_len();
        let ghost mut s: nat = A::spec_max_encoded_len();
        let m = B::max_encoded_len();
        proof {
            lemma_saturated_add(s, B::spec_max_encoded_len());
        }
        n = n.saturating_add(m);
        proof {
            s = s + B::spec_max_encoded_len();
        }
        let m = C::max_encoded_len();
        proof {
            lemma_saturated_add(s, C::spec_max_encoded_len());
        }
        n = n.saturating_add(m);
        proof {
            s = s + C::spec_max_encoded_len();
        }
        let m = D::max_encoded_len();
        proof {
            lemma_saturated_add(s, D::spec_max_encoded_len());
        }
        n = n.saturating_add(m);
        proof {
            s = s + D::spec_max_encoded_len();
        }
        let m = E::max_encoded_len();
        proof {
            lemma_saturated_add(s, E::spec_max_encoded_len());
        }
        n = n.saturating_add(m);
        proof {
            s = s + E::spec_max_encoded_len();
        }
        let m = F::max_encoded_len();
        proof {
            lemma_saturated_add(s, F::spec_max_encoded_len());
        }
        n = n.saturating_add(m);
        proof {
            s = s + F::spec_max_encoded_len();
        }
        let m = G::max_encoded_len();
        proof {
            lemma_saturated_add(s, G::spec_max_encoded_len());
        }
        n = n.saturating_add(m);
        proof {
            s = s + G::spec_max_encoded_len();
        }
        let m = H::max_encoded_len();
        proof {
            lemma_saturated_add(s, H::spec_max_encoded_len());
        }
        n = n.saturating_add(m);
        proof {
            s = s + H::spec_max_encoded_len();
        }
        let m = J::max_encoded_len();
        proof {
            lemma_saturated_add(s, J::spec_max_encoded_len());
        }
        n = n.saturating_add(m);
        proof {
            s = s + J::spec_max_encoded_len();
        }
        let m = K::max_encoded_len();
        proof {
            lemma_saturated_add(s, K::spec_max_encoded_len());
        }
        n = n.saturating_add(m);
        proof {
            s = s + K::spec_max_encoded_len();
        }
        let m = L::max_encoded_len();
        proof {
            lemma_saturated_add(s, L::spec_max_encoded_len());
        }
        n = n.saturating_add(m);
        proof {
            s = s + L::spec_max_encoded_len();
        }
        let m = M::max_encoded_len();
        proof {
            lemma_saturated_add(s, M::spec_max_encoded_len());
        }
        n = n.saturating_add(m);
        proof {
            s = s + M::spec_max_encoded_len();
        }
        let m = N::max_encoded_len();
        proof {
            lemma_saturated_add(s, N::spec_max_encoded_len());
        }
        n = n.saturating_add(m);
        proof {
            s = s + N::spec_max_encoded_len();
        }
        let m = O::max_encoded_len();
        proof {
            lemma_saturated_add(s, O::spec_max_encoded_len());
        }
        n = n.saturating_add(m);
        proof {
            s = s + O::spec_max_encoded_len();
        }
        n
    }
}

impl<A: MaxEncodedLen, B: MaxEncodedLen, C: MaxEncodedLen, D: MaxEncodedLen, E: MaxEncodedLen, F: MaxEncodedLen, G: MaxEncodedLen, H: MaxEncodedLen, J: MaxEncodedLen, K: MaxEncodedLen, L: MaxEncodedLen, M: MaxEncodedLen, N: MaxEncodedLen, O: MaxEncodedLen, P: MaxEncodedLen> MaxEncodedLen for (A, B, C, D, E, F, G, H, J, K, L, M, N, O, P) {
    open spec fn spec_max_encoded_len() -> nat {
        A::spec_max_encoded_len() + B::spec_max_encoded_len() + C::spec_max_encoded_len() + D::spec_max_encoded_len() + E::spec_max_encoded_len() + F::spec_max_encoded_len() + G::spec_max_encoded_len() + H::spec_max_encoded_len() + J::spec_max_encoded_len() + K::spec_max_encoded_len() + L::spec_max_encoded_len() + M::spec_max_encoded_len() + N::spec_max_encoded_len() + O::spec_max_encoded_len() + P::spec_max_encoded_len()
    }

    fn max_encoded_len() -> (n: usize) {
        let mut n: usize = A::max_encoded_len();
        let ghost mut s: nat = A::spec_max_encoded_len();
        let m = B::max_encoded_len();
        proof {
            lemma_saturated_add(s, B::spec_max_encoded_len());
        }
        n = n.saturating_add(m);
        proof {
            s = s + B::spec_max_encoded_len();
        }
        let m = C::max_encoded_len();
        proof {
            lemma_saturated_add(s, C::spec_max_encoded_len());
        }
        n = n.saturating_add(m);
        proof {
            s = s + C::spec_max_encoded_len();
        }
        let m = D::max_encoded_len();
        proof {
            lemma_saturated_add(s, D::spec_max_encoded_len());
        }
        n = n.saturating_add(m);
        proof {
            s = s + D::spec_max_encoded_len();
        }
        let m = E::max_encoded_len();
        proof {
            lemma_saturated_add(s, E::spec_max_encoded_len());
        }
        n = n.saturating_add(m);
        proof {
            s = s + E::spec_max_encoded_len();
        }
        let m = F::max_encoded_len();
        proof {
            lemma_saturated_add(s, F::spec_max_encoded_len());
        }
        n = n.saturating_add(m);
        proof {
            s = s + F::spec_max_encoded_len();
        }
        let m = G::max_encoded_len();
        proof {
            lemma_saturated_add(s, G::spec_max_encoded_len());
        }
        n = n.saturating_add(m);
        proof {
            s = s + G::spec_max_encoded_len();
        }
        let m = H::max_encoded_len();
        proof {
            lemma_saturated_add(s, H::spec_max_encoded_len());
        }
        n = n.saturating_add(m);
        proof {
            s = s + H::spec_max_encoded_len();
        }
        let m = J::max_encoded_len();
        proof {
            lemma_saturated_add(s, J::spec_max_encoded_len());
        }
        n = n.saturating_add(m);
        proof {
            s = s + J::spec_max_encoded_len();
        }
        let m = K::max_encoded_len();
        proof {
            lemma_saturated_add(s, K::spec_max_encoded_len());
        }
        n = n.saturating_add(m);
        proof {
            s = s + K::spec_max_encoded_len();
        }
        let m = L::max_encoded_len();
        proof {
            lemma_saturated_add(s, L::spec_max_encoded_len());
        }
        n = n.saturating_add(m);
        proof {
            s = s + L::spec_max_encoded_len();
        }
        let m = M::max_encoded_len();
        proof {
            lemma_saturated_add(s, M::spec_max_encoded_len());
        }
        n = n.saturating_add(m);
        proof {
            s = s + M::spec_max_encoded_len();
        }
        let m = N::max_encoded_len();
        proof {
            lemma_saturated_add(s, N::spec_max_encoded_len());
        }
        n = n.saturating_add(m);
        proof {
            s = s + N::spec_max_encoded_len();
        }
        let m = O::max_encoded_len();
        proof {
            lemma_saturated_add(s, O::spec_max_encoded_len());
        }
        n = n.saturating_add(m);
        proof {
            s = s + O::spec_max_encoded_len();
        }
        let m = P::max_encoded_len();
        proof {
            lemma_saturated_add(s, P::spec_max_encoded_len());
        }
        n = n.saturating_add(m);
        proof {
            s = s + P::spec_max_encoded_len();
        }
        n
    }
}

impl<A: MaxEncodedLen, B: MaxEncodedLen, C: MaxEncodedLen, D: MaxEncodedLen, E: MaxEncodedLen, F: MaxEncodedLen, G: MaxEncodedLen, H: MaxEncodedLen, J: MaxEncodedLen, K: MaxEncodedLen, L: MaxEncodedLen, M: MaxEncodedLen, N: MaxEncodedLen, O: MaxEncodedLen, P: MaxEncodedLen, Q: MaxEncodedLen> MaxEncodedLen for (A, B, C, D, E, F, G, H, J, K, L, M, N, O, P, Q) {
    open spec fn spec_max_encoded_len() -> nat {
        A::spec_max_encoded_len() + B::spec_max_encoded_len() + C::spec_max_encoded_len() + D::spec_max_encoded_len() + E::spec_max_encoded_len() + F::spec_max_encoded_len() + G::spec_max_encoded_len() + H::spec_max_encoded_len() + J::spec_max_encoded_len() + K::spec_max_encoded_len() + L::spec_max_encoded_len() + M::spec_max_encoded_len() + N::spec_max_encoded_len() + O::spec_max_encoded_len() + P::spec_max_encoded_len() + Q::spec_max_encoded_len()
    }

    fn max_encoded_len() -> (n: usize) {
        let mut n: usize = A::max_encoded_len();
        let ghost mut s: nat = A::spec_max_encoded_len();
        let m = B::max_encoded_len();
        proof {
            lemma_saturated_add(s, B::spec_max_encoded_len());
        }
        n = n.saturating_add(m);
        proof {
            s = s + B::spec_max_encoded_len();
        }
        let m = C::max_encoded_len();
        proof {
            lemma_saturated_add(s, C::spec_max_encoded_len());
        }
        n = n.saturating_add(m);
        proof {
            s = s + C::spec_max_encoded_len();
        }
        let m = D::max_encoded_len();
        proof {
            lemma_saturated_add(s, D::spec_max_encoded_len());
        }
        n = n.saturating_add(m);
        proof {
            s = s + D::spec_max_encoded_len();
        }
        let m = E::max_encoded_len();
        proof {
            lemma_saturated_add(s, E::spec_max_encoded_len());
        }
        n = n.saturating_add(m);
        proof {
            s = s + E::spec_max_encoded_len();
        }
        let m = F::max_encoded_len();
        proof {
            lemma_saturated_add(s, F::spec_max_encoded_len());
        }
        n = n.saturating_add(m);
        proof {
            s = s + F::spec_max_encoded_len();
        }
        let m = G::max_encoded_len();
        proof {
            lemma_saturated_add(s, G::spec_max_encoded_len());
        }
        n = n.saturating_add(m);
        proof {
            s = s + G::spec_max_encoded_len();
        }
        let m = H::max_encoded_len();
        proof {
            lemma_saturated_add(s, H::spec_max_encoded_len());
        }
        n = n.saturating_add(m);
        proof {
            s = s + H::spec_max_encoded_len();
        }
        let m = J::max_encoded_len();
        proof {
            lemma_saturated_add(s, J::spec_max_encoded_len());
        }
        n = n.saturating_add(m);
        proof {
            s = s + J::spec_max_encoded_len();
        }
        let m = K::max_encoded_len();
        proof {
            lemma_saturated_add(s, K::spec_max_encoded_len());
        }
        n = n.saturating_add(m);
        proof {
            s = s + K::spec_max_encoded_len();
        }
        let m = L::max_encoded_len();
        proof {
            lemma_saturated_add(s, L::spec_max_encoded_len());
        }
        n = n.saturating_add(m);
        proof {
            s = s + L::spec_max_encoded_len();
        }
        let m = M::max_encoded_len();
        proof {
            lemma_saturated_add(s, M::spec_max_encoded_len());
        }
        n = n.saturating_add(m);
        proof {
            s = s + M::spec_max_encoded_len();
        }
        let m = N::max_encoded_len();
        proof {
            lemma_saturated_add(s, N::spec_max_encoded_len());
        }
        n = n.saturating_add(m);
        proof {
            s = s + N::spec_max_encoded_len();
        }
        let m = O::max_encoded_len();
        proof {
            lemma_saturated_add(s, O::spec_max_encoded_len());
        }
        n = n.saturating_add(m);
        proof {
            s = s + O::spec_max_encoded_len();
        }
        let m = P::max_encoded_len();
        proof {
            lemma_saturated_add(s, P::spec_max_encoded_len());
        }
        n = n.saturating_add(m);
        proof {
            s = s + P::spec_max_encoded_len();
        }
        let m = Q::max_encoded_len();
        proof {
            lemma_saturated_add(s, Q::spec_max_encoded_len());
        }
        n = n.saturating_add(m);
        proof {
            s = s + Q::spec_max_encoded_len();
        }
        n
    }
}

impl<A: MaxEncodedLen, B: MaxEncodedLen, C: MaxEncodedLen, D: MaxEncodedLen, E: MaxEncodedLen, F: MaxEncodedLen, G: MaxEncodedLen, H: MaxEncodedLen, J: MaxEncodedLen, K: MaxEncodedLen, L: MaxEncodedLen, M: MaxEncodedLen, N: MaxEncodedLen, O: MaxEncodedLen, P: MaxEncodedLen, Q: MaxEncodedLen, R: MaxEncodedLen> MaxEncodedLen for (A, B, C, D, E, F, G, H, J, K, L, M, N, O, P, Q, R) {
    open spec fn spec_max_encoded_len() -> nat {
        A::spec_max_encoded_len() + B::spec_max_encoded_len() + C::spec_max_encoded_len() + D::spec_max_encoded_len() + E::spec_max_encoded_len() + F::spec_max_encoded_len() + G::spec_max_encoded_len() + H::spec_max_encoded_len() + J::spec_max_encoded_len() + K::spec_max_encoded_len() + L::spec_max_encoded_len() + M::spec_max_encoded_len() + N::spec_max_encoded_len() + O::spec_max_encoded_len() + P::spec_max_encoded_len() + Q::spec_max_encoded_len() + R::spec_max_encoded_len()
    }

    fn max_encoded_len() -> (n: usize) {
        let mut n: usize = A::max_encoded_len();
        let ghost mut s: nat = A::spec_max_encoded_len();
        let m = B::max_encoded_len();
        proof {
            lemma_saturated_add(s, B::spec_max_encoded_len());
        }
        n = n.saturating_add(m);
        proof {
            s = s + B::spec_max_encoded_len();
        }
        let m = C::max_encoded_len();
        proof {
            lemma_saturated_add(s, C::spec_max_encoded_len());
        }
        n = n.saturating_add(m);
        proof {
            s = s + C::spec_max_encoded_len();
        }
        let m = D::max_encoded_len();
        proof {
            lemma_saturated_add(s, D::spec_max_encoded_len());
        }
        n = n.saturating_add(m);
        proof {
            s = s + D::spec_max_encoded_len();
        }
        let m = E::max_encoded_len();
        proof {
            lemma_saturated_add(s, E::spec_max_encoded_len());
        }
        n = n.saturating_add(m);
        proof {
            s = s + E::spec_max_encoded_len();
        }
        let m = F::max_encoded_len();
        proof {
            lemma_saturated_add(s, F::spec_max_encoded_len());
        }
        n = n.saturating_add(m);
        proof {
            s = s + F::spec_max_encoded_len();
        }
        let m = G::max_encoded_len();
        proof {
            lemma_saturated_add(s, G::spec_max_encoded_len());
        }
        n = n.saturating_add(m);
        proof {
            s = s + G::spec_max_encoded_len();
        }
        let m = H::max_encoded_len();
        proof {
            lemma_saturated_add(s, H::spec_max_encoded_len());
        }
        n = n.saturating_add(m);
        proof {
            s = s + H::spec_max_encoded_len();
        }
        let m = J::max_encoded_len();
        proof {
            lemma_saturated_add(s, J::spec_max_encoded_len());
        }
        n = n.saturating_add(m);
        proof {
            s = s + J::spec_max_encoded_len();
        }
        let m = K::max_encoded_len();
        proof {
            lemma_saturated_add(s, K::spec_max_encoded_len());
        }
        n = n.saturating_add(m);
        proof {
            s = s + K::spec_max_encoded_len();
        }
        let m = L::max_encoded_len();
        proof {
            lemma_saturated_add(s, L::spec_max_encoded_len());
        }
        n = n.saturating_add(m);
        proof {
            s = s + L::spec_max_encoded_len();
        }
        let m = M::max_encoded_len();
        proof {
            lemma_saturated_add(s, M::spec_max_encoded_len());
        }
        n = n.saturating_add(m);
        proof {
            s = s + M::spec_max_encoded_len();
        }
        let m = N::max_encoded_len();
        proof {
            lemma_saturated_add(s, N::spec_max_encoded_len());
        }
        n = n.saturating_add(m);
        proof {
            s = s + N::spec_max_encoded_len();
        }
        let m = O::max_encoded_len();
        proof {
            lemma_saturated_add(s, O::spec_max_encoded_len());
        }
        n = n.saturating_add(m);
        proof {
            s = s + O::spec_max_encoded_len();
        }
        let m = P::max_encoded_len();
        proof {
            lemma_saturated_add(s, P::spec_max_encoded_len());
        }
        n = n.saturating_add(m);
        proof {
            s = s + P::spec_max_encoded_len();
        }
        let m = Q::max_encoded_len();
        proof {
            lemma_saturated_add(s, Q::spec_max_encoded_len());
        }
        n = n.saturating_add(m);
        proof {
            s = s + Q::spec_max_encoded_len();
        }
        let m = R::max_encoded_len();
        proof {
            lemma_saturated_add(s, R::spec_max_encoded_len());
        }
        n = n.saturating_add(m);
        proof {
            s = s + R::spec_max_encoded_len();
        }
        n
    }
}

impl<A: MaxEncodedLen, B: MaxEncodedLen, C: MaxEncodedLen, D: MaxEncodedLen, E: MaxEncodedLen, F: MaxEncodedLen, G: MaxEncodedLen, H: MaxEncodedLen, J: MaxEncodedLen, K: MaxEncodedLen, L: MaxEncodedLen, M: MaxEncodedLen, N: MaxEncodedLen, O: MaxEncodedLen, P: MaxEncodedLen, Q: MaxEncodedLen, R: MaxEncodedLen, S: MaxEncodedLen> MaxEncodedLen for (A, B, C, D, E, F, G, H, J, K, L, M, N, O, P, Q, R, S) {
    open spec fn spec_max_encoded_len() -> nat {
        A::spec_max_encoded_len() + B::spec_max_encoded_len() + C::spec_max_encoded_len() + D::spec_max_encoded_len() + E::spec_max_encoded_len() + F::spec_max_encoded_len() + G::spec_max_encoded_len() + H::spec_max_encoded_len() + J::spec_max_encoded_len() + K::spec_max_encoded_len() + L::spec_max_encoded_len() + M::spec_max_encoded_len() + N::spec_max_encoded_len() + O::spec_max_encoded_len() + P::spec_max_encoded_len() + Q::spec_max_encoded_len() + R::spec_max_encoded_len() + S::spec_max_encoded_len()
    }

    fn max_encoded_len() -> (n: usize) {
        let mut n: usize = A::max_encoded_len();
        let ghost mut s: nat = A::spec_max_encoded_len();
        let m = B::max_encoded_len();
        proof {
            lemma_saturated_add(s, B::spec_max_encoded_len());
        }
        n = n.saturating_add(m);
        proof {
            s = s + B::spec_max_encoded_len();
        }
        let m = C::max_encoded_len();
        proof {
            lemma_saturated_add(s, C::spec_max_encoded_len());
        }
        n = n.saturating_add(m);
        proof {
            s = s + C::spec_max_encoded_len();
        }
        let m = D::max_encoded_len();
        proof {
            lemma_saturated_add(s, D::spec_max_encoded_len());
        }
        n = n.saturating_add(m);
        proof {
            s = s + D::spec_max_encoded_len();
        }
        let m = E::max_encoded_len();
        proof {
            lemma_saturated_add(s, E::spec_max_encoded_len());
        }
        n = n.saturating_add(m);
        proof {
            s = s + E::spec_max_encoded_len();
        }
        let m = F::max_encoded_len();
        proof {
            lemma_saturated_add(s, F::spec_max_encoded_len());
        }
        n = n.saturating_add(m);
        proof {
            s = s + F::spec_max_encoded_len();
        }
        let m = G::max_encoded_len();
        proof {
            lemma_saturated_add(s, G::spec_max_encoded_len());
        }
        n = n.saturating_add(m);
        proof {
            s = s + G::spec_max_encoded_len();
        }
        let m = H::max_encoded_len();
        proof {
            lemma_saturated_add(s, H::spec_max_encoded_len());
        }
        n = n.saturating_add(m);
        proof {
            s = s + H::spec_max_encoded_len();
        }
        let m = J::max_encoded_len();
        proof {
            lemma_saturated_add(s, J::spec_max_encoded_len());
        }
        n = n.saturating_add(m);
        proof {
            s = s + J::spec_max_encoded_len();
        }
        let m = K::max_encoded_len();
        proof {
            lemma_saturated_add(s, K::spec_max_encoded_len());
        }
        n = n.saturating_add(m);
        proof {
            s = s + K::spec_max_encoded_len();
        }
        let m = L::max_encoded_len();
        proof {
            lemma_saturated_add(s, L::spec_max_encoded_len());
        }
        n = n.saturating_add(m);
        proof {
            s = s + L::spec_max_encoded_len();
        }
        let m = M::max_encoded_len();
        proof {
            lemma_saturated_add(s, M::spec_max_encoded_len());
        }
        n = n.saturating_add(m);
        proof {
            s = s + M::spec_max_encoded_len();
        }
        let m = N::max_encoded_len();
        proof {
            lemma_saturated_add(s, N::spec_max_encoded_len());
        }
        n = n.saturating_add(m);
        proof {
            s = s + N::spec_max_encoded_len();
        }
        let m = O::max_encoded_len();
        proof {
            lemma_saturated_add(s, O::spec_max_encoded_len());
        }
        n = n.saturating_add(m);
        proof {
            s = s + O::spec_max_encoded_len();
        }
        let m = P::max_encoded_len();
        proof {
            lemma_saturated_add(s, P::spec_max_encoded_len());
        }
        n = n.saturating_add(m);
        proof {
            s = s + P::spec_max_encoded_len();
        }
        let m = Q::max_encoded_len();
        proof {
            lemma_saturated_add(s, Q::spec_max_encoded_len());
        }
        n = n.saturating_add(m);
        proof {
            s = s + Q::spec_max_encoded_len();
        }
        let m = R::max_encoded_len();
        proof {
            lemma_saturated_add(s, R::spec_max_encoded_len());
        }
        n = n.saturating_add(m);
        proof {
            s = s + R::spec_max_encoded_len();
        }
        let m = S::max_encoded_len();
        proof {
            lemma_saturated_add(s, S::spec_max_encoded_len());
        }
        n = n.saturating_add(m);
        proof {
            s = s + S::spec_max_encoded_len();
        }
        n
    }
}


/// Every value of a fixed-width type encodes to exactly its bound: the bound is its width, no
/// more.
pub proof fn lemma_fixed_width_bounds()
    ensures
        forall|v: u8| #[trigger] v.spec_encode().len() == <u8>::spec_max_encoded_len(),
        forall|v: i8| #[trigger] v.spec_encode().len() == <i8>::spec_max_encoded_len(),
        forall|v: u16| #[trigger] v.spec_encode().len() == <u16>::spec_max_encoded_len(),
        forall|v: i16| #[trigger] v.spec_encode().len() == <i16>::spec_max_encoded_len(),
        forall|v: u32| #[trigger] v.spec_encode().len() == <u32>::spec_max_encoded_len(),
        forall|v: i32| #[trigger] v.spec_encode().len() == <i32>::spec_max_encoded_len(),
        forall|v: u64| #[trigger] v.spec_encode().len() == <u64>::spec_max_encoded_len(),
        forall|v: i64| #[trigger] v.spec_encode().len() == <i64>::spec_max_encoded_len(),
        forall|v: u128| #[trigger] v.spec_encode().len() == <u128>::spec_max_encoded_len(),
        forall|v: i128| #[trigger] v.spec_encode().len() == <i128>::spec_max_encoded_len(),
        forall|v: bool| #[trigger] v.spec_encode().len() == <bool>::spec_max_encoded_len(),
        forall|v: ()| #[trigger] v.spec_encode().len() == <()>::spec_max_encoded_len(),
        forall|v: Duration| #[trigger] v.spec_encode().len() == <Duration>::spec_max_encoded_len(),
{
    assert forall|v: u8| #[trigger] v.spec_encode().len() == <u8>::spec_max_encoded_len() by {
        lemma_le_bytes_len(v as nat, 1);
    }
    assert forall|v: i8| #[trigger] v.spec_encode().len() == <i8>::spec_max_encoded_len() by {
        lemma_le_bytes_len(twos(v as int, 1), 1);
    }
    assert forall|v: u16| #[trigger] v.spec_encode().len() == <u16>::spec_max_encoded_len() by {
        lemma_le_bytes_len(v as nat, 2);
    }
    assert forall|v: i16| #[trigger] v.spec_encode().len() == <i16>::spec_max_encoded_len() by {
        lemma_le_bytes_len(twos(v as int, 2), 2);
    }
    assert forall|v: u32| #[trigger] v.spec_encode().len() == <u32>::spec_max_encoded_len() by {
        lemma_le_bytes_len(v as nat, 4);
    }
    assert forall|v: i32| #[trigger] v.spec_encode().len() == <i32>::spec_max_encoded_len() by {
        lemma_le_bytes_len(twos(v as int, 4), 4);
    }
    assert forall|v: u64| #[trigger] v.spec_encode().len() == <u64>::spec_max_encoded_len() by {
        lemma_le_bytes_len(v as nat, 8);
    }
    assert forall|v: i64| #[trigger] v.spec_encode().len() == <i64>::spec_max_encoded_len() by {
        lemma_le_bytes_len(twos(v as int, 8), 8);
    }
    assert forall|v: u128| #[trigger] v.spec_encode().len() == <u128>::spec_max_encoded_len() by {
        lemma_le_bytes_len(v as nat, 16);
    }
    assert forall|v: i128| #[trigger] v.spec_encode().len() == <i128>::spec_max_encoded_len() by {
        lemma_le_bytes_len(twos(v as int, 16), 16);
    }
    assert forall|v: Duration| #[trigger] v.spec_encode().len() == <Duration>::spec_max_encoded_len() by {
        lemma_le_bytes_len(v.spec_secs() as nat, 8);
        lemma_le_bytes_len(v.spec_nanos() as nat, 4);
    }
}

/// The bound of a compact integer is reached, by the largest integer of its width.
pub proof fn lemma_compact_bounds_reached()
    ensures
        Compact(0xffu8).spec_encode().len() == <Compact<u8>>::spec_max_encoded_len(),
        Compact(0xffffu16).spec_encode().len() == <Compact<u16>>::spec_max_encoded_len(),
        Compact(0xffff_ffffu32).spec_encode().len() == <Compact<u32>>::spec_max_encoded_len(),
        Compact(0xffff_ffff_ffff_ffffu64).spec_encode().len() == <Compact<u64>>::spec_max_encoded_len(),
        Compact(0xffff_ffff_ffff_ffff_ffff_ffff_ffff_ffffu128).spec_encode().len()
            == <Compact<u128>>::spec_max_encoded_len(),
        Compact(()).spec_encode().len() == <Compact<()>>::spec_max_encoded_len(),
{
    lemma_pow256_small();
    lemma_compact_encoding_len(0xff);
    lemma_compact_encoding_len(0xffff);
    lemma_compact_encoding_len(0xffff_ffff);
    lemma_compact_encoding_len(0xffff_ffff_ffff_ffff);
    lemma_compact_encoding_len(0xffff_ffff_ffff_ffff_ffff_ffff_ffff_ffff);
    lemma_min_bytes(0xffff_ffff);
    lemma_min_bytes(0xffff_ffff_ffff_ffff);
    lemma_min_bytes(0xffff_ffff_ffff_ffff_ffff_ffff_ffff_ffff);
    crate::endian::lemma_min_bytes_unique(0xffff_ffff, 4);
    crate::endian::lemma_min_bytes_unique(0xffff_ffff_ffff_ffff, 8);
    crate::endian::lemma_min_bytes_unique(0xffff_ffff_ffff_ffff_ffff_ffff_ffff_ffff, 16);
}

/// A marker encodes to nothing, its bound.
pub proof fn lemma_phantom_bound<T>(v: core::marker::PhantomData<T>)
    ensures
        v.spec_encode().len() == <core::marker::PhantomData<T>>::spec_max_encoded_len(),
{
}

/// An option reaches its bound where its value does: `Some` of a value at the bound of `T`.
pub proof fn lemma_option_bound_reached<T: MaxEncodedLen>(w: T)
    requires
        w.encodable(),
        w.spec_encode().len() == T::spec_max_encoded_len(),
    ensures
        Some(w).encodable(),
        Some(w).spec_encode().len() == <Option<T>>::spec_max_encoded_len(),
{
}

/// A result reaches its bound with whichever of its two sides has the larger bound.
pub proof fn lemma_result_bound_reached<T: MaxEncodedLen, E: MaxEncodedLen>(wt: T, we: E)
    requires
        wt.encodable(),
        wt.spec_encode().len() == T::spec_max_encoded_len(),
        we.encodable(),
        we.spec_encode().len() == E::spec_max_encoded_len(),
    ensures
        exists|v: Result<T, E>|
            v.encodable() && #[trigger] v.spec_encode().len()
                == <Result<T, E>>::spec_max_encoded_len(),
{
    let ok: Result<T, E> = Ok(wt);
    let err: Result<T, E> = Err(we);
    assert(ok.spec_encode().len() == wt.spec_encode().len() + 1);
    assert(err.spec_encode().len() == we.spec_encode().len() + 1);
}

/// A box reaches the bound of its value.
pub proof fn lemma_box_bound_reached<T: MaxEncodedLen>(w: T)
    requires
        w.encodable(),
        w.spec_encode().len() == T::spec_max_encoded_len(),
    ensures
        Box::new(w).encodable(),
        Box::new(w).spec_encode().len() == <Box<T>>::spec_max_encoded_len(),
{
}

/// Items that each encode to exactly `m` bytes encode, one after another, to `s.len() * m`.
proof fn lemma_items_encoding_exact<T: Encode>(s: Seq<T>, m: nat)
    requires
        forall|i: int| 0 <= i < s.len() ==> #[trigger] s[i].spec_encode().len() == m,
    ensures
        items_encoding(s).len() == s.len() * m,
    decreases s.len(),
{
    if s.len() > 0 {
        let rest = s.drop_first();
        assert forall|i: int| 0 <= i < rest.len() implies #[trigger] rest[i].spec_encode().len()
            == m by {
            assert(rest[i] == s[i + 1]);
        }
        lemma_items_encoding_exact(rest, m);
        assert(s[0].spec_encode().len() == m);
        assert((rest.len() + 1) * m == rest.len() * m + m) by (nonlinear_arith);
    }
}

/// An array whose items are each at the bound of `T` is at the bound of the array.
pub proof fn lemma_array_bound_reached<T: MaxEncodedLen, const N: usize>(a: [T; N])
    requires
        forall|i: int| 0 <= i < N ==> #[trigger] a@[i].encodable(),
        forall|i: int| 0 <= i < N ==> #[trigger] a@[i].spec_encode().len() == T::spec_max_encoded_len(),
    ensures
        a.encodable(),
        a.spec_encode().len() == <[T; N]>::spec_max_encoded_len(),
{
    vstd::array::array_len_matches_n(&a);
    lemma_items_encoding_exact(a@, T::spec_max_encoded_len());
    assert(a@.len() * T::spec_max_encoded_len() == T::spec_max_encoded_len() * N) by (nonlinear_arith)
        requires a@.len() == N;
}

/// A tuple of 1 values, each at the bound of its type, is at the bound of the tuple.
pub proof fn lemma_tuple1_bound_reached<A: MaxEncodedLen>(av: A)
    requires
        av.encodable(),
        av.spec_encode().len() == A::spec_max_encoded_len(),
    ensures
        (av,).encodable(),
        (av,).spec_encode().len() == <(A,)>::spec_max_encoded_len(),
{
}

/// A tuple of 2 values, each at the bound of its type, is at the bound of the tuple.
pub proof fn lemma_tuple2_bound_reached<A: MaxEncodedLen, B: MaxEncodedLen>(av: A, bv: B)
    requires
        av.encodable(),
        av.spec_encode().len() == A::spec_max_encoded_len(),
        bv.encodable(),
        bv.spec_encode().len() == B::spec_max_encoded_len(),
    ensures
        (av, bv).encodable(),
        (av, bv).spec_encode().len() == <(A, B)>::spec_max_encoded_len(),
{
}

/// A tuple of 3 values, each at the bound of its type, is at the bound of the tuple.
pub proof fn lemma_tuple3_bound_reached<A: MaxEncodedLen, B: MaxEncodedLen, C: MaxEncodedLen>(av: A, bv: B, cv: C)
    requires
        av.encodable(),
        av.spec_encode().len() == A::spec_max_encoded_len(),
        bv.encodable(),
        bv.spec_encode().len() == B::spec_max_encoded_len(),
        cv.encodable(),
        cv.spec_encode().len() == C::spec_max_encoded_len(),
    ensures
        (av, bv, cv).encodable(),
        (av, bv, cv).spec_encode().len() == <(A, B, C)>::spec_max_encoded_len(),
{
}

/// A tuple of 4 values, each at the bound of its type, is at the bound of the tuple.
pub proof fn lemma_tuple4_bound_reached<A: MaxEncodedLen, B: MaxEncodedLen, C: MaxEncodedLen, D: MaxEncodedLen>(av: A, bv: B, cv: C, dv: D)
    requires
        av.encodable(),
        av.spec_encode().len() == A::spec_max_encoded_len(),
        bv.encodable(),
        bv.spec_encode().len() == B::spec_max_encoded_len(),
        cv.encodable(),
        cv.spec_encode().len() == C::spec_max_encoded_len(),
        dv.encodable(),
        dv.spec_encode().len() == D::spec_max_encoded_len(),
    ensures
        (av, bv, cv, dv).encodable(),
        (av, bv, cv, dv).spec_encode().len() == <(A, B, C, D)>::spec_max_encoded_len(),
{
}

/// A tuple of 5 values, each at the bound of its type, is at the bound of the tuple.
pub proof fn lemma_tuple5_bound_reached<A: MaxEncodedLen, B: MaxEncodedLen, C: MaxEncodedLen, D: MaxEncodedLen, E: MaxEncodedLen>(av: A, bv: B, cv: C, dv: D, ev: E)
    requires
        av.encodable(),
        av.spec_encode().len() == A::spec_max_encoded_len(),
        bv.encodable(),
        bv.spec_encode().len() == B::spec_max_encoded_len(),
        cv.encodable(),
        cv.spec_encode().len() == C::spec_max_encoded_len(),
        dv.encodable(),
        dv.spec_encode().len() == D::spec_max_encoded_len(),
        ev.encodable(),
        ev.spec_encode().len() == E::spec_max_encoded_len(),
    ensures
        (av, bv, cv, dv, ev).encodable(),
        (av, bv, cv, dv, ev).spec_encode().len() == <(A, B, C, D, E)>::spec_max_encoded_len(),
{
}

/// A tuple of 6 values, each at the bound of its type, is at the bound of the tuple.
pub proof fn lemma_tuple6_bound_reached<A: MaxEncodedLen, B: MaxEncodedLen, C: MaxEncodedLen, D: MaxEncodedLen, E: MaxEncodedLen, F: MaxEncodedLen>(av: A, bv: B, cv: C, dv: D, ev: E, fv: F)
    requires
        av.encodable(),
        av.spec_encode().len() == A::spec_max_encoded_len(),
        bv.encodable(),
        bv.spec_encode().len() == B::spec_max_encoded_len(),
        cv.encodable(),
        cv.spec_encode().len() == C::spec_max_encoded_len(),
        dv.encodable(),
        dv.spec_encode().len() == D::spec_max_encoded_len(),
        ev.encodable(),
        ev.spec_encode().len() == E::spec_max_encoded_len(),
        fv.encodable(),
        fv.spec_encode().len() == F::spec_max_encoded_len(),
    ensures
        (av, bv, cv, dv, ev, fv).encodable(),
        (av, bv, cv, dv, ev, fv).spec_encode().len() == <(A, B, C, D, E, F)>::spec_max_encoded_len(),
{
}

/// A tuple of 7 values, each at the bound of its type, is at the bound of the tuple.
pub proof fn lemma_tuple7_bound_reached<A: MaxEncodedLen, B: MaxEncodedLen, C: MaxEncodedLen, D: MaxEncodedLen, E: MaxEncodedLen, F: MaxEncodedLen, G: MaxEncodedLen>(av: A, bv: B, cv: C, dv: D, ev: E, fv: F, gv: G)
    requires
        av.encodable(),
        av.spec_encode().len() == A::spec_max_encoded_len(),
        bv.encodable(),
        bv.spec_encode().len() == B::spec_max_encoded_len(),
        cv.encodable(),
        cv.spec_encode().len() == C::spec_max_encoded_len(),
        dv.encodable(),
        dv.spec_encode().len() == D::spec_max_encoded_len(),
        ev.encodable(),
        ev.spec_encode().len() == E::spec_max_encoded_len(),
        fv.encodable(),
        fv.spec_encode().len() == F::spec_max_encoded_len(),
        gv.encodable(),
        gv.spec_encode().len() == G::spec_max_encoded_len(),
    ensures
        (av, bv, cv, dv, ev, fv, gv).encodable(),
        (av, bv, cv, dv, ev, fv, gv).spec_encode().len() == <(A, B, C, D, E, F, G)>::spec_max_encoded_len(),
{
}

/// A tuple of 8 values, each at the bound of its type, is at the bound of the tuple.
pub proof fn lemma_tuple8_bound_reached<A: MaxEncodedLen, B: MaxEncodedLen, C: MaxEncodedLen, D: MaxEncodedLen, E: MaxEncodedLen, F: MaxEncodedLen, G: MaxEncodedLen, H: MaxEncodedLen>(av: A, bv: B, cv: C, dv: D, ev: E, fv: F, gv: G, hv: H)
    requires
        av.encodable(),
        av.spec_encode().len() == A::spec_max_encoded_len(),
        bv.encodable(),
        bv.spec_encode().len() == B::spec_max_encoded_len(),
        cv.encodable(),
        cv.spec_encode().len() == C::spec_max_encoded_len(),
        dv.encodable(),
        dv.spec_encode().len() == D::spec_max_encoded_len(),
        ev.encodable(),
        ev.spec_encode().len() == E::spec_max_encoded_len(),
        fv.encodable(),
        fv.spec_encode().len() == F::spec_max_encoded_len(),
        gv.encodable(),
        gv.spec_encode().len() == G::spec_max_encoded_len(),
        hv.encodable(),
        hv.spec_encode().len() == H::spec_max_encoded_len(),
    ensures
        (av, bv, cv, dv, ev, fv, gv, hv).encodable(),
        (av, bv, cv, dv, ev, fv, gv, hv).spec_encode().len() == <(A, B, C, D, E, F, G, H)>::spec_max_encoded_len(),
{
}

/// A tuple of 9 values, each at the bound of its type, is at the bound of the tuple.
pub proof fn lemma_tuple9_bound_reached<A: MaxEncodedLen, B: MaxEncodedLen, C: MaxEncodedLen, D: MaxEncodedLen, E: MaxEncodedLen, F: MaxEncodedLen, G: MaxEncodedLen, H: MaxEncodedLen, J: MaxEncodedLen>(av: A, bv: B, cv: C, dv: D, ev: E, fv: F, gv: G, hv: H, jv: J)
    requires
        av.encodable(),
        av.spec_encode().len() == A::spec_max_encoded_len(),
        bv.encodable(),
        bv.spec_encode().len() == B::spec_max_encoded_len(),
        cv.encodable(),
        cv.spec_encode().len() == C::spec_max_encoded_len(),
        dv.encodable(),
        dv.spec_encode().len() == D::spec_max_encoded_len(),
        ev.encodable(),
        ev.spec_encode().len() == E::spec_max_encoded_len(),
        fv.encodable(),
        fv.spec_encode().len() == F::spec_max_encoded_len(),
        gv.encodable(),
        gv.spec_encode().len() == G::spec_max_encoded_len(),
        hv.encodable(),
        hv.spec_encode().len() == H::spec_max_encoded_len(),
        jv.encodable(),
        jv.spec_encode().len() == J::spec_max_encoded_len(),
    ensures
        (av, bv, cv, dv, ev, fv, gv, hv, jv).encodable(),
        (av, bv, cv, dv, ev, fv, gv, hv, jv).spec_encode().len() == <(A, B, C, D, E, F, G, H, J)>::spec_max_encoded_len(),
{
}

/// A tuple of 10 values, each at the bound of its type, is at the bound of the tuple.
pub proof fn lemma_tuple10_bound_reached<A: MaxEncodedLen, B: MaxEncodedLen, C: MaxEncodedLen, D: MaxEncodedLen, E: MaxEncodedLen, F: MaxEncodedLen, G: MaxEncodedLen, H: MaxEncodedLen, J: MaxEncodedLen, K: MaxEncodedLen>(av: A, bv: B, cv: C, dv: D, ev: E, fv: F, gv: G, hv: H, jv: J, kv: K)
    requires
        av.encodable(),
        av.spec_encode().len() == A::spec_max_encoded_len(),
        bv.encodable(),
        bv.spec_encode().len() == B::spec_max_encoded_len(),
        cv.encodable(),
        cv.spec_encode().len() == C::spec_max_encoded_len(),
        dv.encodable(),
        dv.spec_encode().len() == D::spec_max_encoded_len(),
        ev.encodable(),
        ev.spec_encode().len() == E::spec_max_encoded_len(),
        fv.encodable(),
        fv.spec_encode().len() == F::spec_max_encoded_len(),
        gv.encodable(),
        gv.spec_encode().len() == G::spec_max_encoded_len(),
        hv.encodable(),
        hv.spec_encode().len() == H::spec_max_encoded_len(),
        jv.encodable(),
        jv.spec_encode().len() == J::spec_max_encoded_len(),
        kv.encodable(),
        kv.spec_encode().len() == K::spec_max_encoded_len(),
    ensures
        (av, bv, cv, dv, ev, fv, gv, hv, jv, kv).encodable(),
        (av, bv, cv, dv, ev, fv, gv, hv, jv, kv).spec_encode().len() == <(A, B, C, D, E, F, G, H, J, K)>::spec_max_encoded_len(),
{
}

/// A tuple of 11 values, each at the bound of its type, is at the bound of the tuple.
pub proof fn lemma_tuple11_bound_reached<A: MaxEncodedLen, B: MaxEncodedLen, C: MaxEncodedLen, D: MaxEncodedLen, E: MaxEncodedLen, F: MaxEncodedLen, G: MaxEncodedLen, H: MaxEncodedLen, J: MaxEncodedLen, K: MaxEncodedLen, L: MaxEncodedLen>(av: A, bv: B, cv: C, dv: D, ev: E, fv: F, gv: G, hv: H, jv: J, kv: K, lv: L)
    requires
        av.encodable(),
        av.spec_encode().len() == A::spec_max_encoded_len(),
        bv.encodable(),
        bv.spec_encode().len() == B::spec_max_encoded_len(),
        cv.encodable(),
        cv.spec_encode().len() == C::spec_max_encoded_len(),
        dv.encodable(),
        dv.spec_encode().len() == D::spec_max_encoded_len(),
        ev.encodable(),
        ev.spec_encode().len() == E::spec_max_encoded_len(),
        fv.encodable(),
        fv.spec_encode().len() == F::spec_max_encoded_len(),
        gv.encodable(),
        gv.spec_encode().len() == G::spec_max_encoded_len(),
        hv.encodable(),
        hv.spec_encode().len() == H::spec_max_encoded_len(),
        jv.encodable(),
        jv.spec_encode().len() == J::spec_max_encoded_len(),
        kv.encodable(),
        kv.spec_encode().len() == K::spec_max_encoded_len(),
        lv.encodable(),
        lv.spec_encode().len() == L::spec_max_encoded_len(),
    ensures
        (av, bv, cv, dv, ev, fv, gv, hv, jv, kv, lv).encodable(),
        (av, bv, cv, dv, ev, fv, gv, hv, jv, kv, lv).spec_encode().len() == <(A, B, C, D, E, F, G, H, J, K, L)>::spec_max_encoded_len(),
{
}

/// A tuple of 12 values, each at the bound of its type, is at the bound of the tuple.
pub proof fn lemma_tuple12_bound_reached<A: MaxEncodedLen, B: MaxEncodedLen, C: MaxEncodedLen, D: MaxEncodedLen, E: MaxEncodedLen, F: MaxEncodedLen, G: MaxEncodedLen, H: MaxEncodedLen, J: MaxEncodedLen, K: MaxEncodedLen, L: MaxEncodedLen, M: MaxEncodedLen>(av: A, bv: B, cv: C, dv: D, ev: E, fv: F, gv: G, hv: H, jv: J, kv: K, lv: L, mv: M)
    requires
        av.encodable(),
        av.spec_encode().len() == A::spec_max_encoded_len(),
        bv.encodable(),
        bv.spec_encode().len() == B::spec_max_encoded_len(),
        cv.encodable(),
        cv.spec_encode().len() == C::spec_max_encoded_len(),
        dv.encodable(),
        dv.spec_encode().len() == D::spec_max_encoded_len(),
        ev.encodable(),
        ev.spec_encode().len() == E::spec_max_encoded_len(),
        fv.encodable(),
        fv.spec_encode().len() == F::spec_max_encoded_len(),
        gv.encodable(),
        gv.spec_encode().len() == G::spec_max_encoded_len(),
        hv.encodable(),
        hv.spec_encode().len() == H::spec_max_encoded_len(),
        jv.encodable(),
        jv.spec_encode().len() == J::spec_max_encoded_len(),
        kv.encodable(),
        kv.spec_encode().len() == K::spec_max_encoded_len(),
        lv.encodable(),
        lv.spec_encode().len() == L::spec_max_encoded_len(),
        mv.encodable(),
        mv.spec_encode().len() == M::spec_max_encoded_len(),
    ensures
        (av, bv, cv, dv, ev, fv, gv, hv, jv, kv, lv, mv).encodable(),
        (av, bv, cv, dv, ev, fv, gv, hv, jv, kv, lv, mv).spec_encode().len() == <(A, B, C, D, E, F, G, H, J, K, L, M)>::spec_max_encoded_len(),
{
}

/// A tuple of 13 values, each at the bound of its type, is at the bound of the tuple.
pub proof fn lemma_tuple13_bound_reached<A: MaxEncodedLen, B: MaxEncodedLen, C: MaxEncodedLen, D: MaxEncodedLen, E: MaxEncodedLen, F: MaxEncodedLen, G: MaxEncodedLen, H: MaxEncodedLen, J: MaxEncodedLen, K: MaxEncodedLen, L: MaxEncodedLen, M: MaxEncodedLen, N: MaxEncodedLen>(av: A, bv: B, cv: C, dv: D, ev: E, fv: F, gv: G, hv: H, jv: J, kv: K, lv: L, mv: M, nv: N)
    requires
        av.encodable(),
        av.spec_encode().len() == A::spec_max_encoded_len(),
        bv.encodable(),
        bv.spec_encode().len() == B::spec_max_encoded_len(),
        cv.encodable(),
        cv.spec_encode().len() == C::spec_max_encoded_len(),
        dv.encodable(),
        dv.spec_encode().len() == D::spec_max_encoded_len(),
        ev.encodable(),
        ev.spec_encode().len() == E::spec_max_encoded_len(),
        fv.encodable(),
        fv.spec_encode().len() == F::spec_max_encoded_len(),
        gv.encodable(),
        gv.spec_encode().len() == G::spec_max_encoded_len(),
        hv.encodable(),
        hv.spec_encode().len() == H::spec_max_encoded_len(),
        jv.encodable(),
        jv.spec_encode().len() == J::spec_max_encoded_len(),
        kv.encodable(),
        kv.spec_encode().len() == K::spec_max_encoded_len(),
        lv.encodable(),
        lv.spec_encode().len() == L::spec_max_encoded_len(),
        mv.encodable(),
        mv.spec_encode().len() == M::spec_max_encoded_len(),
        nv.encodable(),
        nv.spec_encode().len() == N::spec_max_encoded_len(),
    ensures
        (av, bv, cv, dv, ev, fv, gv, hv, jv, kv, lv, mv, nv).encodable(),
        (av, bv, cv, dv, ev, fv, gv, hv, jv, kv, lv, mv, nv).spec_encode().len() == <(A, B, C, D, E, F, G, H, J, K, L, M, N)>::spec_max_encoded_len(),
{
}

/// A tuple of 14 values, each at the bound of its type, is at the bound of the tuple.
pub proof fn lemma_tuple14_bound_reached<A: MaxEncodedLen, B: MaxEncodedLen, C: MaxEncodedLen, D: MaxEncodedLen, E: MaxEncodedLen, F: MaxEncodedLen, G: MaxEncodedLen, H: MaxEncodedLen, J: MaxEncodedLen, K: MaxEncodedLen, L: MaxEncodedLen, M: MaxEncodedLen, N: MaxEncodedLen, O: MaxEncodedLen>(av: A, bv: B, cv: C, dv: D, ev: E, fv: F, gv: G, hv: H, jv: J, kv: K, lv: L, mv: M, nv: N, ov: O)
    requires
        av.encodable(),
        av.spec_encode().len() == A::spec_max_encoded_len(),
        bv.encodable(),
        bv.spec_encode().len() == B::spec_max_encoded_len(),
        cv.encodable(),
        cv.spec_encode().len() == C::spec_max_encoded_len(),
        dv.encodable(),
        dv.spec_encode().len() == D::spec_max_encoded_len(),
        ev.encodable(),
        ev.spec_encode().len() == E::spec_max_encoded_len(),
        fv.encodable(),
        fv.spec_encode().len() == F::spec_max_encoded_len(),
        gv.encodable(),
        gv.spec_encode().len() == G::spec_max_encoded_len(),
        hv.encodable(),
        hv.spec_encode().len() == H::spec_max_encoded_len(),
        jv.encodable(),
        jv.spec_encode().len() == J::spec_max_encoded_len(),
        kv.encodable(),
        kv.spec_encode().len() == K::spec_max_encoded_len(),
        lv.encodable(),
        lv.spec_encode().len() == L::spec_max_encoded_len(),
        mv.encodable(),
        mv.spec_encode().len() == M::spec_max_encoded_len(),
        nv.encodable(),
        nv.spec_encode().len() == N::spec_max_encoded_len(),
        ov.encodable(),
        ov.spec_encode().len() == O::spec_max_encoded_len(),
    ensures
        (av, bv, cv, dv, ev, fv, gv, hv, jv, kv, lv, mv, nv, ov).encodable(),
        (av, bv, cv, dv, ev, fv, gv, hv, jv, kv, lv, mv, nv, ov).spec_encode().len() == <(A, B, C, D, E, F, G, H, J, K, L, M, N, O)>::spec_max_encoded_len(),
{
}

/// A tuple of 15 values, each at the bound of its type, is at the bound of the tuple.
pub proof fn lemma_tuple15_bound_reached<A: MaxEncodedLen, B: MaxEncodedLen, C: MaxEncodedLen, D: MaxEncodedLen, E: MaxEncodedLen, F: MaxEncodedLen, G: MaxEncodedLen, H: MaxEncodedLen, J: MaxEncodedLen, K: MaxEncodedLen, L: MaxEncodedLen, M: MaxEncodedLen, N: MaxEncodedLen, O: MaxEncodedLen, P: MaxEncodedLen>(av: A, bv: B, cv: C, dv: D, ev: E, fv: F, gv: G, hv: H, jv: J, kv: K, lv: L, mv: M, nv: N, ov: O, pv: P)
    requires
        av.encodable(),
        av.spec_encode().len() == A::spec_max_encoded_len(),
        bv.encodable(),
        bv.spec_encode().len() == B::spec_max_encoded_len(),
        cv.encodable(),
        cv.spec_encode().len() == C::spec_max_encoded_len(),
        dv.encodable(),
        dv.spec_encode().len() == D::spec_max_encoded_len(),
        ev.encodable(),
        ev.spec_encode().len() == E::spec_max_encoded_len(),
        fv.encodable(),
        fv.spec_encode().len() == F::spec_max_encoded_len(),
        gv.encodable(),
        gv.spec_encode().len() == G::spec_max_encoded_len(),
        hv.encodable(),
        hv.spec_encode().len() == H::spec_max_encoded_len(),
        jv.encodable(),
        jv.spec_encode().len() == J::spec_max_encoded_len(),
        kv.encodable(),
        kv.spec_encode().len() == K::spec_max_encoded_len(),
        lv.encodable(),
        lv.spec_encode().len() == L::spec_max_encoded_len(),
        mv.encodable(),
        mv.spec_encode().len() == M::spec_max_encoded_len(),
        nv.encodable(),
        nv.spec_encode().len() == N::spec_max_encoded_len(),
        ov.encodable(),
        ov.spec_encode().len() == O::spec_max_encoded_len(),
        pv.encodable(),
        pv.spec_encode().len() == P::spec_max_encoded_len(),
    ensures
        (av, bv, cv, dv, ev, fv, gv, hv, jv, kv, lv, mv, nv, ov, pv).encodable(),
        (av, bv, cv, dv, ev, fv, gv, hv, jv, kv, lv, mv, nv, ov, pv).spec_encode().len() == <(A, B, C, D, E, F, G, H, J, K, L, M, N, O, P)>::spec_max_encoded_len(),
{
}

/// A tuple of 16 values, each at the bound of its type, is at the bound of the tuple.
pub proof fn lemma_tuple16_bound_reached<A: MaxEncodedLen, B: MaxEncodedLen, C: MaxEncodedLen, D: MaxEncodedLen, E: MaxEncodedLen, F: MaxEncodedLen, G: MaxEncodedLen, H: MaxEncodedLen, J: MaxEncodedLen, K: MaxEncodedLen, L: MaxEncodedLen, M: MaxEncodedLen, N: MaxEncodedLen, O: MaxEncodedLen, P: MaxEncodedLen, Q: MaxEncodedLen>(av: A, bv: B, cv: C, dv: D, ev: E, fv: F, gv: G, hv: H, jv: J, kv: K, lv: L, mv: M, nv: N, ov: O, pv: P, qv: Q)
    requires
        av.encodable(),
        av.spec_encode().len() == A::spec_max_encoded_len(),
        bv.encodable(),
        bv.spec_encode().len() == B::spec_max_encoded_len(),
        cv.encodable(),
        cv.spec_encode().len() == C::spec_max_encoded_len(),
        dv.encodable(),
        dv.spec_encode().len() == D::spec_max_encoded_len(),
        ev.encodable(),
        ev.spec_encode().len() == E::spec_max_encoded_len(),
        fv.encodable(),
        fv.spec_encode().len() == F::spec_max_encoded_len(),
        gv.encodable(),
        gv.spec_encode().len() == G::spec_max_encoded_len(),
        hv.encodable(),
        hv.spec_encode().len() == H::spec_max_encoded_len(),
        jv.encodable(),
        jv.spec_encode().len() == J::spec_max_encoded_len(),
        kv.encodable(),
        kv.spec_encode().len() == K::spec_max_encoded_len(),
        lv.encodable(),
        lv.spec_encode().len() == L::spec_max_encoded_len(),
        mv.encodable(),
        mv.spec_encode().len() == M::spec_max_encoded_len(),
        nv.encodable(),
        nv.spec_encode().len() == N::spec_max_encoded_len(),
        ov.encodable(),
        ov.spec_encode().len() == O::spec_max_encoded_len(),
        pv.encodable(),
        pv.spec_encode().len() == P::spec_max_encoded_len(),
        qv.encodable(),
        qv.spec_encode().len() == Q::spec_max_encoded_len(),
    ensures
        (av, bv, cv, dv, ev, fv, gv, hv, jv, kv, lv, mv, nv, ov, pv, qv).encodable(),
        (av, bv, cv, dv, ev, fv, gv, hv, jv, kv, lv, mv, nv, ov, pv, qv).spec_encode().len() == <(A, B, C, D, E, F, G, H, J, K, L, M, N, O, P, Q)>::spec_max_encoded_len(),
{
}

/// A tuple of 17 values, each at the bound of its type, is at the bound of the tuple.
pub proof fn lemma_tuple17_bound_reached<A: MaxEncodedLen, B: MaxEncodedLen, C: MaxEncodedLen, D: MaxEncodedLen, E: MaxEncodedLen, F: MaxEncodedLen, G: MaxEncodedLen, H: MaxEncodedLen, J: MaxEncodedLen, K: MaxEncodedLen, L: MaxEncodedLen, M: MaxEncodedLen, N: MaxEncodedLen, O: MaxEncodedLen, P: MaxEncodedLen, Q: MaxEncodedLen, R: MaxEncodedLen>(av: A, bv: B, cv: C, dv: D, ev: E, fv: F, gv: G, hv: H, jv: J, kv: K, lv: L, mv: M, nv: N, ov: O, pv: P, qv: Q, rv: R)
    requires
        av.encodable(),
        av.spec_encode().len() == A::spec_max_encoded_len(),
        bv.encodable(),
        bv.spec_encode().len() == B::spec_max_encoded_len(),
        cv.encodable(),
        cv.spec_encode().len() == C::spec_max_encoded_len(),
        dv.encodable(),
        dv.spec_encode().len() == D::spec_max_encoded_len(),
        ev.encodable(),
        ev.spec_encode().len() == E::spec_max_encoded_len(),
        fv.encodable(),
        fv.spec_encode().len() == F::spec_max_encoded_len(),
        gv.encodable(),
        gv.spec_encode().len() == G::spec_max_encoded_len(),
        hv.encodable(),
        hv.spec_encode().len() == H::spec_max_encoded_len(),
        jv.encodable(),
        jv.spec_encode().len() == J::spec_max_encoded_len(),
        kv.encodable(),
        kv.spec_encode().len() == K::spec_max_encoded_len(),
        lv.encodable(),
        lv.spec_encode().len() == L::spec_max_encoded_len(),
        mv.encodable(),
        mv.spec_encode().len() == M::spec_max_encoded_len(),
        nv.encodable(),
        nv.spec_encode().len() == N::spec_max_encoded_len(),
        ov.encodable(),
        ov.spec_encode().len() == O::spec_max_encoded_len(),
        pv.encodable(),
        pv.spec_encode().len() == P::spec_max_encoded_len(),
        qv.encodable(),
        qv.spec_encode().len() == Q::spec_max_encoded_len(),
        rv.encodable(),
        rv.spec_encode().len() == R::spec_max_encoded_len(),
    ensures
        (av, bv, cv, dv, ev, fv, gv, hv, jv, kv, lv, mv, nv, ov, pv, qv, rv).encodable(),
        (av, bv, cv, dv, ev, fv, gv, hv, jv, kv, lv, mv, nv, ov, pv, qv, rv).spec_encode().len() == <(A, B, C, D, E, F, G, H, J, K, L, M, N, O, P, Q, R)>::spec_max_encoded_len(),
{
}

/// A tuple of 18 values, each at the bound of its type, is at the bound of the tuple.
pub proof fn lemma_tuple18_bound_reached<A: MaxEncodedLen, B: MaxEncodedLen, C: MaxEncodedLen, D: MaxEncodedLen, E: MaxEncodedLen, F: MaxEncodedLen, G: MaxEncodedLen, H: MaxEncodedLen, J: MaxEncodedLen, K: MaxEncodedLen, L: MaxEncodedLen, M: MaxEncodedLen, N: MaxEncodedLen, O: MaxEncodedLen, P: MaxEncodedLen, Q: MaxEncodedLen, R: MaxEncodedLen, S: MaxEncodedLen>(av: A, bv: B, cv: C, dv: D, ev: E, fv: F, gv: G, hv: H, jv: J, kv: K, lv: L, mv: M, nv: N, ov: O, pv: P, qv: Q, rv: R, sv: S)
    requires
        av.encodable(),
        av.spec_encode().len() == A::spec_max_encoded_len(),
        bv.encodable(),
        bv.spec_encode().len() == B::spec_max_encoded_len(),
        cv.encodable(),
        cv.spec_encode().len() == C::spec_max_encoded_len(),
        dv.encodable(),
        dv.spec_encode().len() == D::spec_max_encoded_len(),
        ev.encodable(),
        ev.spec_encode().len() == E::spec_max_encoded_len(),
        fv.encodable(),
        fv.spec_encode().len() == F::spec_max_encoded_len(),
        gv.encodable(),
        gv.spec_encode().len() == G::spec_max_encoded_len(),
        hv.encodable(),
        hv.spec_encode().len() == H::spec_max_encoded_len(),
        jv.encodable(),
        jv.spec_encode().len() == J::spec_max_encoded_len(),
        kv.encodable(),
        kv.spec_encode().len() == K::spec_max_encoded_len(),
        lv.encodable(),
        lv.spec_encode().len() == L::spec_max_encoded_len(),
        mv.encodable(),
        mv.spec_encode().len() == M::spec_max_encoded_len(),
        nv.encodable(),
        nv.spec_encode().len() == N::spec_max_encoded_len(),
        ov.encodable(),
        ov.spec_encode().len() == O::spec_max_encoded_len(),
        pv.encodable(),
        pv.spec_encode().len() == P::spec_max_encoded_len(),
        qv.encodable(),
        qv.spec_encode().len() == Q::spec_max_encoded_len(),
        rv.encodable(),
        rv.spec_encode().len() == R::spec_max_encoded_len(),
        sv.encodable(),
        sv.spec_encode().len() == S::spec_max_encoded_len(),
    ensures
        (av, bv, cv, dv, ev, fv, gv, hv, jv, kv, lv, mv, nv, ov, pv, qv, rv, sv).encodable(),
        (av, bv, cv, dv, ev, fv, gv, hv, jv, kv, lv, mv, nv, ov, pv, qv, rv, sv).spec_encode().len() == <(A, B, C, D, E, F, G, H, J, K, L, M, N, O, P, Q, R, S)>::spec_max_encoded_len(),
{
}

} // verus!
