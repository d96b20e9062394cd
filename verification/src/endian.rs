//! Little-endian byte strings as mathematical objects, and the facts about them that the
//! fixed-width and compact encodings rest on.
use vstd::prelude::*;

verus! {

/// `256` raised to the power `n`.
pub open spec fn pow256(n: nat) -> nat
    decreases n,
{
    if n == 0 {
        1
    } else {
        256 * pow256((n - 1) as nat)
    }
}

/// The `n` least significant bytes of `v`, least significant first.
pub open spec fn le_bytes(v: nat, n: nat) -> Seq<u8>
    decreases n,
{
    if n == 0 {
        Seq::empty()
    } else {
        seq![(v % 256) as u8] + le_bytes(v / 256, (n - 1) as nat)
    }
}

/// The number that the little-endian byte string `b` denotes.
pub open spec fn le_value(b: Seq<u8>) -> nat
    decreases b.len(),
{
    if b.len() == 0 {
        0
    } else {
        b[0] as nat + 256 * le_value(b.drop_first())
    }
}

/// The number of bytes needed to write `v` without leading zero bytes (`0` needs none).
pub open spec fn min_bytes(v: nat) -> nat
    decreases v,
{
    if v == 0 {
        0
    } else {
        1 + min_bytes(v / 256)
    }
}

pub proof fn lemma_pow256_positive(n: nat)
    ensures
        pow256(n) >= 1,
    decreases n,
{
    if n > 0 {
        lemma_pow256_positive((n - 1) as nat);
    }
}

pub proof fn lemma_pow256_monotone(a: nat, b: nat)
    requires
        a <= b,
    ensures
        pow256(a) <= pow256(b),
    decreases b,
{
    if a < b {
        lemma_pow256_monotone(a, (b - 1) as nat);
        lemma_pow256_positive((b - 1) as nat);
    }
}

pub proof fn lemma_pow256_small()
    ensures
        pow256(0) == 1,
        pow256(1) == 0x100,
        pow256(2) == 0x1_0000,
        pow256(3) == 0x100_0000,
        pow256(4) == 0x1_0000_0000,
        pow256(5) == 0x100_0000_0000,
        pow256(6) == 0x1_0000_0000_0000,
        pow256(7) == 0x100_0000_0000_0000,
        pow256(8) == 0x1_0000_0000_0000_0000,
        pow256(16) == 0x1_0000_0000_0000_0000_0000_0000_0000_0000,
{
    reveal_with_fuel(pow256, 17);
}

pub proof fn lemma_le_bytes_len(v: nat, n: nat)
    ensures
        le_bytes(v, n).len() == n,
    decreases n,
{
    if n > 0 {
        lemma_le_bytes_len(v / 256, (n - 1) as nat);
    }
}

pub proof fn lemma_le_value_bound(b: Seq<u8>)
    ensures
        le_value(b) < pow256(b.len()),
    decreases b.len(),
{
    if b.len() > 0 {
        lemma_le_value_bound(b.drop_first());
    }
}

/// Writing `v` in `n` bytes and reading it back gives `v` when it fits.
pub proof fn lemma_le_value_of_bytes(v: nat, n: nat)
    requires
        v < pow256(n),
    ensures
        le_value(le_bytes(v, n)) == v,
    decreases n,
{
    if n > 0 {
        let rest = le_bytes(v / 256, (n - 1) as nat);
        assert(le_bytes(v, n).drop_first() =~= rest);
        assert(v / 256 < pow256((n - 1) as nat));
        lemma_le_value_of_bytes(v / 256, (n - 1) as nat);
    }
}

/// Reading a byte string and writing the number back in as many bytes gives the same string.
pub proof fn lemma_le_bytes_of_value(b: Seq<u8>)
    ensures
        le_bytes(le_value(b), b.len()) == b,
    decreases b.len(),
{
    if b.len() > 0 {
        let v = le_value(b);
        let t = le_value(b.drop_first());
        assert(v % 256 == b[0] as nat);
        assert(v / 256 == t);
        lemma_le_bytes_of_value(b.drop_first());
        assert(le_bytes(v, b.len()) =~= seq![b[0]] + b.drop_first());
        assert(seq![b[0]] + b.drop_first() =~= b);
    }
}

/// `min_bytes(v)` bytes suffice for `v`, and with more than zero of them, one fewer does not.
pub proof fn lemma_min_bytes(v: nat)
    ensures
        v < pow256(min_bytes(v)),
        v > 0 ==> pow256((min_bytes(v) - 1) as nat) <= v,
    decreases v,
{
    if v > 0 {
        lemma_min_bytes(v / 256);
        if v / 256 > 0 {
            assert(pow256((min_bytes(v / 256) - 1) as nat) <= v / 256);
        }
    }
}

/// `min_bytes` is the least width in which `v` fits.
pub proof fn lemma_min_bytes_unique(v: nat, n: nat)
    requires
        v < pow256(n),
        n == 0 || pow256((n - 1) as nat) <= v,
    ensures
        min_bytes(v) == n,
    decreases n,
{
    if n == 0 {
    } else {
        lemma_pow256_positive((n - 1) as nat);
        assert(v > 0);
        assert(v / 256 < pow256((n - 1) as nat));
        if n > 1 {
            assert(pow256((n - 2) as nat) <= v / 256);
        }
        lemma_min_bytes_unique(v / 256, (n - 1) as nat);
    }
}

} // verus!
