//! The compact encoding of unsigned integers as a function on numbers and bytes, with its laws,
//! and the byte-level readers and writers that the codec is built from.
use crate::endian::{
    le_bytes, le_value, lemma_le_bytes_len, lemma_le_bytes_of_value, lemma_le_value_bound,
    lemma_le_value_of_bytes, lemma_min_bytes, lemma_min_bytes_unique, lemma_pow256_monotone,
    lemma_pow256_small, min_bytes, pow256,
};
use crate::error::Error;
use crate::io::{reads_fully, Input, Output};
use vstd::prelude::*;

verus! {

/// The compact encoding of `v`.
///
/// Values below 2^6 take one byte (`v << 2`), below 2^14 two bytes (`v << 2 | 0b01`, little
/// endian), below 2^30 four bytes (`v << 2 | 0b10`); larger values take a byte holding the number
/// `m` of bytes that follow, as `(m - 4) << 2 | 0b11`, followed by `v` in `m` little-endian bytes
/// without a zero most significant byte.
pub open spec fn compact_encoding(v: nat) -> Seq<u8> {
    if v < 0x40 {
        seq![(v * 4) as u8]
    } else if v < 0x4000 {
        le_bytes(v * 4 + 1, 2)
    } else if v < 0x4000_0000 {
        le_bytes(v * 4 + 2, 4)
    } else {
        seq![(((min_bytes(v) - 4) * 4) + 3) as u8] + le_bytes(v, min_bytes(v))
    }
}

/// The value and the length of the compact encoding at the front of `s`, if `s` starts with one.
///
/// Only the shortest encoding of a value is accepted.
pub open spec fn compact_parse(s: Seq<u8>) -> Option<(nat, nat)> {
    if s.len() == 0 {
        None
    } else {
        let b = s[0];
        if b % 4 == 0 {
            Some(((b / 4) as nat, 1nat))
        } else if b % 4 == 1 {
            if s.len() < 2 {
                None
            } else {
                let x = le_value(s.take(2)) / 4;
                if 0x40 <= x {
                    Some((x, 2nat))
                } else {
                    None
                }
            }
        } else if b % 4 == 2 {
            if s.len() < 4 {
                None
            } else {
                let x = le_value(s.take(4)) / 4;
                if 0x4000 <= x {
                    Some((x, 4nat))
                } else {
                    None
                }
            }
        } else {
            let n = (b / 4) as nat + 4;
            if s.len() < 1 + n {
                None
            } else {
                let x = le_value(s.subrange(1, 1 + n as int));
                if x >= 0x4000_0000 && x >= pow256((n - 1) as nat) {
                    Some((x, 1 + n))
                } else {
                    None
                }
            }
        }
    }
}

/// The values that have a compact encoding: those whose length byte fits.
pub open spec fn compact_encodable(v: nat) -> bool {
    min_bytes(v) <= 67
}

pub proof fn lemma_compact_encoding_len(v: nat)
    ensures
        compact_encoding(v).len() == if v < 0x40 {
            1
        } else if v < 0x4000 {
            2
        } else if v < 0x4000_0000 {
            4
        } else {
            1 + min_bytes(v)
        },
        compact_encoding(v).len() >= 1,
{
    lemma_le_bytes_len(v * 4 + 1, 2);
    lemma_le_bytes_len(v * 4 + 2, 4);
    lemma_le_bytes_len(v, min_bytes(v));
}

/// Every value below 2^128 has a compact encoding of at most 17 bytes.
pub proof fn lemma_compact_u128(v: nat)
    requires
        v < 0x1_0000_0000_0000_0000_0000_0000_0000_0000,
    ensures
        compact_encodable(v),
        min_bytes(v) <= 16,
        compact_encoding(v).len() <= 17,
{
    lemma_pow256_small();
    lemma_min_bytes(v);
    if min_bytes(v) > 16 {
        lemma_pow256_monotone(16, (min_bytes(v) - 1) as nat);
    }
    lemma_compact_encoding_len(v);
}

/// Values up to `u32::MAX` take at most five bytes.
pub proof fn lemma_compact_u32(v: nat)
    requires
        v <= u32::MAX,
    ensures
        compact_encoding(v).len() <= 5,
{
    lemma_pow256_small();
    lemma_min_bytes(v);
    if min_bytes(v) > 4 {
        lemma_pow256_monotone(4, (min_bytes(v) - 1) as nat);
    }
    lemma_compact_encoding_len(v);
}

/// Reading the compact encoding of `v` gives back `v` and the length of the encoding, whatever
/// follows it.
pub proof fn lemma_compact_parse_encoding(v: nat, rest: Seq<u8>)
    requires
        compact_encodable(v),
    ensures
        compact_parse(compact_encoding(v) + rest) == Some((v, compact_encoding(v).len())),
{
    let e = compact_encoding(v);
    let s = e + rest;
    lemma_compact_encoding_len(v);
    lemma_pow256_small();
    if v < 0x40 {
        assert(s[0] == (v * 4) as u8);
    } else if v < 0x4000 {
        let w = v * 4 + 1;
        lemma_le_value_of_bytes(w, 2);
        assert(s.take(2) =~= e);
        assert(e[0] == (w % 256) as u8);
        assert((w % 256) % 4 == 1);
    } else if v < 0x4000_0000 {
        let w = v * 4 + 2;
        lemma_le_value_of_bytes(w, 4);
        assert(s.take(4) =~= e);
        assert(e[0] == (w % 256) as u8);
        assert((w % 256) % 4 == 2);
    } else {
        let n = min_bytes(v);
        lemma_min_bytes(v);
        lemma_le_bytes_len(v, n);
        lemma_le_value_of_bytes(v, n);
        if n < 4 {
            lemma_pow256_monotone(n, 3);
        }
        assert(n >= 4);
        let b = (((n - 4) * 4) + 3) as u8;
        assert(s[0] == b);
        assert(b / 4 + 4 == n);
        assert(s.subrange(1, 1 + n as int) =~= le_bytes(v, n));
    }
}

/// The compact encoding is canonical: whatever `compact_parse` accepts is exactly the compact
/// encoding of the value it reads.
pub proof fn lemma_compact_parse_canonical(s: Seq<u8>)
    requires
        compact_parse(s) is Some,
    ensures
        ({
            let (v, k) = compact_parse(s).unwrap();
            &&& compact_encodable(v)
            &&& k == compact_encoding(v).len()
            &&& k <= s.len()
            &&& s.take(k as int) == compact_encoding(v)
        }),
{
    let (v, k) = compact_parse(s).unwrap();
    let b = s[0];
    lemma_pow256_small();
    lemma_compact_encoding_len(v);
    if b % 4 == 0 {
        lemma_compact_u128(v);
        assert(s.take(1) =~= seq![b]);
        assert(compact_encoding(v) =~= seq![b]);
    } else if b % 4 == 1 {
        let t = s.take(2);
        let w = le_value(t);
        lemma_le_value_bound(t);
        assert(w == t[0] as nat + 256 * le_value(t.drop_first()));
        assert(w % 4 == 1);
        assert(w == v * 4 + 1);
        lemma_le_bytes_of_value(t);
        lemma_compact_u128(v);
    } else if b % 4 == 2 {
        let t = s.take(4);
        let w = le_value(t);
        lemma_le_value_bound(t);
        assert(w == t[0] as nat + 256 * le_value(t.drop_first()));
        assert(w % 4 == 2);
        assert(w == v * 4 + 2);
        lemma_le_bytes_of_value(t);
        lemma_compact_u128(v);
    } else {
        let n = (b / 4) as nat + 4;
        let t = s.subrange(1, 1 + n as int);
        lemma_le_value_bound(t);
        lemma_min_bytes_unique(v, n);
        lemma_le_bytes_of_value(t);
        assert(((n - 4) * 4 + 3) as u8 == b);
        assert(s.take(k as int) =~= seq![b] + t);
        assert(n <= 67);
    }
}

/// The compact encoding is injective.
pub proof fn lemma_compact_encoding_injective(a: nat, b: nat)
    requires
        compact_encodable(a),
        compact_encodable(b),
        compact_encoding(a) == compact_encoding(b),
    ensures
        a == b,
{
    lemma_compact_parse_encoding(a, Seq::empty());
    lemma_compact_parse_encoding(b, Seq::empty());
    assert(compact_encoding(a) + Seq::<u8>::empty() =~= compact_encoding(a));
    assert(compact_encoding(b) + Seq::<u8>::empty() =~= compact_encoding(b));
}

/// The number of bytes `v` takes without leading zero bytes.
pub(crate) fn byte_len(v: u128) -> (n: usize)
    ensures
        n == min_bytes(v as nat),
        n <= 16,
{
    let mut t: u128 = v;
    let mut n: usize = 0;
    proof {
        lemma_compact_u128(v as nat);
    }
    while t > 0
        invariant
            min_bytes(v as nat) == n + min_bytes(t as nat),
            min_bytes(v as nat) <= 16,
        decreases t,
    {
        t = t / 256;
        n = n + 1;
    }
    n
}

/// Writes the `n` least significant bytes of `v`, least significant first.
pub(crate) fn write_le<W: Output>(dest: &mut W, v: u128, n: usize)
    requires
        old(dest).written().len() + n <= usize::MAX,
    ensures
        final(dest).written() == old(dest).written() + le_bytes(v as nat, n as nat),
{
    let mut cur: u128 = v;
    let mut i: usize = 0;
    while i < n
        invariant
            i <= n,
            dest.written().len() == old(dest).written().len() + i,
            old(dest).written().len() + n <= usize::MAX,
            old(dest).written() + le_bytes(v as nat, n as nat) == dest.written() + le_bytes(
                cur as nat,
                (n - i) as nat,
            ),
        decreases n - i,
    {
        let ghost before = dest.written();
        let ghost rest = le_bytes(cur as nat / 256, (n - i - 1) as nat);
        assert(le_bytes(cur as nat, (n - i) as nat) == seq![(cur % 256) as u8] + rest);
        dest.push_byte((cur % 256) as u8);
        assert(before + (seq![(cur % 256) as u8] + rest) =~= dest.written() + rest);
        cur = cur / 256;
        i = i + 1;
    }
    assert(dest.written() + le_bytes(cur as nat, 0) =~= dest.written());
}

/// Reads `n` bytes and returns the number they denote, least significant first.
pub(crate) fn read_le<I: Input>(input: &mut I, n: usize) -> (r: Result<u128, Error>)
    requires
        n <= 16,
    ensures
        final(input).depth_count() == old(input).depth_count(),
        final(input).mem_budget() == old(input).mem_budget(),
        final(input).short_read_error() == old(input).short_read_error(),
        final(input).hooks_succeed() == old(input).hooks_succeed(),
        r is Ok ==> n <= old(input).unread().len(),
        reads_fully(old(input)) && n <= old(input).unread().len() ==> r is Ok,
        r matches Ok(v) ==> v == le_value(old(input).unread().take(n as int)),
        r matches Ok(v) ==> le_bytes(v as nat, n as nat) == old(input).unread().take(n as int),
        r is Ok ==> final(input).unread() == old(input).unread().skip(n as int),
{
    let mut buf: Vec<u8> = vec![0u8; n];
    let res = input.read(buf.as_mut_slice());
    match res {
        Err(e) => Err(e),
        Ok(()) => {
            let ghost b = buf@;
            let mut acc: u128 = 0;
            let mut i: usize = n;
            proof {
                lemma_pow256_small();
                lemma_pow256_monotone(n as nat, 16);
                assert(b.skip(n as int) =~= Seq::<u8>::empty());
            }
            while i > 0
                invariant
                    i <= n,
                    n <= 16,
                    buf@ == b,
                    b.len() == n,
                    acc == le_value(b.skip(i as int)),
                    pow256(n as nat) <= pow256(16),
                    pow256(16) == 0x1_0000_0000_0000_0000_0000_0000_0000_0000,
                decreases i,
            {
                let ghost s = b.skip(i as int);
                proof {
                    lemma_le_value_bound(s);
                    lemma_pow256_monotone((n - i + 1) as nat, n as nat);
                    assert(b.skip(i - 1).drop_first() =~= s);
                    assert(b.skip(i - 1)[0] == b[i - 1]);
                }
                acc = buf[i - 1] as u128 + 256 * acc;
                i = i - 1;
            }
            proof {
                assert(b.skip(0) =~= b);
                lemma_le_value_bound(b);
                lemma_le_bytes_of_value(b);
            }
            Ok(acc)
        },
    }
}

/// Writes the compact encoding of `v`.
pub(crate) fn write_compact<W: Output>(dest: &mut W, v: u128)
    requires
        old(dest).written().len() + compact_encoding(v as nat).len() <= usize::MAX,
    ensures
        final(dest).written() == old(dest).written() + compact_encoding(v as nat),
{
    proof {
        lemma_compact_encoding_len(v as nat);
        lemma_compact_u128(v as nat);
    }
    if v < 0x40 {
        dest.push_byte((v * 4) as u8);
        assert(old(dest).written().push((v * 4) as u8) =~= old(dest).written() + seq![
            (v * 4) as u8,
        ]);
    } else if v < 0x4000 {
        write_le(dest, v * 4 + 1, 2);
    } else if v < 0x4000_0000 {
        write_le(dest, v * 4 + 2, 4);
    } else {
        let n = byte_len(v);
        proof {
            lemma_min_bytes(v as nat);
            lemma_pow256_small();
            if n < 4 {
                lemma_pow256_monotone(n as nat, 3);
            }
        }
        let b = (((n - 4) * 4) + 3) as u8;
        dest.push_byte(b);
        let ghost mid = dest.written();
        write_le(dest, v, n);
        assert(dest.written() =~= old(dest).written() + (seq![b] + le_bytes(v as nat, n as nat)));
    }
}

/// The number of bytes that a compact encoding at the front of `s` takes, as its first byte
/// tells; one where that byte announces more than 16 further bytes, more than any value up to
/// 2^128 needs.
pub open spec fn compact_mode_len(s: Seq<u8>) -> nat {
    if s.len() == 0 {
        1
    } else {
        let b = s[0];
        if b % 4 == 0 {
            1
        } else if b % 4 == 1 {
            2
        } else if b % 4 == 2 {
            4
        } else if (b / 4) as nat + 4 > 16 {
            1
        } else {
            1 + (b / 4) as nat + 4
        }
    }
}

/// Reads a compact encoding and returns its value, refusing values above `max`.
///
/// Where the bytes that the first byte announces are there, a refusal is "Out of range".
pub(crate) fn read_compact<I: Input>(input: &mut I, max: u128) -> (r: Result<u128, Error>)
    ensures
        final(input).depth_count() == old(input).depth_count(),
        final(input).mem_budget() == old(input).mem_budget(),
        final(input).short_read_error() == old(input).short_read_error(),
        r matches Err(e) ==> (reads_fully(old(input)) && compact_mode_len(old(input).unread())
            <= old(input).unread().len() ==> e.description() == "Out of range"@),
        final(input).hooks_succeed() == old(input).hooks_succeed(),
        r is Ok ==> (compact_parse(old(input).unread()) matches Some((v, _)) && v <= max),
        reads_fully(old(input)) && (compact_parse(old(input).unread()) matches Some((v, _)) && v
            <= max) ==> r is Ok,
        r matches Ok(v) ==> compact_parse(old(input).unread()) == Some(
            (v as nat, compact_encoding(v as nat).len()),
        ),
        r is Ok ==> final(input).unread() == old(input).unread().skip(
            compact_encoding(r->Ok_0 as nat).len() as int,
        ),
{
    let ghost s = old(input).unread();
    let ghost parsed = compact_parse(s);
    proof {
        lemma_pow256_small();
        if parsed is Some {
            lemma_compact_parse_canonical(s);
        }
    }
    let b = input.read_byte()?;
    let mode = b % 4;
    if mode == 0 {
        let v = (b / 4) as u128;
        if v <= max {
            proof {
                assert(input.unread() =~= s.skip(1));
            }
            Ok(v)
        } else {
            Err(Error::new("Out of range"))
        }
    } else if mode == 1 {
        let ghost t = s.drop_first();
        let hi = read_le(input, 1)?;
        proof {
            lemma_le_value_bound(t.take(1));
        }
        let w = b as u128 + 256 * hi;
        proof {
            assert(s.take(2).drop_first() =~= t.take(1));
            assert(le_value(s.take(2)) == s[0] as nat + 256 * le_value(t.take(1)));
            assert(input.unread() =~= s.skip(2));
        }
        let v = w / 4;
        if v >= 0x40 && v <= max {
            Ok(v)
        } else {
            Err(Error::new("Out of range"))
        }
    } else if mode == 2 {
        let ghost t = s.drop_first();
        let hi = read_le(input, 3)?;
        proof {
            lemma_le_value_bound(t.take(3));
        }
        let w = b as u128 + 256 * hi;
        proof {
            assert(s.take(4).drop_first() =~= t.take(3));
            assert(le_value(s.take(4)) == s[0] as nat + 256 * le_value(t.take(3)));
            assert(input.unread() =~= s.skip(4));
        }
        let v = w / 4;
        if v >= 0x4000 && v <= max {
            Ok(v)
        } else {
            Err(Error::new("Out of range"))
        }
    } else {
        let n = (b / 4) as usize + 4;
        if n > 16 {
            proof {
                if parsed is Some {
                    let x = parsed.unwrap().0;
                    lemma_pow256_monotone(16, (n - 1) as nat);
                    assert(x >= pow256(16));
                }
            }
            return Err(Error::new("Out of range"));
        }
        let ghost t = s.drop_first();
        let v = read_le(input, n)?;
        proof {
            assert(s.subrange(1, 1 + n as int) =~= t.take(n as int));
            assert(input.unread() =~= s.skip(1 + n as int));
            lemma_le_value_bound(t.take(n as int));
            lemma_min_bytes(v as nat);
            if v as nat >= pow256((n - 1) as nat) {
                lemma_min_bytes_unique(v as nat, n as nat);
            }
            if min_bytes(v as nat) == n && n >= 1 {
                assert(pow256((n - 1) as nat) <= v as nat);
            }
        }
        if v >= 0x4000_0000 && byte_len(v) == n && v <= max {
            Ok(v)
        } else {
            Err(Error::new("Out of range"))
        }
    }
}

} // verus!
