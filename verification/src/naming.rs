//! Short generated names.
use vstd::prelude::*;

verus! {

/// The two-letter name of `id`: the letter for `id` modulo 26, then the letter for `id / 26`
/// modulo 26, from `a` to `z`.
pub fn stringify(id: u8) -> (r: [u8; 2])
    ensures
        r@ == seq![(97 + id % 26) as u8, (97 + (id / 26) % 26) as u8],
{
    let len: u8 = 26;
    let a: u8 = 97 + id % len;
    let b: u8 = 97 + (id / len) % len;
    let r = [a, b];
    assert(r@ =~= seq![a, b]);
    r
}

} // verus!
