//! Sets and maps ordered by their keys: they encode as a count, then their items in ascending
//! order of key.
use crate::codec::{lemma_limits_same, limits_kept, mem_alignment, Decode, Encode};
use crate::error::Error;
use crate::io::Input;
use crate::memory_limit::MemAlignment;
use crate::compact_spec::{compact_encoding, compact_parse, lemma_compact_encoding_len};
use crate::io::Output;
use crate::sequence::{
    all_encodable, compact_encode_len_to, prefix_count, read_prefix_count, DecodeLength, items_encoding, items_parse, lemma_items_encoding_concat,
    lemma_items_encoding_push, prefixed_items_encoding, prefixed_items_parse,
};
use std::collections::{BTreeMap, BTreeSet};
use vstd::laws_cmp::obeys_cmp;
use vstd::std_specs::cmp::OrdSpec;
use vstd::std_specs::iter::IteratorSpec;
use vstd::prelude::*;
use vstd::std_specs::btree::increasing_seq;

verus! {

broadcast use vstd::std_specs::btree::group_btree_axioms;

/// `a` comes before `b` in the order of `T`.
pub open spec fn key_before<T: Ord>(a: T, b: T) -> bool {
    a.cmp_spec(&b) == core::cmp::Ordering::Less
}

/// The items of `q` come in strictly ascending order.
pub open spec fn ascending<T: Ord>(q: Seq<T>) -> bool {
    forall|i: int, j: int| 0 <= i < j < q.len() ==> key_before(#[trigger] q[i], #[trigger] q[j])
}

/// The items of the set `s` in ascending order.
pub open spec fn ascending_items<T: Ord>(s: Set<T>) -> Seq<T> {
    choose|q: Seq<T>| q.to_set() == s && q.no_duplicates() && ascending(q)
}

/// Under a lawful order, of two keys at most one comes before the other.
proof fn lemma_before_asymmetric<T: Ord>(a: T, b: T)
    requires
        obeys_cmp::<T>(),
    ensures
        key_before(a, b) ==> !key_before(b, a),
{
    reveal(vstd::laws_cmp::obeys_cmp_ord);
    reveal(vstd::laws_cmp::obeys_partial_cmp_spec_properties);
}

/// Two sequences without repeats that hold the same items in ascending order are the same.
proof fn lemma_ascending_unique<T: Ord>(x: Seq<T>, y: Seq<T>)
    requires
        obeys_cmp::<T>(),
        x.no_duplicates(),
        y.no_duplicates(),
        ascending(x),
        ascending(y),
        x.to_set() == y.to_set(),
    ensures
        x == y,
    decreases x.len(),
{
    broadcast use vstd::seq_lib::group_seq_properties;

    if x.len() == 0 {
        if y.len() > 0 {
            assert(y.to_set().contains(y[0]));
        }
        assert(x =~= y);
    } else {
        assert(x.to_set().contains(x[0]));
        if y.len() == 0 {
            assert(false);
        }
        assert(y.contains(x[0]));
        let j = choose|j: int| 0 <= j < y.len() && y[j] == x[0];
        assert(y.to_set().contains(y[0]));
        assert(x.contains(y[0]));
        let i = choose|i: int| 0 <= i < x.len() && x[i] == y[0];
        if i > 0 && j > 0 {
            assert(key_before(x[0], x[i]));
            assert(key_before(y[0], y[j]));
            lemma_before_asymmetric(x[0], y[0]);
        }
        assert(x[0] == y[0]);
        let x1 = x.drop_first();
        let y1 = y.drop_first();
        assert forall|v: T| x1.to_set().contains(v) <==> y1.to_set().contains(v) by {
            if x1.to_set().contains(v) {
                assert(x1.contains(v));
                let k = choose|k: int| 0 <= k < x1.len() && x1[k] == v;
                assert(x[k + 1] == v);
                assert(v != x[0]);
                assert(x.contains(v));
                assert(y.to_set().contains(v));
                let m = choose|m: int| 0 <= m < y.len() && y[m] == v;
                assert(m != 0);
                assert(y1[m - 1] == v);
                assert(y1.contains(v));
            }
            if y1.to_set().contains(v) {
                assert(y1.contains(v));
                let k = choose|k: int| 0 <= k < y1.len() && y1[k] == v;
                assert(y[k + 1] == v);
                assert(v != y[0]);
                assert(y.contains(v));
                assert(x.to_set().contains(v));
                let m = choose|m: int| 0 <= m < x.len() && x[m] == v;
                assert(m != 0);
                assert(x1[m - 1] == v);
                assert(x1.contains(v));
            }
        }
        assert(x1.to_set() =~= y1.to_set());
        assert(ascending(x1)) by {
            assert forall|a: int, b: int| 0 <= a < b < x1.len() implies key_before(
                #[trigger] x1[a],
                #[trigger] x1[b],
            ) by {
                assert(x1[a] == x[a + 1] && x1[b] == x[b + 1]);
            }
        }
        assert(ascending(y1)) by {
            assert forall|a: int, b: int| 0 <= a < b < y1.len() implies key_before(
                #[trigger] y1[a],
                #[trigger] y1[b],
            ) by {
                assert(y1[a] == y[a + 1] && y1[b] == y[b + 1]);
            }
        }
        lemma_ascending_unique(x1, y1);
        assert forall|k: int| 0 <= k < x.len() implies x[k] == y[k] by {
            if k > 0 {
                assert(x[k] == x1[k - 1] && y[k] == y1[k - 1]);
            }
        }
        assert(x =~= y);
    }
}

/// Under a lawful order, a sequence of references without repeats, in increasing order, holds
/// the items it refers to in ascending order.
proof fn lemma_refs_ascending<T: Ord>(r: Seq<&T>)
    requires
        obeys_cmp::<T>(),
        r.no_duplicates(),
        increasing_seq(r),
    ensures
        r.unref().no_duplicates(),
        ascending(r.unref()),
{
    broadcast use vstd::laws_cmp::group_laws_cmp;
    broadcast use vstd::laws_cmp::lemma_ref_obeys_cmp_spec;
    assert(obeys_cmp::<&T>());
    vstd::std_specs::btree::axiom_increasing_seq_meaning::<&T>(r);
    assert(increasing_seq(r));
    assert(forall|i: int, j: int| 0 <= i < j < r.len() ==> OrdSpec::cmp_spec(&r[i], &r[j]) is Less);
    let q = r.unref();
    assert forall|i: int, j: int| 0 <= i < j < q.len() implies key_before(
        #[trigger] q[i],
        #[trigger] q[j],
    ) by {
        assert(OrdSpec::cmp_spec(&r[i], &r[j]) is Less);
    }
    assert forall|i: int, j: int| 0 <= i < q.len() && 0 <= j < q.len() && i != j implies q[i]
        != q[j] by {
        assert(r[i] != r[j]);
    }
}

/// Under a lawful order, the items that iterating over a set yields are its items in ascending
/// order.
proof fn lemma_set_iteration<T: Ord>(s: &BTreeSet<T>, r: Seq<&T>)
    requires
        obeys_cmp::<T>(),
        r.unref().to_set() == s@,
        r.no_duplicates(),
        increasing_seq(r),
    ensures
        r.unref() == ascending_items(s@),
{
    lemma_refs_ascending(r);
    let a = ascending_items(s@);
    assert(a.to_set() == s@ && a.no_duplicates() && ascending(a));
    lemma_ascending_unique(r.unref(), a);
}

impl<T: Encode + Ord> Encode for BTreeSet<T> {
    open spec fn spec_encode(&self) -> Seq<u8> {
        prefixed_items_encoding(ascending_items(self@))
    }

    /// A set encodes where its items are ordered lawfully, are at most `u32::MAX`, and each
    /// encodes.
    open spec fn encodable(&self) -> bool {
        &&& obeys_cmp::<T>()
        &&& self@.len() <= u32::MAX
        &&& all_encodable(ascending_items(self@))
    }

    fn encode_to<W: Output>(&self, dest: &mut W) {
        let iter = self.iter();
        let ghost q = iter.remaining().unref();
        proof {
            lemma_set_iteration(self, iter.remaining());
        }
        let n = self.len();
        proof {
            lemma_compact_encoding_len(n as nat);
        }
        let _ = compact_encode_len_to(dest, n);
        let ghost start = dest.written();
        for x in it: iter
            invariant
                q == ascending_items(self@),
                all_encodable(q),
                start.len() + items_encoding(q).len() <= usize::MAX,
                it.seq().unref() == q,
                dest.written() == start + items_encoding(q.take(it.index())),
        {
            proof {
                lemma_items_encoding_push(q.take(it.index()), q[it.index()]);
                assert(q.take(it.index()).push(q[it.index()]) =~= q.take(it.index() + 1));
                lemma_items_encoding_concat(q.take(it.index() + 1), q.skip(it.index() + 1));
                assert(q.take(it.index() + 1) + q.skip(it.index() + 1) =~= q);
            }
            x.encode_to(dest);
        }
        assert(q.take(q.len() as int) =~= q);
    }
}

/// The order of `T` is lawful: a total order that agrees with equality.
pub open spec fn lawful_order<T: Ord>() -> bool {
    obeys_cmp::<T>()
}

/// Items with a lawful order whose encodings follow one another at the front of `bytes` come in
/// ascending order, whichever values of `T` have those encodings.
pub open spec fn ascending_at<T: Encode + Ord>(items: Seq<u8>, n: nat) -> bool {
    &&& lawful_order::<T>()
    &&& forall|q: Seq<T>|
        q.len() == n && all_encodable(q) && #[trigger] items_encoding(q) == items ==> ascending(q)
}

/// The length of the encoding of a set at the front of `bytes`: a count, then that many items
/// in ascending order. Items out of order, or repeated, are still read, but make no such
/// encoding.
pub open spec fn set_parse<T: Decode + Ord>(bytes: Seq<u8>) -> Option<nat> {
    match compact_parse(bytes) {
        Some((n, k)) => match prefixed_items_parse::<T>(bytes) {
            Some(l) => if ascending_at::<T>(bytes.subrange(k as int, l as int), n) {
                Some(l)
            } else {
                None
            },
            None => None,
        },
        None => None,
    }
}

/// Items in ascending order hold no repeat.
proof fn lemma_ascending_distinct<T: Ord>(q: Seq<T>)
    requires
        lawful_order::<T>(),
        ascending(q),
    ensures
        q.no_duplicates(),
{
    assert forall|i: int, j: int| 0 <= i < q.len() && 0 <= j < q.len() && i != j implies q[i]
        != q[j] by {
        if i < j {
            assert(key_before(q[i], q[j]));
            lemma_before_asymmetric(q[i], q[j]);
        } else {
            assert(key_before(q[j], q[i]));
            lemma_before_asymmetric(q[j], q[i]);
        }
    }
}

/// Puts the items of `v` into a set.
fn set_of_items<T: Ord>(v: Vec<T>) -> (s: BTreeSet<T>)
    ensures
        lawful_order::<T>() ==> s@ == v@.to_set(),
{
    let ghost q = v@;
    let mut v = v;
    let mut s = BTreeSet::new();
    proof {
        assert(q.skip(q.len() as int).to_set() =~= Set::<T>::empty());
    }
    while v.len() > 0
        invariant
            v@ == q.take(v@.len() as int),
            v@.len() <= q.len(),
            lawful_order::<T>() ==> s@ == q.skip(v@.len() as int).to_set(),
        decreases v@.len(),
    {
        let ghost k = v@.len();
        let x = v.pop().unwrap();
        proof {
            assert(x == q[k - 1]);
            assert(q.skip(k - 1) =~= seq![x] + q.skip(k as int));
        }
        s.insert(x);
        proof {
            if lawful_order::<T>() {
                assert(q.skip(k - 1).to_set() =~= q.skip(k as int).to_set().insert(x)) by {
                    broadcast use vstd::seq_lib::group_seq_properties;
                    let t1 = q.skip(k - 1);
                    let t2 = q.skip(k as int);
                    assert forall|y: T| #[trigger] t1.contains(y) <==> (y == x || t2.contains(y)) by {
                        if t1.contains(y) && y != x {
                            let j = choose|j: int| 0 <= j < t1.len() && t1[j] == y;
                            assert(j > 0);
                            assert(t2[j - 1] == y);
                        }
                        if t2.contains(y) {
                            let j = choose|j: int| 0 <= j < t2.len() && t2[j] == y;
                            assert(t1[j + 1] == y);
                        }
                        if y == x {
                            assert(t1[0] == y);
                        }
                    }
                }
            }
            assert(v@ =~= q.take(v@.len() as int));
        }
    }
    proof {
        assert(q.skip(0) =~= q);
    }
    s
}

/// What decoding a set from `s` gives, where `s` starts with a set's encoding and `q` are the
/// items read: the items come in ascending order, and the set of them encodes as they were read.
proof fn lemma_set_decoded<T: Decode + Ord>(s: Seq<u8>, q: Seq<T>)
    requires
        set_parse::<T>(s) is Some,
        all_encodable(q),
        q.len() <= u32::MAX,
        prefixed_items_parse::<T>(s) == Some(prefixed_items_encoding(q).len()),
        prefixed_items_encoding(q).len() <= s.len(),
        s.take(prefixed_items_encoding(q).len() as int) == prefixed_items_encoding(q),
    ensures
        lawful_order::<T>(),
        ascending(q),
        q.no_duplicates(),
        ascending_items(q.to_set()) == q,
        q.to_set().len() == q.len(),
{
    let c = compact_encoding(q.len());
    let body = items_encoding(q);
    crate::compact_spec::lemma_compact_u128(q.len());
    lemma_compact_encoding_len(q.len());
    crate::compact_spec::lemma_compact_parse_encoding(q.len(), body + s.skip(prefixed_items_encoding(q).len() as int));
    let total = prefixed_items_encoding(q).len();
    assert(prefixed_items_encoding(q) == c + body);
    assert(s =~= s.take(total as int) + s.skip(total as int));
    assert(s =~= c + (body + s.skip(total as int)));
    let (n, k) = compact_parse(s).unwrap();
    let l = prefixed_items_parse::<T>(s).unwrap();
    assert(n == q.len() && k == c.len());
    assert(s.subrange(k as int, l as int) =~= body);
    assert(ascending_at::<T>(s.subrange(k as int, l as int), n));
    assert(ascending(q));
    lemma_ascending_distinct(q);
    q.unique_seq_to_set();
    let a = ascending_items(q.to_set());
    assert(q.no_duplicates() && ascending(q));
    assert(a.to_set() == q.to_set() && a.no_duplicates() && ascending(a));
    lemma_ascending_unique(a, q);
}

impl<T: Decode + Ord> Decode for BTreeSet<T> {
    open spec fn spec_parse(bytes: Seq<u8>) -> Option<nat> {
        set_parse::<T>(bytes)
    }

    open spec fn spec_depth(bytes: Seq<u8>) -> nat {
        <Vec<T>>::spec_depth(bytes)
    }

    open spec fn spec_mem(bytes: Seq<u8>, align: Option<MemAlignment>) -> nat {
        <Vec<T>>::spec_mem(bytes, align)
    }

    /// Reads a count, then that many items, and puts them into a set: items out of order are
    /// sorted, and a repeated item is kept once.
    fn decode<I: Input>(input: &mut I) -> (r: Result<BTreeSet<T>, Error>)
        ensures
            lawful_order::<T>() && prefixed_items_parse::<T>(old(input).unread()) is Some ==> (
            r matches Ok(v) ==> exists|q: Seq<T>|
                #[trigger] prefixed_items_encoding(q).len() <= old(input).unread().len()
                    && old(input).unread().take(prefixed_items_encoding(q).len() as int)
                    == prefixed_items_encoding(q) && all_encodable(q) && v@ == q.to_set()),
    {
        let ghost s = old(input).unread();
        let ghost s0 = *old(input);
        let ghost al = mem_alignment(s0);
        let rv = <Vec<T>>::decode(input);
        let ghost rv_g = rv;
        match rv {
            Err(e) => {
                proof {
                    assert(<Vec<T>>::spec_parse(s) is None || !s0.hooks_succeed());
                    assert(prefixed_items_parse::<T>(s) is None ==> set_parse::<T>(s) is None);
                    if Self::spec_parse(s) is Some {
                        assert(<Vec<T>>::spec_parse(s) is Some);
                        assert(limits_kept(s0, *input, rv_g, <Vec<T>>::spec_depth(s), <Vec<T>>::spec_mem(s, al)));
                        lemma_limits_same(s0, *input, rv_g, Err::<BTreeSet<T>, Error>(e), <Vec<T>>::spec_depth(s), <Vec<T>>::spec_mem(s, al));
                        assert(limits_kept(*old(input), *input, Err::<BTreeSet<T>, Error>(e), Self::spec_depth(old(input).unread()), Self::spec_mem(old(input).unread(), mem_alignment(*old(input)))));
                    }
                }
                Err(e)
            },
            Ok(v) => {
                let ghost q = v@;
                let set = set_of_items(v);
                proof {
                    if prefixed_items_parse::<T>(s) is Some {
                        assert(prefixed_items_encoding(q).len() <= s.len());
                    }
                    if Self::spec_parse(s) is Some {
                        let (n, k) = compact_parse(s).unwrap();
                        let l = prefixed_items_parse::<T>(s).unwrap();
                        lemma_set_decoded(s, q);
                        lemma_limits_same(s0, *input, rv_g, Ok::<BTreeSet<T>, Error>(set), <Vec<T>>::spec_depth(s), <Vec<T>>::spec_mem(s, al));
                    }
                }
                Ok(set)
            },
        }
    }
}

impl<T> DecodeLength for BTreeSet<T> {
    open spec fn spec_len(self_encoded: Seq<u8>) -> Option<nat> {
        prefix_count(self_encoded)
    }

    fn len(self_encoded: &[u8]) -> (r: Result<usize, Error>) {
        read_prefix_count(self_encoded)
    }
}

impl<K, V> DecodeLength for BTreeMap<K, V> {
    open spec fn spec_len(self_encoded: Seq<u8>) -> Option<nat> {
        prefix_count(self_encoded)
    }

    fn len(self_encoded: &[u8]) -> (r: Result<usize, Error>) {
        read_prefix_count(self_encoded)
    }
}

/// The keys of `q`, in order.
pub open spec fn keys_of<K, V>(q: Seq<(K, V)>) -> Seq<K> {
    q.map_values(|kv: (K, V)| kv.0)
}

/// The entries of the map `m`, in ascending order of key.
pub open spec fn map_entries<K: Ord, V>(m: Map<K, V>) -> Seq<(K, V)> {
    ascending_items(m.dom()).map_values(|k: K| (k, m[k]))
}

/// Under a lawful order, the entries that iterating over a map yields are its entries in
/// ascending order of key.
proof fn lemma_map_iteration<K: Ord, V>(m: &BTreeMap<K, V>, r: Seq<(&K, &V)>)
    requires
        obeys_cmp::<K>(),
        r.len() == m@.dom().len(),
        forall|i: int| 0 <= i < r.len() ==> m@.contains_key(*r[i].0) && m@[*r[i].0] == *r[i].1,
        forall|k: K| #[trigger] m@.contains_key(k) ==> r.contains((&k, &m@[k])),
        r.no_duplicates(),
        increasing_seq(r.map_values(|kv: (&K, &V)| *kv.0)),
    ensures
        r.unref() == map_entries(m@),
{
    broadcast use vstd::laws_cmp::group_laws_cmp;
    let ks = r.map_values(|kv: (&K, &V)| *kv.0);
    assert(ascending(ks));
    lemma_ascending_distinct(ks);
    assert forall|k: K| ks.to_set().contains(k) <==> m@.dom().contains(k) by {
        broadcast use vstd::seq_lib::group_seq_properties;
        if ks.to_set().contains(k) {
            assert(ks.contains(k));
            let i = choose|i: int| 0 <= i < ks.len() && ks[i] == k;
            assert(m@.contains_key(*r[i].0));
        }
        if m@.dom().contains(k) {
            assert(r.contains((&k, &m@[k])));
            let i = choose|i: int| 0 <= i < r.len() && r[i] == (&k, &m@[k]);
            assert(ks[i] == k);
            assert(ks.contains(k));
        }
    }
    assert(ks.to_set() =~= m@.dom());
    let a = ascending_items(m@.dom());
    assert(ks.to_set() == m@.dom() && ks.no_duplicates() && ascending(ks));
    assert(a.to_set() == m@.dom() && a.no_duplicates() && ascending(a));
    lemma_ascending_unique(ks, a);
    assert(r.unref() =~= map_entries(m@));
}

impl<K: Encode + Ord, V: Encode> Encode for BTreeMap<K, V> {
    open spec fn spec_encode(&self) -> Seq<u8> {
        prefixed_items_encoding(map_entries(self@))
    }

    /// A map encodes where its keys are ordered lawfully, its entries are at most `u32::MAX`,
    /// and each encodes.
    open spec fn encodable(&self) -> bool {
        &&& obeys_cmp::<K>()
        &&& self@.dom().len() <= u32::MAX
        &&& all_encodable(map_entries(self@))
    }

    fn encode_to<W: Output>(&self, dest: &mut W) {
        let iter = self.iter();
        let ghost q = iter.remaining().unref();
        proof {
            lemma_map_iteration(self, iter.remaining());
        }
        let n = self.len();
        proof {
            lemma_compact_encoding_len(n as nat);
        }
        let _ = compact_encode_len_to(dest, n);
        let ghost start = dest.written();
        for kv in it: iter
            invariant
                q == map_entries(self@),
                all_encodable(q),
                start.len() + items_encoding(q).len() <= usize::MAX,
                it.seq().unref() == q,
                dest.written() == start + items_encoding(q.take(it.index())),
        {
            proof {
                lemma_items_encoding_push(q.take(it.index()), q[it.index()]);
                assert(q.take(it.index()).push(q[it.index()]) =~= q.take(it.index() + 1));
                lemma_items_encoding_concat(q.take(it.index() + 1), q.skip(it.index() + 1));
                assert(q.take(it.index() + 1) + q.skip(it.index() + 1) =~= q);
            }
            let (k, v) = kv;
            proof {
                assert(it.seq().unref()[it.index()] == (*it.seq()[it.index()].0, *it.seq()[it.index()].1));
                assert(q[it.index()] == (*k, *v));
                assert(q[it.index()].spec_encode() == k.spec_encode() + v.spec_encode());
                assert(q[it.index()].encodable());
                assert(k.encodable() && v.encodable());
                assert(dest.written().len() + k.spec_encode().len() + v.spec_encode().len()
                    <= usize::MAX);
            }
            k.encode_to(dest);
            v.encode_to(dest);
        }
        assert(q.take(q.len() as int) =~= q);
    }
}

/// The map that the entries `q` make when the later of two entries with the same key wins.
pub open spec fn map_of<K, V>(q: Seq<(K, V)>) -> Map<K, V>
    decreases q.len(),
{
    if q.len() == 0 {
        Map::empty()
    } else {
        let rest = map_of(q.drop_first());
        if rest.contains_key(q[0].0) {
            rest
        } else {
            rest.insert(q[0].0, q[0].1)
        }
    }
}

/// Entries with a lawful order of keys whose encodings follow one another in `items` come in
/// ascending order of key, whichever values have those encodings.
pub open spec fn keys_ascending_at<K: Encode + Ord, V: Encode>(items: Seq<u8>, n: nat) -> bool {
    &&& lawful_order::<K>()
    &&& forall|q: Seq<(K, V)>|
        q.len() == n && all_encodable(q) && #[trigger] items_encoding(q) == items ==> ascending(
            keys_of(q),
        )
}

/// The length of the encoding of a map at the front of `bytes`: a count, then that many
/// entries in ascending order of key. Entries out of order, or with a repeated key, are still
/// read, but make no such encoding.
pub open spec fn map_parse<K: Decode + Ord, V: Decode>(bytes: Seq<u8>) -> Option<nat> {
    match compact_parse(bytes) {
        Some((n, k)) => match prefixed_items_parse::<(K, V)>(bytes) {
            Some(l) => if keys_ascending_at::<K, V>(bytes.subrange(k as int, l as int), n) {
                Some(l)
            } else {
                None
            },
            None => None,
        },
        None => None,
    }
}

/// Puts the entries of `v` into a map; of two entries with the same key, the later wins.
fn map_of_entries<K: Ord, V>(v: Vec<(K, V)>) -> (m: BTreeMap<K, V>)
    ensures
        lawful_order::<K>() ==> m@ == map_of(v@),
{
    let ghost q = v@;
    let mut v = v;
    let mut m = BTreeMap::new();
    proof {
        assert(q.skip(q.len() as int) =~= Seq::<(K, V)>::empty());
    }
    while v.len() > 0
        invariant
            v@ == q.take(v@.len() as int),
            v@.len() <= q.len(),
            lawful_order::<K>() ==> m@ == map_of(q.skip(v@.len() as int)),
        decreases v@.len(),
    {
        let ghost j = v@.len();
        let (key, val) = v.pop().unwrap();
        proof {
            assert(q[j - 1] == (key, val));
            assert(q.skip(j - 1).drop_first() =~= q.skip(j as int));
            assert(q.skip(j - 1)[0] == (key, val));
        }
        if !m.contains_key(&key) {
            m.insert(key, val);
        }
        proof {
            assert(v@ =~= q.take(v@.len() as int));
        }
    }
    proof {
        assert(q.skip(0) =~= q);
    }
    m
}

/// Entries with distinct keys make a map that has exactly their keys, each with its value.
proof fn lemma_map_of_distinct<K, V>(q: Seq<(K, V)>)
    requires
        keys_of(q).no_duplicates(),
    ensures
        map_of(q).dom() == keys_of(q).to_set(),
        forall|i: int| 0 <= i < q.len() ==> #[trigger] map_of(q)[q[i].0] == q[i].1,
    decreases q.len(),
{
    broadcast use vstd::seq_lib::group_seq_properties;
    if q.len() > 0 {
        let rest = q.drop_first();
        assert(keys_of(rest) =~= keys_of(q).drop_first());
        assert(keys_of(rest).no_duplicates()) by {
            assert forall|a: int, b: int| 0 <= a < keys_of(rest).len() && 0 <= b < keys_of(rest).len() && a != b implies keys_of(rest)[a] != keys_of(rest)[b] by {
                assert(keys_of(rest)[a] == keys_of(q)[a + 1]);
                assert(keys_of(rest)[b] == keys_of(q)[b + 1]);
            }
        }
        lemma_map_of_distinct(rest);
        assert(!keys_of(rest).contains(q[0].0)) by {
            if keys_of(rest).contains(q[0].0) {
                let a = choose|a: int| 0 <= a < keys_of(rest).len() && keys_of(rest)[a] == q[0].0;
                assert(keys_of(q)[a + 1] == keys_of(q)[0]);
            }
        }
        assert(!map_of(rest).contains_key(q[0].0));
        assert(map_of(q).dom() =~= keys_of(q).to_set()) by {
            assert forall|k: K| map_of(q).dom().contains(k) <==> keys_of(q).to_set().contains(k) by {
                if keys_of(q).contains(k) {
                    let a = choose|a: int| 0 <= a < keys_of(q).len() && keys_of(q)[a] == k;
                    if a > 0 {
                        assert(keys_of(rest)[a - 1] == k);
                        assert(keys_of(rest).contains(k));
                    }
                }
                if map_of(q).dom().contains(k) && k != q[0].0 {
                    assert(keys_of(rest).to_set().contains(k));
                    let a = choose|a: int| 0 <= a < keys_of(rest).len() && keys_of(rest)[a] == k;
                    assert(keys_of(q)[a + 1] == k);
                    assert(keys_of(q).contains(k));
                }
                if k == q[0].0 {
                    assert(keys_of(q)[0] == k);
                    assert(keys_of(q).contains(k));
                }
            }
        }
        assert forall|i: int| 0 <= i < q.len() implies #[trigger] map_of(q)[q[i].0] == q[i].1 by {
            if i > 0 {
                assert(rest[i - 1] == q[i]);
                assert(map_of(rest)[rest[i - 1].0] == rest[i - 1].1);
                assert(keys_of(q)[i] != keys_of(q)[0]);
            }
        }
    }
}

/// What decoding a map from `s` gives, where `s` starts with a map's encoding and `q` are the
/// entries read: the keys come in ascending order, and the map of the entries encodes as they
/// were read.
proof fn lemma_map_decoded<K: Decode + Ord, V: Decode>(s: Seq<u8>, q: Seq<(K, V)>)
    requires
        map_parse::<K, V>(s) is Some,
        all_encodable(q),
        q.len() <= u32::MAX,
        prefixed_items_parse::<(K, V)>(s) == Some(prefixed_items_encoding(q).len()),
        prefixed_items_encoding(q).len() <= s.len(),
        s.take(prefixed_items_encoding(q).len() as int) == prefixed_items_encoding(q),
    ensures
        lawful_order::<K>(),
        map_entries(map_of(q)) == q,
        map_of(q).dom().len() == q.len(),
{
    let c = compact_encoding(q.len());
    let body = items_encoding(q);
    crate::compact_spec::lemma_compact_u128(q.len());
    lemma_compact_encoding_len(q.len());
    let total = prefixed_items_encoding(q).len();
    assert(prefixed_items_encoding(q) == c + body);
    assert(s =~= s.take(total as int) + s.skip(total as int));
    assert(s =~= c + (body + s.skip(total as int)));
    crate::compact_spec::lemma_compact_parse_encoding(q.len(), body + s.skip(total as int));
    let (n, k) = compact_parse(s).unwrap();
    let l = prefixed_items_parse::<(K, V)>(s).unwrap();
    assert(n == q.len() && k == c.len());
    assert(s.subrange(k as int, l as int) =~= body);
    assert(keys_ascending_at::<K, V>(s.subrange(k as int, l as int), n));
    let ks = keys_of(q);
    assert(ascending(ks));
    lemma_ascending_distinct(ks);
    lemma_map_of_distinct(q);
    ks.unique_seq_to_set();
    let a = ascending_items(map_of(q).dom());
    assert(ks.to_set() == map_of(q).dom() && ks.no_duplicates() && ascending(ks));
    assert(a.to_set() == map_of(q).dom() && a.no_duplicates() && ascending(a));
    lemma_ascending_unique(a, ks);
    assert forall|i: int| 0 <= i < q.len() implies map_entries(map_of(q))[i] == q[i] by {
        assert(a[i] == q[i].0);
        assert(map_of(q)[q[i].0] == q[i].1);
    }
    assert(map_entries(map_of(q)) =~= q);
}

impl<K: Decode + Ord, V: Decode> Decode for BTreeMap<K, V> {
    open spec fn spec_parse(bytes: Seq<u8>) -> Option<nat> {
        map_parse::<K, V>(bytes)
    }

    open spec fn spec_depth(bytes: Seq<u8>) -> nat {
        <Vec<(K, V)>>::spec_depth(bytes)
    }

    open spec fn spec_mem(bytes: Seq<u8>, align: Option<MemAlignment>) -> nat {
        <Vec<(K, V)>>::spec_mem(bytes, align)
    }

    /// Reads a count, then that many entries, and puts them into a map: entries out of order
    /// are sorted, and of two entries with the same key the later wins.
    fn decode<I: Input>(input: &mut I) -> (r: Result<BTreeMap<K, V>, Error>)
        ensures
            lawful_order::<K>() && prefixed_items_parse::<(K, V)>(old(input).unread()) is Some ==> (
            r matches Ok(m) ==> exists|q: Seq<(K, V)>|
                #[trigger] prefixed_items_encoding(q).len() <= old(input).unread().len()
                    && old(input).unread().take(prefixed_items_encoding(q).len() as int)
                    == prefixed_items_encoding(q) && all_encodable(q) && m@ == map_of(q)),
    {
        let ghost s = old(input).unread();
        let ghost s0 = *old(input);
        let ghost al = mem_alignment(s0);
        let rv = <Vec<(K, V)>>::decode(input);
        let ghost rv_g = rv;
        match rv {
            Err(e) => {
                proof {
                    assert(<Vec<(K, V)>>::spec_parse(s) is None || !s0.hooks_succeed());
                    assert(prefixed_items_parse::<(K, V)>(s) is None ==> map_parse::<K, V>(s) is None);
                    if Self::spec_parse(s) is Some {
                        assert(<Vec<(K, V)>>::spec_parse(s) is Some);
                        assert(limits_kept(s0, *input, rv_g, <Vec<(K, V)>>::spec_depth(s), <Vec<(K, V)>>::spec_mem(s, al)));
                        lemma_limits_same(s0, *input, rv_g, Err::<BTreeMap<K, V>, Error>(e), <Vec<(K, V)>>::spec_depth(s), <Vec<(K, V)>>::spec_mem(s, al));
                        assert(limits_kept(*old(input), *input, Err::<BTreeMap<K, V>, Error>(e), Self::spec_depth(old(input).unread()), Self::spec_mem(old(input).unread(), mem_alignment(*old(input)))));
                    }
                }
                Err(e)
            },
            Ok(v) => {
                let ghost q = v@;
                let map = map_of_entries(v);
                proof {
                    if prefixed_items_parse::<(K, V)>(s) is Some {
                        assert(prefixed_items_encoding(q).len() <= s.len());
                    }
                    if Self::spec_parse(s) is Some {
                        lemma_map_decoded(s, q);
                        lemma_limits_same(s0, *input, rv_g, Ok::<BTreeMap<K, V>, Error>(map), <Vec<(K, V)>>::spec_depth(s), <Vec<(K, V)>>::spec_mem(s, al));
                    }
                }
                Ok(map)
            },
        }
    }
}


/// A set or a map opens one level of its own, as a sequence does: with a count in front it nests
/// at least one level deep.
pub proof fn lemma_ordered_depth<K: Decode + Ord, V: Decode>(bytes: Seq<u8>)
    ensures
        compact_parse(bytes) is Some ==> <BTreeSet<K>>::spec_depth(bytes) >= 1,
        compact_parse(bytes) is Some ==> <BTreeMap<K, V>>::spec_depth(bytes) >= 1,
{
    crate::sequence::lemma_sequence_depth::<K>(bytes);
    crate::sequence::lemma_sequence_depth::<(K, V)>(bytes);
}

} // verus!
