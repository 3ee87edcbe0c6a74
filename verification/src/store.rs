//! The ordered key/value store the protocol runs against.
//!
//! Entries are kept sorted by key with no duplicate keys. The store offers
//! range iteration, fingerprinting of a range, and point insert/remove/lookup;
//! every operation's contract is stated over the sequence of entry models.

use vstd::prelude::*;

use crate::entry::{entry_fp, Entry, EntryV};
use crate::fingerprint::{
    empty_fp, lemma_xor32_assoc, lemma_xor32_comm, lemma_xor32_zero, xor32, zero32, Fingerprint,
};
use crate::keys::{
    clone_key, key_cmp, key_le, key_lt, lemma_key_lt_irreflexive, lemma_key_lt_transitive,
    KeyOrder,
};
use crate::range::{Range, RangeV};

verus! {

/// The models of a sequence of entries.
pub open spec fn entries_view(s: Seq<Entry>) -> Seq<EntryV> {
    s.map_values(|e: Entry| e@)
}

/// Keys strictly increase along the sequence.
pub open spec fn sorted_by_key(s: Seq<EntryV>) -> bool {
    forall|i: int, j: int| 0 <= i < j < s.len() ==> key_lt(s[i].key, s[j].key)
}

/// No two entries share a key.
pub open spec fn unique_keys(s: Seq<EntryV>) -> bool {
    forall|i: int, j: int| 0 <= i < j < s.len() ==> s[i].key != s[j].key
}

/// Some entry of `s` has key `k`.
pub open spec fn contains_key(s: Seq<EntryV>, k: Seq<u8>) -> bool {
    exists|i: int| 0 <= i < s.len() && s[i].key == k
}

/// The value stored under `k`; meaningful when the keys of `s` are unique.
pub open spec fn value_of(s: Seq<EntryV>, k: Seq<u8>) -> Seq<u8> {
    let i = choose|i: int| 0 <= i < s.len() && s[i].key == k;
    s[i].value
}

pub proof fn lemma_sorted_unique(s: Seq<EntryV>)
    requires
        sorted_by_key(s),
    ensures
        unique_keys(s),
{
    assert forall|i: int, j: int| 0 <= i < j < s.len() implies s[i].key != s[j].key by {
        lemma_key_lt_irreflexive(s[i].key);
    }
}

/// Under unique keys, the value stored at index `i` is the value of its key.
pub proof fn lemma_value_at(s: Seq<EntryV>, i: int)
    requires
        unique_keys(s),
        0 <= i < s.len(),
    ensures
        contains_key(s, s[i].key),
        value_of(s, s[i].key) == s[i].value,
{
    assert(0 <= i < s.len() && s[i].key == s[i].key);
    let j = choose|j: int| 0 <= j < s.len() && s[j].key == s[i].key;
    if j != i {
        if j < i {
            assert(s[j].key != s[i].key);
        } else {
            assert(s[i].key != s[j].key);
        }
    }
}

/// The predicate "the key lies in range `r`", as a function value, so that
/// filtered sequences over the same range are recognisably the same.
pub open spec fn range_pred(r: RangeV) -> spec_fn(Seq<u8>) -> bool {
    |k: Seq<u8>| r.contains(k)
}

/// The entries of `s` whose keys satisfy `p`, in their order in `s`.
pub open spec fn entries_matching(s: Seq<EntryV>, p: spec_fn(Seq<u8>) -> bool) -> Seq<EntryV> {
    s.filter(|e: EntryV| p(e.key))
}

/// The entries of `s` whose keys lie in `r`, in their order in `s`.
pub open spec fn range_entries(s: Seq<EntryV>, r: RangeV) -> Seq<EntryV> {
    entries_matching(s, range_pred(r))
}

/// XOR of the per-entry digests of `s`, starting from all zeroes.
pub open spec fn fp_xor_all(s: Seq<EntryV>) -> Seq<u8>
    decreases s.len(),
{
    if s.len() == 0 {
        zero32()
    } else {
        xor32(fp_xor_all(s.drop_last()), entry_fp(s.last()))
    }
}

/// The fingerprint of a set of entries: the agreed empty-set constant XORed
/// with the per-entry digests.
pub open spec fn fp_of(s: Seq<EntryV>) -> Seq<u8> {
    xor32(empty_fp(), fp_xor_all(s))
}

/// Filtering one more entry extends the filtered sequence by that entry
/// exactly when its key matches.
pub proof fn lemma_entries_matching_take_step(s: Seq<EntryV>, p: spec_fn(Seq<u8>) -> bool, i: int)
    requires
        0 <= i < s.len(),
    ensures
        entries_matching(s.take(i + 1), p) == if p(s[i].key) {
            entries_matching(s.take(i), p).push(s[i])
        } else {
            entries_matching(s.take(i), p)
        },
{
    reveal(Seq::filter);
    let t = s.take(i + 1);
    assert(t.drop_last() =~= s.take(i));
    assert(t.last() == s[i]);
}

/// No key matches: nothing is selected.
pub proof fn lemma_entries_matching_none(s: Seq<EntryV>, p: spec_fn(Seq<u8>) -> bool)
    requires
        forall|k: Seq<u8>| !(#[trigger] p(k)),
    ensures
        entries_matching(s, p) == Seq::<EntryV>::empty(),
    decreases s.len(),
{
    reveal(Seq::filter);
    if s.len() == 0 {
        assert(entries_matching(s, p) =~= Seq::<EntryV>::empty());
    } else {
        lemma_entries_matching_none(s.drop_last(), p);
    }
}

/// Every selected entry is an entry of `s`.
pub proof fn lemma_entries_matching_membership(
    s: Seq<EntryV>,
    p: spec_fn(Seq<u8>) -> bool,
    i: int,
)
    requires
        0 <= i < entries_matching(s, p).len(),
    ensures
        exists|j: int| 0 <= j < s.len() && s[j] == entries_matching(s, p)[i],
    decreases s.len(),
{
    reveal(Seq::filter);
    if s.len() > 0 {
        let s0 = s.drop_last();
        let f0 = entries_matching(s0, p);
        if p(s.last().key) && i == f0.len() {
            assert(s[s.len() - 1] == entries_matching(s, p)[i]);
        } else {
            lemma_entries_matching_membership(s0, p, i);
            let j = choose|j: int| 0 <= j < s0.len() && s0[j] == f0[i];
            assert(s[j] == entries_matching(s, p)[i]);
        }
    }
}

/// Every selected entry's key satisfies the predicate.
pub proof fn lemma_entries_matching_pred(s: Seq<EntryV>, p: spec_fn(Seq<u8>) -> bool, i: int)
    requires
        0 <= i < entries_matching(s, p).len(),
    ensures
        p(entries_matching(s, p)[i].key),
    decreases s.len(),
{
    reveal(Seq::filter);
    if s.len() > 0 {
        let s0 = s.drop_last();
        let f0 = entries_matching(s0, p);
        if p(s.last().key) && i == f0.len() {
        } else {
            lemma_entries_matching_pred(s0, p, i);
        }
    }
}

/// Every entry of `s` whose key satisfies the predicate is selected.
pub proof fn lemma_entries_matching_complete(s: Seq<EntryV>, p: spec_fn(Seq<u8>) -> bool, i: int)
    requires
        0 <= i < s.len(),
        p(s[i].key),
    ensures
        exists|j: int|
            0 <= j < entries_matching(s, p).len() && entries_matching(s, p)[j] == s[i],
    decreases s.len(),
{
    reveal(Seq::filter);
    if s.len() > 0 {
        let s0 = s.drop_last();
        let f0 = entries_matching(s0, p);
        if i == s.len() - 1 {
            assert(entries_matching(s, p) == f0.push(s.last()));
            assert(entries_matching(s, p)[f0.len() as int] == s[i]);
        } else {
            assert(s0[i] == s[i]);
            lemma_entries_matching_complete(s0, p, i);
            let j = choose|j: int| 0 <= j < f0.len() && f0[j] == s0[i];
            if p(s.last().key) {
                assert(entries_matching(s, p)[j] == s[i]);
            } else {
                assert(entries_matching(s, p)[j] == s[i]);
            }
        }
    }
}

/// Filtering keeps the entries in order, so a selection from a sorted
/// sequence is sorted.
pub proof fn lemma_entries_matching_sorted(s: Seq<EntryV>, p: spec_fn(Seq<u8>) -> bool)
    requires
        sorted_by_key(s),
    ensures
        sorted_by_key(entries_matching(s, p)),
    decreases s.len(),
{
    reveal(Seq::filter);
    if s.len() > 0 {
        let s0 = s.drop_last();
        assert(sorted_by_key(s0)) by {
            assert(forall|i: int| 0 <= i < s0.len() ==> s0[i] == s[i]);
        }
        lemma_entries_matching_sorted(s0, p);
        let f0 = entries_matching(s0, p);
        if p(s.last().key) {
            let f = f0.push(s.last());
            assert(entries_matching(s, p) == f);
            assert forall|a: int, b: int| 0 <= a < b < f.len() implies key_lt(
                f[a].key,
                f[b].key,
            ) by {
                if b == f0.len() {
                    lemma_entries_matching_membership(s0, p, a);
                    let j = choose|j: int| 0 <= j < s0.len() && s0[j] == f0[a];
                    assert(s[j] == f[a]);
                    assert(key_lt(s[j].key, s.last().key));
                }
            }
        }
    }
}

/// A range that denotes the whole key space selects every entry.
pub proof fn lemma_range_entries_all(s: Seq<EntryV>, r: RangeV)
    requires
        r.is_all(),
    ensures
        range_entries(s, r) == s,
    decreases s.len(),
{
    reveal(Seq::filter);
    if s.len() == 0 {
        assert(range_entries(s, r) =~= s);
    } else {
        lemma_range_entries_all(s.drop_last(), r);
        assert(range_entries(s, r) =~= s.drop_last().push(s.last()));
        assert(s.drop_last().push(s.last()) =~= s);
    }
}

/// Helper for `put`, replace case: the postconditions follow from the index
/// mapping between the old sequence `s` and the new sequence `t`.
proof fn lemma_put_post_replace(t: Seq<EntryV>, s: Seq<EntryV>, i: int, ev: EntryV)
    requires
        sorted_by_key(s),
        0 <= i < s.len(),
        s[i].key == ev.key,
        t.len() == s.len(),
        forall|j: int| 0 <= j < i ==> t[j] == s[j],
        t[i] == ev,
        forall|j: int| i < j < s.len() ==> t[j] == s[j],
    ensures
        sorted_by_key(t),
        contains_key(t, ev.key),
        value_of(t, ev.key) == ev.value,
        forall|k: Seq<u8>| k != ev.key ==> (contains_key(t, k) <==> contains_key(s, k)),
        forall|k: Seq<u8>| k != ev.key && contains_key(s, k) ==> value_of(t, k) == value_of(s, k),
        contains_key(s, ev.key),
{
    assert forall|p: int, q: int| 0 <= p < q < t.len() implies key_lt(t[p].key, t[q].key) by {
        assert(t[p].key == s[p].key);
        assert(t[q].key == s[q].key);
    }
    lemma_sorted_unique(s);
    lemma_sorted_unique(t);
    lemma_value_at(t, i);
    assert(contains_key(s, ev.key));
    assert forall|k: Seq<u8>| k != ev.key implies (contains_key(t, k) <==> contains_key(s, k)) by {
        if contains_key(t, k) {
            let j = choose|j: int| 0 <= j < t.len() && t[j].key == k;
            assert(j != i);
            assert(s[j].key == k);
        }
        if contains_key(s, k) {
            let j = choose|j: int| 0 <= j < s.len() && s[j].key == k;
            assert(j != i);
            assert(t[j].key == k);
        }
    }
    assert forall|k: Seq<u8>| k != ev.key && contains_key(s, k) implies value_of(t, k) == value_of(
        s,
        k,
    ) by {
        let j = choose|j: int| 0 <= j < s.len() && s[j].key == k;
        assert(j != i);
        lemma_value_at(s, j);
        lemma_value_at(t, j);
    }
}

/// Helper for `put`, fresh-key case.
proof fn lemma_put_post_insert(t: Seq<EntryV>, s: Seq<EntryV>, i: int, ev: EntryV)
    requires
        sorted_by_key(s),
        0 <= i <= s.len(),
        forall|j: int| 0 <= j < i ==> key_lt(s[j].key, ev.key),
        forall|j: int| i <= j < s.len() ==> key_lt(ev.key, s[j].key),
        t.len() == s.len() + 1,
        forall|j: int| 0 <= j < i ==> t[j] == s[j],
        t[i] == ev,
        forall|j: int| i <= j < s.len() ==> t[j + 1] == s[j],
    ensures
        sorted_by_key(t),
        contains_key(t, ev.key),
        value_of(t, ev.key) == ev.value,
        forall|k: Seq<u8>| k != ev.key ==> (contains_key(t, k) <==> contains_key(s, k)),
        forall|k: Seq<u8>| k != ev.key && contains_key(s, k) ==> value_of(t, k) == value_of(s, k),
        !contains_key(s, ev.key),
{
    assert forall|p: int, q: int| 0 <= p < q < t.len() implies key_lt(t[p].key, t[q].key) by {
        if q < i {
            assert(t[p] == s[p] && t[q] == s[q]);
        } else if q == i {
            assert(t[p] == s[p]);
        } else {
            assert(t[q] == s[q - 1]);
            if p < i {
                assert(t[p] == s[p]);
                if q - 1 > p {
                    assert(key_lt(s[p].key, s[q - 1].key));
                } else {
                    assert(key_lt(s[p].key, ev.key) && key_lt(ev.key, s[q - 1].key));
                    lemma_key_lt_transitive(s[p].key, ev.key, s[q - 1].key);
                }
            } else if p == i {
                assert(key_lt(ev.key, s[q - 1].key));
            } else {
                assert(t[p] == s[p - 1]);
                assert(key_lt(s[p - 1].key, s[q - 1].key));
            }
        }
    }
    lemma_sorted_unique(s);
    lemma_sorted_unique(t);
    lemma_value_at(t, i);
    assert forall|j: int| 0 <= j < s.len() implies s[j].key != ev.key by {
        lemma_key_lt_irreflexive(ev.key);
    }
    assert forall|k: Seq<u8>| k != ev.key implies (contains_key(t, k) <==> contains_key(s, k)) by {
        if contains_key(t, k) {
            let j = choose|j: int| 0 <= j < t.len() && t[j].key == k;
            assert(j != i);
            if j < i {
                assert(s[j].key == k);
            } else {
                assert(s[j - 1].key == k);
            }
        }
        if contains_key(s, k) {
            let j = choose|j: int| 0 <= j < s.len() && s[j].key == k;
            if j < i {
                assert(t[j].key == k);
            } else {
                assert(t[j + 1].key == k);
            }
        }
    }
    assert forall|k: Seq<u8>| k != ev.key && contains_key(s, k) implies value_of(t, k) == value_of(
        s,
        k,
    ) by {
        let j = choose|j: int| 0 <= j < s.len() && s[j].key == k;
        lemma_value_at(s, j);
        if j < i {
            lemma_value_at(t, j);
        } else {
            lemma_value_at(t, j + 1);
        }
    }
}

/// Splitting a key predicate into two disjoint halves splits the XOR of the
/// matching entries' digests.
proof fn lemma_xor_all_split(
    s: Seq<EntryV>,
    p: spec_fn(Seq<u8>) -> bool,
    q: spec_fn(Seq<u8>) -> bool,
    pq: spec_fn(Seq<u8>) -> bool,
)
    requires
        forall|k: Seq<u8>| #[trigger] pq(k) <==> p(k) || q(k),
        forall|k: Seq<u8>| !(#[trigger] p(k) && q(k)),
    ensures
        fp_xor_all(entries_matching(s, pq)) == xor32(
            fp_xor_all(entries_matching(s, p)),
            fp_xor_all(entries_matching(s, q)),
        ),
    decreases s.len(),
{
    reveal(Seq::filter);
    if s.len() == 0 {
        lemma_xor32_zero(zero32());
    } else {
        let s0 = s.drop_last();
        let e = s.last();
        lemma_xor_all_split(s0, p, q, pq);
        let fp0 = fp_xor_all(entries_matching(s0, p));
        let fq0 = fp_xor_all(entries_matching(s0, q));
        let fpq0 = fp_xor_all(entries_matching(s0, pq));
        let ef = entry_fp(e);
        if pq(e.key) {
            assert(entries_matching(s, pq) == entries_matching(s0, pq).push(e));
            assert(entries_matching(s0, pq).push(e).drop_last() =~= entries_matching(s0, pq));
            assert(fp_xor_all(entries_matching(s, pq)) == xor32(fpq0, ef));
            if p(e.key) {
                assert(entries_matching(s, p) == entries_matching(s0, p).push(e));
                assert(entries_matching(s0, p).push(e).drop_last() =~= entries_matching(s0, p));
                assert(fp_xor_all(entries_matching(s, p)) == xor32(fp0, ef));
                assert(entries_matching(s, q) == entries_matching(s0, q));
                lemma_xor32_assoc(fp0, fq0, ef);
                lemma_xor32_assoc(fp0, ef, fq0);
                lemma_xor32_comm(fq0, ef);
            } else {
                assert(entries_matching(s, q) == entries_matching(s0, q).push(e));
                assert(entries_matching(s0, q).push(e).drop_last() =~= entries_matching(s0, q));
                assert(fp_xor_all(entries_matching(s, q)) == xor32(fq0, ef));
                assert(entries_matching(s, p) == entries_matching(s0, p));
                lemma_xor32_assoc(fp0, fq0, ef);
            }
        } else {
            assert(entries_matching(s, pq) == entries_matching(s0, pq));
            assert(entries_matching(s, p) == entries_matching(s0, p));
            assert(entries_matching(s, q) == entries_matching(s0, q));
        }
    }
}

/// Some range of `rs` contains `k`.
pub open spec fn in_some(rs: Seq<RangeV>, k: Seq<u8>) -> bool {
    exists|i: int| 0 <= i < rs.len() && rs[i].contains(k)
}

/// The predicate "some range of `rs` contains the key", as a function value.
pub open spec fn some_pred(rs: Seq<RangeV>) -> spec_fn(Seq<u8>) -> bool {
    |k: Seq<u8>| in_some(rs, k)
}

/// No key lies in two of the ranges.
pub open spec fn ranges_disjoint(rs: Seq<RangeV>) -> bool {
    forall|i: int, j: int, k: Seq<u8>|
        0 <= i < j < rs.len() ==> !(#[trigger] rs[i].contains(k) && #[trigger] rs[j].contains(k))
}

/// XOR of the digests of the entries of `s` in each range of `rs`.
pub open spec fn fold_fp_xor(s: Seq<EntryV>, rs: Seq<RangeV>) -> Seq<u8>
    decreases rs.len(),
{
    if rs.len() == 0 {
        zero32()
    } else {
        xor32(fold_fp_xor(s, rs.drop_last()), fp_xor_all(range_entries(s, rs.last())))
    }
}

/// XOR of the fingerprints (empty-set constant included) of the entries of
/// `s` in each range of `rs`.
pub open spec fn fold_fingerprints(s: Seq<EntryV>, rs: Seq<RangeV>) -> Seq<u8>
    decreases rs.len(),
{
    if rs.len() == 0 {
        zero32()
    } else {
        xor32(fold_fingerprints(s, rs.drop_last()), fp_of(range_entries(s, rs.last())))
    }
}

proof fn lemma_fold_partition_pred(s: Seq<EntryV>, rs: Seq<RangeV>, p: spec_fn(Seq<u8>) -> bool)
    requires
        ranges_disjoint(rs),
        forall|k: Seq<u8>| #[trigger] p(k) <==> in_some(rs, k),
    ensures
        fold_fp_xor(s, rs) == fp_xor_all(entries_matching(s, p)),
    decreases rs.len(),
{
    if rs.len() == 0 {
        assert forall|k: Seq<u8>| !(#[trigger] p(k)) by {
            if p(k) {
                let i = choose|i: int| 0 <= i < rs.len() && rs[i].contains(k);
            }
        }
        lemma_entries_matching_none(s, p);
    } else {
        let rs0 = rs.drop_last();
        let last = rs.last();
        let p0 = some_pred(rs0);
        let pl = range_pred(last);
        assert(ranges_disjoint(rs0)) by {
            assert forall|i: int, j: int, k: Seq<u8>| 0 <= i < j < rs0.len() implies !(
            #[trigger] rs0[i].contains(k) && #[trigger] rs0[j].contains(k)) by {
                assert(rs0[i] == rs[i] && rs0[j] == rs[j]);
                assert(!(rs[i].contains(k) && rs[j].contains(k)));
            }
        }
        assert(forall|k: Seq<u8>| #[trigger] p0(k) <==> in_some(rs0, k));
        lemma_fold_partition_pred(s, rs0, p0);
        assert forall|k: Seq<u8>| #[trigger] p(k) <==> p0(k) || pl(k) by {
            assert(pl(k) == last.contains(k));
            if p(k) {
                let i = choose|i: int| 0 <= i < rs.len() && rs[i].contains(k);
                if i < rs.len() - 1 {
                    assert(rs0[i] == rs[i]);
                    assert(in_some(rs0, k));
                } else {
                    assert(last.contains(k));
                }
            }
            if in_some(rs0, k) {
                let i = choose|i: int| 0 <= i < rs0.len() && rs0[i].contains(k);
                assert(rs[i] == rs0[i]);
                assert(in_some(rs, k));
            }
            if last.contains(k) {
                assert(rs[rs.len() - 1].contains(k));
                assert(in_some(rs, k));
            }
        }
        assert forall|k: Seq<u8>| !(#[trigger] p0(k) && pl(k)) by {
            if p0(k) && pl(k) {
                let i = choose|i: int| 0 <= i < rs0.len() && rs0[i].contains(k);
                assert(rs[i] == rs0[i]);
                assert(!(rs[i].contains(k) && rs[rs.len() - 1].contains(k)));
            }
        }
        lemma_xor_all_split(s, p0, pl, p);
    }
}

/// Law (fingerprint homomorphism): when the sub-ranges `rs` are pairwise
/// disjoint and together select exactly the keys of `r`, the XOR of the
/// per-sub-range entry digests equals the digest over the whole of `r`,
/// whatever the store holds.
pub proof fn lemma_fingerprint_homomorphism(s: Seq<EntryV>, rs: Seq<RangeV>, r: RangeV)
    requires
        ranges_disjoint(rs),
        forall|k: Seq<u8>| #[trigger] r.contains(k) <==> in_some(rs, k),
    ensures
        fold_fp_xor(s, rs) == fp_xor_all(range_entries(s, r)),
{
    let p = range_pred(r);
    assert forall|k: Seq<u8>| #[trigger] p(k) <==> in_some(rs, k) by {
        assert(p(k) == r.contains(k));
    }
    lemma_fold_partition_pred(s, rs, p);
}

proof fn lemma_xor32_cancel(e: Seq<u8>, b: Seq<u8>)
    requires
        b.len() == 32,
    ensures
        xor32(e, xor32(e, b)) == b,
{
    assert forall|i: int| 0 <= i < 32 implies xor32(e, xor32(e, b))[i] == b[i] by {
        let x = e[i];
        let y = b[i];
        assert(x ^ (x ^ y) == y) by (bit_vector);
    }
    assert(xor32(e, xor32(e, b)) =~= b);
}

proof fn lemma_xor32_pull(e: Seq<u8>, a: Seq<u8>, b: Seq<u8>)
    ensures
        xor32(a, xor32(e, b)) == xor32(e, xor32(a, b)),
{
    lemma_xor32_assoc(a, e, b);
    lemma_xor32_comm(a, e);
    lemma_xor32_assoc(e, a, b);
}

/// Folding seeded fingerprints instead of raw digests leaves one copy of the
/// empty-set constant when the count is odd, and none when it is even.
proof fn lemma_fold_fp_parity(s: Seq<EntryV>, rs: Seq<RangeV>)
    ensures
        rs.len() % 2 == 1 ==> fold_fingerprints(s, rs) == xor32(empty_fp(), fold_fp_xor(s, rs)),
        rs.len() % 2 == 0 ==> fold_fingerprints(s, rs) == fold_fp_xor(s, rs),
    decreases rs.len(),
{
    if rs.len() > 0 {
        let rs0 = rs.drop_last();
        lemma_fold_fp_parity(s, rs0);
        let e = empty_fp();
        let f0 = fold_fp_xor(s, rs0);
        let rl = fp_xor_all(range_entries(s, rs.last()));
        if rs.len() % 2 == 0 {
            assert(fold_fingerprints(s, rs) == xor32(xor32(e, f0), xor32(e, rl)));
            lemma_xor32_assoc(e, f0, xor32(e, rl));
            lemma_xor32_pull(e, f0, rl);
            lemma_xor32_cancel(e, xor32(f0, rl));
        } else {
            assert(fold_fingerprints(s, rs) == xor32(f0, xor32(e, rl)));
            lemma_xor32_pull(e, f0, rl);
        }
    }
}

/// Law (round-trip fingerprint): for a partition of a range into an odd
/// number of pairwise-disjoint sub-ranges, the XOR of the sub-range
/// fingerprints equals the whole-range fingerprint. With an even count the
/// empty-set constants cancel pairwise out of the XOR, leaving the raw
/// digest; the count-independent statement is `lemma_fingerprint_homomorphism`.
pub proof fn lemma_fingerprint_roundtrip(s: Seq<EntryV>, rs: Seq<RangeV>, r: RangeV)
    requires
        ranges_disjoint(rs),
        forall|k: Seq<u8>| #[trigger] r.contains(k) <==> in_some(rs, k),
        rs.len() % 2 == 1,
    ensures
        fold_fingerprints(s, rs) == fp_of(range_entries(s, r)),
{
    lemma_fingerprint_homomorphism(s, rs, r);
    lemma_fold_fp_parity(s, rs);
}

/// The ordered store: entries sorted by key, unique keys.
pub struct Store {
    entries: Vec<Entry>,
}

impl View for Store {
    type V = Seq<EntryV>;

    closed spec fn view(&self) -> Seq<EntryV> {
        entries_view(self.entries@)
    }
}

impl Default for Store {
    fn default() -> (r: Store)
        ensures
            r@ == Seq::<EntryV>::empty(),
            r.wf(),
    {
        Store::new()
    }
}

impl Store {
    /// The store's invariant: entries sorted strictly by key.
    pub open spec fn wf(&self) -> bool {
        sorted_by_key(self@)
    }

    pub fn new() -> (r: Store)
        ensures
            r@ == Seq::<EntryV>::empty(),
            r.wf(),
    {
        let r = Store { entries: Vec::new() };
        proof {
            assert(r@ =~= Seq::<EntryV>::empty());
        }
        r
    }

    /// The smallest key, or the empty key if the store is empty.
    pub fn get_first(&self) -> (r: Vec<u8>)
        ensures
            self@.len() == 0 ==> r@ == Seq::<u8>::empty(),
            self@.len() > 0 ==> r@ == self@[0].key,
    {
        if self.entries.len() == 0 {
            let r: Vec<u8> = Vec::new();
            proof {
                assert(r@ =~= Seq::<u8>::empty());
            }
            r
        } else {
            clone_key(&self.entries[0].key)
        }
    }

    pub fn len(&self) -> (r: usize)
        ensures
            r == self@.len(),
    {
        self.entries.len()
    }

    pub fn is_empty(&self) -> (r: bool)
        ensures
            r <==> self@.len() == 0,
    {
        self.entries.len() == 0
    }

    /// Look up the entry stored under `key`.
    pub fn get(&self, key: &Vec<u8>) -> (r: Option<Entry>)
        requires
            self.wf(),
        ensures
            match r {
                Some(e) => contains_key(self@, key@) && e@.key == key@ && e@.value == value_of(
                    self@,
                    key@,
                ),
                None => !contains_key(self@, key@),
            },
    {
        let mut i: usize = 0;
        while i < self.entries.len()
            invariant
                self.wf(),
                i <= self@.len(),
                forall|j: int| 0 <= j < i ==> self@[j].key != key@,
            decreases self@.len() - i,
        {
            if let KeyOrder::Equal = key_cmp(&self.entries[i].key, key) {
                let e = self.entries[i].clone();
                proof {
                    lemma_sorted_unique(self@);
                    lemma_value_at(self@, i as int);
                }
                return Some(e);
            }
            i += 1;
        }
        None
    }

    /// Index of the first entry whose key is not below `key`, and whether the
    /// entry there holds exactly `key`.
    fn find_slot(&self, key: &Vec<u8>) -> (r: (usize, bool))
        requires
            self.wf(),
        ensures
            r.0 <= self@.len(),
            forall|j: int| 0 <= j < r.0 ==> key_lt(self@[j].key, key@),
            r.0 < self@.len() ==> key_le(key@, self@[r.0 as int].key),
            r.1 <==> (r.0 < self@.len() && self@[r.0 as int].key == key@),
    {
        let mut i: usize = 0;
        while i < self.entries.len()
            invariant
                self.wf(),
                i <= self@.len(),
                forall|j: int| 0 <= j < i ==> key_lt(self@[j].key, key@),
            decreases self@.len() - i,
        {
            match key_cmp(&self.entries[i].key, key) {
                KeyOrder::Less => {
                    i += 1;
                },
                KeyOrder::Equal => {
                    return (i, true);
                },
                KeyOrder::Greater => {
                    proof {
                        lemma_key_lt_irreflexive(key@);
                    }
                    return (i, false);
                },
            }
        }
        (i, false)
    }

    /// When `key` does not sit at the slot index, it is nowhere in the store.
    proof fn lemma_absent(&self, key: Seq<u8>, i: int)
        requires
            self.wf(),
            0 <= i <= self@.len(),
            forall|j: int| 0 <= j < i ==> key_lt(self@[j].key, key),
            i < self@.len() ==> key_le(key, self@[i].key),
            i < self@.len() ==> self@[i].key != key,
        ensures
            !contains_key(self@, key),
            forall|j: int| i <= j < self@.len() ==> key_lt(key, self@[j].key),
    {
        let s = self@;
        assert forall|j: int| i <= j < s.len() implies key_lt(key, s[j].key) by {
            assert(key_lt(key, s[i].key));
            if j > i {
                lemma_key_lt_transitive(key, s[i].key, s[j].key);
            }
        }
        assert forall|j: int| 0 <= j < s.len() implies s[j].key != key by {
            lemma_key_lt_irreflexive(key);
        }
    }

    /// Insert `entry`, overwriting any entry with the same key.
    pub fn put(&mut self, entry: Entry)
        requires
            old(self).wf(),
        ensures
            final(self).wf(),
            contains_key(final(self)@, entry@.key),
            value_of(final(self)@, entry@.key) == entry@.value,
            forall|k: Seq<u8>|
                k != entry@.key ==> (contains_key(final(self)@, k) <==> contains_key(
                    old(self)@,
                    k,
                )),
            forall|k: Seq<u8>|
                k != entry@.key && contains_key(old(self)@, k) ==> value_of(final(self)@, k)
                    == value_of(old(self)@, k),
            final(self)@.len() == old(self)@.len() + (if contains_key(old(self)@, entry@.key) {
                0int
            } else {
                1int
            }),
    {
        let ghost s = self@;
        let ghost ev = entry@;
        let (i, found) = self.find_slot(&entry.key);
        let ghost entry_snap = entry;
        if found {
            let _prev = self.entries.remove(i);
            self.entries.insert(i, entry);
            proof {
                let olde = old(self).entries@;
                olde.remove_ensures(i as int);
                olde.remove(i as int).insert_ensures(i as int, entry_snap);
                let t = self@;
                assert(forall|j: int| 0 <= j < i ==> t[j] == s[j]);
                assert(t[i as int] == ev);
                assert(forall|j: int| i < j < s.len() ==> t[j] == s[j]);
                lemma_put_post_replace(t, s, i as int, ev);
            }
        } else {
            self.entries.insert(i, entry);
            proof {
                self.lemma_absent_frame(s, ev.key, i as int);
                let olde = old(self).entries@;
                olde.insert_ensures(i as int, entry_snap);
                let t = self@;
                assert(t.len() == s.len() + 1);
                assert(forall|j: int| 0 <= j < i ==> t[j] == s[j]);
                assert(t[i as int] == ev);
                assert(forall|j: int| i <= j < s.len() ==> t[j + 1] == s[j]);
                lemma_put_post_insert(t, s, i as int, ev);
            }
        }
    }

    /// `lemma_absent`, stated against a snapshot of the old view for use after
    /// the store has been mutated.
    proof fn lemma_absent_frame(&self, s: Seq<EntryV>, key: Seq<u8>, i: int)
        requires
            sorted_by_key(s),
            0 <= i <= s.len(),
            forall|j: int| 0 <= j < i ==> key_lt(s[j].key, key),
            i < s.len() ==> key_le(key, s[i].key),
            i < s.len() ==> s[i].key != key,
        ensures
            !contains_key(s, key),
            forall|j: int| i <= j < s.len() ==> key_lt(key, s[j].key),
    {
        assert forall|j: int| i <= j < s.len() implies key_lt(key, s[j].key) by {
            assert(key_lt(key, s[i].key));
            if j > i {
                lemma_key_lt_transitive(key, s[i].key, s[j].key);
            }
        }
        assert forall|j: int| 0 <= j < s.len() implies s[j].key != key by {
            lemma_key_lt_irreflexive(key);
        }
    }

    /// Remove the entry stored under `key`, returning it.
    pub fn remove(&mut self, key: &Vec<u8>) -> (r: Option<Entry>)
        requires
            old(self).wf(),
        ensures
            final(self).wf(),
            !contains_key(final(self)@, key@),
            forall|k: Seq<u8>|
                k != key@ ==> (contains_key(final(self)@, k) <==> contains_key(old(self)@, k)),
            forall|k: Seq<u8>|
                k != key@ && contains_key(old(self)@, k) ==> value_of(final(self)@, k) == value_of(
                    old(self)@,
                    k,
                ),
            match r {
                Some(e) => contains_key(old(self)@, key@) && e@.key == key@ && e@.value == value_of(
                    old(self)@,
                    key@,
                ) && final(self)@.len() + 1 == old(self)@.len(),
                None => !contains_key(old(self)@, key@) && final(self)@ == old(self)@,
            },
    {
        let ghost s = self@;
        proof {
            lemma_sorted_unique(s);
        }
        let (i, found) = self.find_slot(key);
        if !found {
            proof {
                self.lemma_absent(key@, i as int);
            }
            return None;
        }
        let e = self.entries.remove(i);
        proof {
            let olde = old(self).entries@;
            olde.remove_ensures(i as int);
            let t = self@;
            assert(t.len() + 1 == s.len());
            assert(forall|j: int| 0 <= j < i ==> t[j] == s[j]);
            assert(forall|j: int| i <= j < t.len() ==> t[j] == s[j + 1]);
            assert forall|p: int, q: int| 0 <= p < q < t.len() implies key_lt(
                t[p].key,
                t[q].key,
            ) by {
                let sp: int = if p < i { p } else { p + 1 };
                let sq: int = if q < i { q } else { q + 1 };
                assert(t[p] == s[sp] && t[q] == s[sq]);
            }
            lemma_sorted_unique(t);
            lemma_value_at(s, i as int);
            assert forall|j: int| 0 <= j < t.len() implies t[j].key != key@ by {
                let sj: int = if j < i { j } else { j + 1 };
                assert(t[j] == s[sj] && sj != i);
            }
            assert(!contains_key(t, key@));
            assert forall|k: Seq<u8>| k != key@ implies (contains_key(t, k) <==> contains_key(
                s,
                k,
            )) by {
                if contains_key(t, k) {
                    let j = choose|j: int| 0 <= j < t.len() && t[j].key == k;
                    let sj: int = if j < i { j } else { j + 1 };
                    assert(s[sj].key == k);
                }
                if contains_key(s, k) {
                    let j = choose|j: int| 0 <= j < s.len() && s[j].key == k;
                    assert(j != i);
                    if j < i {
                        assert(t[j].key == k);
                    } else {
                        assert(t[j - 1].key == k);
                    }
                }
            }
            assert forall|k: Seq<u8>| k != key@ && contains_key(s, k) implies value_of(t, k)
                == value_of(s, k) by {
                let j = choose|j: int| 0 <= j < s.len() && s[j].key == k;
                assert(j != i);
                lemma_value_at(s, j);
                if j < i {
                    lemma_value_at(t, j);
                } else {
                    lemma_value_at(t, j - 1);
                }
            }
        }
        Some(e)
    }

    /// All entries whose keys lie in `range`, in store order.
    pub fn get_range(&self, range: &Range) -> (r: Vec<Entry>)
        ensures
            entries_view(r@) == range_entries(self@, range@),
    {
        let mut out: Vec<Entry> = Vec::new();
        proof {
            reveal(Seq::filter);
            assert(self@.take(0) =~= Seq::<EntryV>::empty());
            assert(entries_view(out@) =~= range_entries(self@.take(0), range@));
        }
        let mut i: usize = 0;
        while i < self.entries.len()
            invariant
                i <= self@.len(),
                self@.len() == self.entries@.len(),
                entries_view(out@) == range_entries(self@.take(i as int), range@),
            decreases self@.len() - i,
        {
            let ghost prev = entries_view(out@);
            let e = &self.entries[i];
            let keep = range.contains(&e.key);
            proof {
                lemma_entries_matching_take_step(self@, range_pred(range@), i as int);
                assert(range_pred(range@)(self@[i as int].key) == range@.contains(
                    self@[i as int].key,
                ));
            }
            if keep {
                out.push(e.clone());
                proof {
                    assert(entries_view(out@) =~= prev.push(self@[i as int]));
                }
            }
            i += 1;
        }
        proof {
            assert(self@.take(self@.len() as int) =~= self@);
        }
        out
    }

    /// Every entry in the store, in key order.
    pub fn all(&self) -> (r: Vec<Entry>)
        ensures
            entries_view(r@) == self@,
    {
        let mut out: Vec<Entry> = Vec::new();
        let mut i: usize = 0;
        proof {
            assert(entries_view(out@) =~= self@.take(0));
        }
        while i < self.entries.len()
            invariant
                i <= self@.len(),
                self@.len() == self.entries@.len(),
                entries_view(out@) == self@.take(i as int),
            decreases self@.len() - i,
        {
            let ghost prev = entries_view(out@);
            out.push(self.entries[i].clone());
            proof {
                assert(entries_view(out@) =~= prev.push(self@[i as int]));
                assert(prev.push(self@[i as int]) =~= self@.take(i as int + 1));
            }
            i += 1;
        }
        proof {
            assert(self@.take(self@.len() as int) =~= self@);
        }
        out
    }

    /// The fingerprint of the entries whose keys lie in `range`.
    pub fn get_fingerprint(&self, range: &Range) -> (r: Fingerprint)
        ensures
            r@ == fp_of(range_entries(self@, range@)),
    {
        let mut fp = Fingerprint::empty();
        proof {
            reveal(Seq::filter);
            assert(self@.take(0) =~= Seq::<EntryV>::empty());
            assert(range_entries(self@.take(0), range@) =~= Seq::<EntryV>::empty());
            lemma_xor32_zero(fp@);
        }
        let mut i: usize = 0;
        while i < self.entries.len()
            invariant
                i <= self@.len(),
                self@.len() == self.entries@.len(),
                fp@ == fp_of(range_entries(self@.take(i as int), range@)),
            decreases self@.len() - i,
        {
            let e = &self.entries[i];
            let keep = range.contains(&e.key);
            proof {
                lemma_entries_matching_take_step(self@, range_pred(range@), i as int);
                assert(range_pred(range@)(self@[i as int].key) == range@.contains(
                    self@[i as int].key,
                ));
            }
            if keep {
                let ghost before = range_entries(self@.take(i as int), range@);
                let ef = e.as_fingerprint();
                fp.xor_assign(&ef);
                proof {
                    let ev = self@[i as int];
                    let after = before.push(ev);
                    assert(after.drop_last() =~= before);
                    assert(after.last() == ev);
                    assert(fp_xor_all(after) == xor32(fp_xor_all(before), entry_fp(ev)));
                    lemma_xor32_assoc(empty_fp(), fp_xor_all(before), entry_fp(ev));
                }
            }
            i += 1;
        }
        proof {
            assert(self@.take(self@.len() as int) =~= self@);
        }
        fp
    }
}

} // verus!
