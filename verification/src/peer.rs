//! The peer: a store plus the reconciliation state machine.
//!
//! `initial_message` opens a session with one fingerprint over the whole set.
//! `process_message` ingests shipped entries (subject to the validate hook),
//! answers fingerprint parts by matching, shipping literals, or subdividing,
//! and returns `None` when there is nothing left to say.

use vstd::prelude::*;

use crate::entry::{Entry, EntryV};
use crate::fingerprint::Fingerprint;
use crate::keys::{clone_key, key_cmp, KeyOrder};
use crate::keys::key_lt;
use crate::messages::{
    lemma_parts_values_unique_push, msg_has_key, msg_has_pair, part_has_key, part_has_pair,
    parts_values_unique, parts_view, Message, MessagePart, MessagePartV, RangeFingerprint,
    RangeItem, RangeItemV,
};
use crate::range::{Range, RangeV};
use crate::store::{
    contains_key, entries_view, fp_of, lemma_entries_matching_complete,
    lemma_entries_matching_membership, lemma_entries_matching_pred, lemma_entries_matching_sorted,
    lemma_sorted_unique, lemma_value_at, range_entries, range_pred, sorted_by_key, unique_keys,
    value_of, Store,
};

verus! {

/// The validate hook can be called on any store and entry.
pub open spec fn callable_on_all<F: Fn(&Store, &Entry) -> bool>(f: F) -> bool {
    forall|s: Store, e: Entry| #[trigger] call_requires(f, (&s, &e))
}

/// Every call of the validate hook returns false.
pub open spec fn rejects_all<F: Fn(&Store, &Entry) -> bool>(f: F) -> bool {
    forall|s: Store, e: Entry, b: bool| #[trigger] call_ensures(f, (&s, &e), b) ==> !b
}

/// Every call of the validate hook returns true.
pub open spec fn accepts_all<F: Fn(&Store, &Entry) -> bool>(f: F) -> bool {
    forall|s: Store, e: Entry, b: bool| #[trigger] call_ensures(f, (&s, &e), b) ==> b
}

/// No part of the message ships entries.
pub open spec fn has_no_items(m: Seq<MessagePartV>) -> bool {
    forall|j: int| 0 <= j < m.len() ==> !((#[trigger] m[j]) is RangeItem)
}

/// The message is a single whole-set fingerprint that agrees with the local
/// store `s`: the exchange is over.
pub open spec fn matches_locally(m: Seq<MessagePartV>, s: Seq<EntryV>) -> bool {
    m.len() == 1 && m[0] is RangeFingerprint && m[0].get_rf().fingerprint == fp_of(
        range_entries(s, m[0].get_rf().range),
    )
}

/// The parts of the reply, or nothing.
pub open spec fn reply_view(r: Option<Message>) -> Seq<MessagePartV> {
    match r {
        Some(m) => m@,
        None => Seq::<MessagePartV>::empty(),
    }
}

/// Entry `e` is a fit answer to the request `req`: it lies in the requested
/// range, its key is not among the keys the requester shipped, and it is an
/// entry the peer held at the call (`old_s`) or was itself shipped in `m`.
pub open spec fn answers_request(
    m: Seq<MessagePartV>,
    old_s: Seq<EntryV>,
    req: RangeItemV,
    e: EntryV,
) -> bool {
    &&& req.range.contains(e.key)
    &&& !contains_key(req.values, e.key)
    &&& ((contains_key(old_s, e.key) && value_of(old_s, e.key) == e.value) || msg_has_pair(
        m,
        e.key,
        e.value,
    ))
}

/// The answering part `d` responds to some request of the message: same
/// range, and every entry it ships is a fit answer to that request.
pub open spec fn diff_part_sound(m: Seq<MessagePartV>, old_s: Seq<EntryV>, d: RangeItemV) -> bool {
    exists|j: int|
        0 <= j < m.len() && (#[trigger] m[j]) is RangeItem && !m[j].get_item().have_local
            && m[j].get_item().range == d.range && (forall|i: int|
            0 <= i < d.values.len() ==> answers_request(
                m,
                old_s,
                m[j].get_item(),
                #[trigger] d.values[i],
            ))
}

/// Every part of `ps` is an answering part (`have_local` set).
pub open spec fn all_answer_parts(ps: Seq<MessagePartV>) -> bool {
    forall|q: int|
        0 <= q < ps.len() ==> ((#[trigger] ps[q]) is RangeItem && ps[q].get_item().have_local)
}

/// Every answering part of `ps` responds to a request of `m`.
pub open spec fn answer_parts_sound(
    m: Seq<MessagePartV>,
    old_s: Seq<EntryV>,
    ps: Seq<MessagePartV>,
) -> bool {
    forall|q: int|
        0 <= q < ps.len() && (#[trigger] ps[q]) is RangeItem && ps[q].get_item().have_local
            ==> diff_part_sound(m, old_s, ps[q].get_item())
}

/// Every key shipped by a part of `ps` is a key of `s`.
pub open spec fn shipped_keys_held(ps: Seq<MessagePartV>, s: Seq<EntryV>) -> bool {
    forall|q: int, i: int|
        #![trigger ps[q].get_item().values[i]]
        0 <= q < ps.len() && ps[q] is RangeItem && 0 <= i < ps[q].get_item().values.len()
            ==> contains_key(s, ps[q].get_item().values[i].key)
}

/// Some part of `ps` answers range `r` and ships an entry with key `k`.
pub open spec fn has_answer(ps: Seq<MessagePartV>, r: RangeV, k: Seq<u8>) -> bool {
    exists|q: int|
        0 <= q < ps.len() && (#[trigger] ps[q]) is RangeItem && ps[q].get_item().have_local
            && ps[q].get_item().range == r && contains_key(ps[q].get_item().values, k)
}

/// For every request among the first `upto` parts of `m`, every key the peer
/// held at the call that the requester asked for is answered by some part of
/// `ps`.
pub open spec fn requests_answered(
    m: Seq<MessagePartV>,
    old_s: Seq<EntryV>,
    upto: int,
    ps: Seq<MessagePartV>,
) -> bool {
    forall|j: int, k: Seq<u8>|
        #![trigger m[j].get_item().range.contains(k)]
        0 <= j < upto && m[j] is RangeItem && !m[j].get_item().have_local && contains_key(old_s, k)
            && m[j].get_item().range.contains(k) && !contains_key(m[j].get_item().values, k)
            ==> has_answer(ps, m[j].get_item().range, k)
}

/// Every fingerprint part of `ps` states the fingerprint held by `s` over
/// its range.
pub open spec fn fingerprint_parts_exact(ps: Seq<MessagePartV>, s: Seq<EntryV>) -> bool {
    forall|q: int|
        0 <= q < ps.len() && (#[trigger] ps[q]) is RangeFingerprint ==> ps[q].get_rf().fingerprint
            == fp_of(range_entries(s, ps[q].get_rf().range))
}

/// Every part of `ps` that ships a range outright (`have_local` unset) ships
/// exactly the entries of `s` in that range.
pub open spec fn literal_parts_exact(ps: Seq<MessagePartV>, s: Seq<EntryV>) -> bool {
    forall|q: int|
        0 <= q < ps.len() && (#[trigger] ps[q]) is RangeItem && !ps[q].get_item().have_local
            ==> ps[q].get_item().values == range_entries(s, ps[q].get_item().range)
}

/// Every fingerprint part of `m` states the fingerprint held by `s`.
pub open spec fn fingerprints_all_match(m: Seq<MessagePartV>, s: Seq<EntryV>) -> bool {
    forall|j: int|
        0 <= j < m.len() && (#[trigger] m[j]) is RangeFingerprint ==> m[j].get_rf().fingerprint
            == fp_of(range_entries(s, m[j].get_rf().range))
}

/// Appending one sound part keeps the reply bookkeeping.
proof fn lemma_out_push(
    prev: Seq<MessagePartV>,
    p: MessagePartV,
    m: Seq<MessagePartV>,
    old_s: Seq<EntryV>,
    s: Seq<EntryV>,
    upto: int,
)
    requires
        answer_parts_sound(m, old_s, prev),
        shipped_keys_held(prev, s),
        requests_answered(m, old_s, upto, prev),
        parts_values_unique(prev),
        p is RangeItem && p.get_item().have_local ==> diff_part_sound(m, old_s, p.get_item()),
        p is RangeItem ==> forall|i: int|
            0 <= i < p.get_item().values.len() ==> contains_key(
                s,
                (#[trigger] p.get_item().values[i]).key,
            ),
        p is RangeItem ==> unique_keys(p.get_item().values),
    ensures
        answer_parts_sound(m, old_s, prev.push(p)),
        shipped_keys_held(prev.push(p), s),
        requests_answered(m, old_s, upto, prev.push(p)),
        parts_values_unique(prev.push(p)),
{
    let nps = prev.push(p);
    lemma_parts_values_unique_push(prev, p);
    assert forall|q: int|
        0 <= q < nps.len() && (#[trigger] nps[q]) is RangeItem
            && nps[q].get_item().have_local implies diff_part_sound(
        m,
        old_s,
        nps[q].get_item(),
    ) by {
        if q < prev.len() {
            assert(nps[q] == prev[q]);
        } else {
            assert(nps[q] == p);
        }
    }
    assert forall|q: int, i: int|
        #![trigger nps[q].get_item().values[i]]
        0 <= q < nps.len() && nps[q] is RangeItem && 0 <= i
            < nps[q].get_item().values.len() implies contains_key(
        s,
        nps[q].get_item().values[i].key,
    ) by {
        if q < prev.len() {
            assert(nps[q] == prev[q]);
        } else {
            assert(nps[q] == p);
        }
    }
    assert forall|j: int, k: Seq<u8>|
        #![trigger m[j].get_item().range.contains(k)]
        0 <= j < upto && m[j] is RangeItem && !m[j].get_item().have_local && contains_key(old_s, k)
            && m[j].get_item().range.contains(k) && !contains_key(
            m[j].get_item().values,
            k,
        ) implies has_answer(nps, m[j].get_item().range, k) by {
        assert(has_answer(prev, m[j].get_item().range, k));
        let q = choose|q: int|
            0 <= q < prev.len() && (#[trigger] prev[q]) is RangeItem
                && prev[q].get_item().have_local && prev[q].get_item().range
                == m[j].get_item().range && contains_key(prev[q].get_item().values, k);
        assert(nps[q] == prev[q]);
    }
}

/// Appending a part that is exact against `s` keeps the exactness clauses.
proof fn lemma_exact_push(prev: Seq<MessagePartV>, p: MessagePartV, s: Seq<EntryV>)
    requires
        fingerprint_parts_exact(prev, s),
        literal_parts_exact(prev, s),
        p is RangeFingerprint ==> p.get_rf().fingerprint == fp_of(
            range_entries(s, p.get_rf().range),
        ),
        p is RangeItem && !p.get_item().have_local ==> p.get_item().values == range_entries(
            s,
            p.get_item().range,
        ),
    ensures
        fingerprint_parts_exact(prev.push(p), s),
        literal_parts_exact(prev.push(p), s),
{
    let nps = prev.push(p);
    assert forall|q: int|
        0 <= q < nps.len() && (#[trigger] nps[q]) is RangeFingerprint implies nps[q].get_rf().fingerprint
        == fp_of(range_entries(s, nps[q].get_rf().range)) by {
        if q < prev.len() {
            assert(nps[q] == prev[q]);
        } else {
            assert(nps[q] == p);
        }
    }
    assert forall|q: int|
        0 <= q < nps.len() && (#[trigger] nps[q]) is RangeItem
            && !nps[q].get_item().have_local implies nps[q].get_item().values == range_entries(
        s,
        nps[q].get_item().range,
    ) by {
        if q < prev.len() {
            assert(nps[q] == prev[q]);
        } else {
            assert(nps[q] == p);
        }
    }
}

/// Keys shipped by `ps` stay held when the store only grows.
proof fn lemma_shipped_keys_grow(ps: Seq<MessagePartV>, s1: Seq<EntryV>, s2: Seq<EntryV>)
    requires
        shipped_keys_held(ps, s1),
        forall|k: Seq<u8>| #[trigger] contains_key(s1, k) ==> contains_key(s2, k),
    ensures
        shipped_keys_held(ps, s2),
{
    assert forall|q: int, i: int|
        #![trigger ps[q].get_item().values[i]]
        0 <= q < ps.len() && ps[q] is RangeItem && 0 <= i
            < ps[q].get_item().values.len() implies contains_key(
        s2,
        ps[q].get_item().values[i].key,
    ) by {
        assert(contains_key(s1, ps[q].get_item().values[i].key));
    }
}

/// Law (idempotence): two peers holding the same entries compute the same
/// whole-set fingerprint, so the opening message of one satisfies
/// `matches_locally` on the other, and `process_message` then ends the
/// session at once: no reply, no change.
pub proof fn lemma_idempotent_exchange(m: Seq<MessagePartV>, a: Seq<EntryV>, b: Seq<EntryV>)
    requires
        a == b,
        m.len() == 1,
        m[0] is RangeFingerprint,
        m[0].get_rf().range.is_all(),
        m[0].get_rf().fingerprint == fp_of(a),
    ensures
        matches_locally(m, b),
{
    crate::store::lemma_range_entries_all(b, m[0].get_rf().range);
}

/// A peer: a store plus the two tunables of the protocol.
pub struct Peer {
    store: Store,
    /// Up to how many values to send literally before sending a fingerprint.
    max_set_size: usize,
    /// How many sub-ranges a split produces; at least 2.
    split_factor: usize,
}

impl View for Peer {
    type V = Seq<EntryV>;

    closed spec fn view(&self) -> Seq<EntryV> {
        self.store@
    }
}

impl Default for Peer {
    fn default() -> (r: Peer)
        ensures
            r@ == Seq::<EntryV>::empty(),
            r.wf(),
            r.spec_max_set_size() == 1,
            r.spec_split_factor() == 2,
    {
        Peer { store: Store::new(), max_set_size: 1, split_factor: 2 }
    }
}

/// The entries of `range` in `store` whose keys are not among those of
/// `values`: what the remote side still lacks, in key order.
fn diff_against(store: &Store, range: &Range, values: &Vec<Entry>) -> (r: Vec<Entry>)
    requires
        store.wf(),
    ensures
        sorted_by_key(entries_view(r@)),
        forall|i: int|
            0 <= i < entries_view(r@).len() ==> (range@.contains(
                (#[trigger] entries_view(r@)[i]).key,
            ) && !contains_key(entries_view(values@), entries_view(r@)[i].key) && contains_key(
                store@,
                entries_view(r@)[i].key,
            ) && value_of(store@, entries_view(r@)[i].key) == entries_view(r@)[i].value),
        forall|k: Seq<u8>|
            contains_key(store@, k) && range@.contains(k) && !contains_key(
                entries_view(values@),
                k,
            ) ==> #[trigger] contains_key(entries_view(r@), k),
{
    let locals = store.get_range(range);
    proof {
        lemma_entries_matching_sorted(store@, range_pred(range@));
        lemma_sorted_unique(store@);
        assert forall|i: int|
            0 <= i < entries_view(locals@).len() implies (range@.contains(
            (#[trigger] entries_view(locals@)[i]).key,
        ) && contains_key(store@, entries_view(locals@)[i].key) && value_of(
            store@,
            entries_view(locals@)[i].key,
        ) == entries_view(locals@)[i].value) by {
            lemma_entries_matching_pred(store@, range_pred(range@), i);
            lemma_entries_matching_membership(store@, range_pred(range@), i);
            let j = choose|j: int|
                0 <= j < store@.len() && store@[j] == entries_view(locals@)[i];
            lemma_value_at(store@, j);
        }
    }
    let mut diff: Vec<Entry> = Vec::new();
    let mut li: usize = 0;
    let ghost mut last_src: int = 0;
    proof {
        assert(entries_view(diff@) =~= Seq::<EntryV>::empty());
    }
    while li < locals.len()
        invariant
            li <= locals@.len(),
            sorted_by_key(entries_view(locals@)),
            sorted_by_key(entries_view(diff@)),
            entries_view(diff@).len() > 0 ==> (0 <= last_src < li && entries_view(
                diff@,
            ).last() == entries_view(locals@)[last_src]),
            entries_view(locals@) == range_entries(store@, range@),
            forall|i: int|
                0 <= i < entries_view(locals@).len() ==> (range@.contains(
                    (#[trigger] entries_view(locals@)[i]).key,
                ) && contains_key(store@, entries_view(locals@)[i].key) && value_of(
                    store@,
                    entries_view(locals@)[i].key,
                ) == entries_view(locals@)[i].value),
            forall|i: int|
                0 <= i < entries_view(diff@).len() ==> ((exists|j: int|
                    0 <= j < entries_view(locals@).len() && entries_view(locals@)[j] == (
                    #[trigger] entries_view(diff@)[i])) && !contains_key(
                    entries_view(values@),
                    entries_view(diff@)[i].key,
                )),
            forall|j: int|
                0 <= j < li && !contains_key(
                    entries_view(values@),
                    (#[trigger] entries_view(locals@)[j]).key,
                ) ==> contains_key(entries_view(diff@), entries_view(locals@)[j].key),
        decreases locals@.len() - li,
    {
        if !has_key_in(values, &locals[li].key) {
            let ghost dv = entries_view(diff@);
            let ghost lv = entries_view(locals@);
            diff.push(locals[li].clone());
            proof {
                assert(entries_view(diff@) =~= dv.push(lv[li as int]));
                assert forall|a: int, b: int|
                    0 <= a < b < entries_view(diff@).len() implies key_lt(
                    entries_view(diff@)[a].key,
                    entries_view(diff@)[b].key,
                ) by {
                    if b == dv.len() {
                        assert(entries_view(diff@)[b] == lv[li as int]);
                        assert(entries_view(diff@)[a] == dv[a]);
                        assert(key_lt(lv[last_src].key, lv[li as int].key));
                        if a == dv.len() - 1 {
                            assert(dv[a] == lv[last_src]);
                        } else {
                            assert(key_lt(dv[a].key, dv[dv.len() - 1].key));
                            assert(dv[dv.len() - 1] == lv[last_src]);
                            crate::keys::lemma_key_lt_transitive(
                                dv[a].key,
                                lv[last_src].key,
                                lv[li as int].key,
                            );
                        }
                    }
                }
                let nd = entries_view(diff@);
                assert forall|i: int|
                    0 <= i < nd.len() implies ((exists|j: int|
                    0 <= j < lv.len() && lv[j] == (#[trigger] nd[i])) && !contains_key(
                    entries_view(values@),
                    nd[i].key,
                )) by {
                    if i < dv.len() {
                        assert(nd[i] == dv[i]);
                    } else {
                        assert(nd[i] == lv[li as int]);
                    }
                }
                assert forall|j: int|
                    0 <= j < li + 1 && !contains_key(
                        entries_view(values@),
                        (#[trigger] lv[j]).key,
                    ) implies contains_key(nd, lv[j].key) by {
                    if j < li {
                        let w = choose|w: int| 0 <= w < dv.len() && dv[w].key == lv[j].key;
                        assert(nd[w].key == lv[j].key);
                    } else {
                        assert(nd[dv.len() as int].key == lv[j].key);
                    }
                }
                last_src = li as int;
            }
        } else {
            proof {
                let lv = entries_view(locals@);
                let dv = entries_view(diff@);
                assert forall|j: int|
                    0 <= j < li + 1 && !contains_key(
                        entries_view(values@),
                        (#[trigger] lv[j]).key,
                    ) implies contains_key(dv, lv[j].key) by {
                    if j < li {
                        let w = choose|w: int| 0 <= w < dv.len() && dv[w].key == lv[j].key;
                        assert(dv[w].key == lv[j].key);
                    }
                }
            }
        }
        li += 1;
    }
    proof {
        let lv = entries_view(locals@);
        let dv = entries_view(diff@);
        assert forall|i: int|
            0 <= i < dv.len() implies (range@.contains((#[trigger] dv[i]).key) && !contains_key(
            entries_view(values@),
            dv[i].key,
        ) && contains_key(store@, dv[i].key) && value_of(store@, dv[i].key) == dv[i].value) by {
            let j = choose|j: int| 0 <= j < lv.len() && lv[j] == dv[i];
            assert(range@.contains(lv[j].key));
        }
        assert forall|k: Seq<u8>|
            contains_key(store@, k) && range@.contains(k) && !contains_key(
                entries_view(values@),
                k,
            ) implies #[trigger] contains_key(dv, k) by {
            let idx = choose|idx: int| 0 <= idx < store@.len() && store@[idx].key == k;
            assert(range_pred(range@)(store@[idx].key) == range@.contains(k));
            lemma_entries_matching_complete(store@, range_pred(range@), idx);
            let j = choose|j: int| 0 <= j < lv.len() && lv[j] == store@[idx];
            assert(contains_key(dv, lv[j].key));
        }
    }
    diff
}

/// Is `key` among the keys of `values`?
fn has_key_in(values: &Vec<Entry>, key: &Vec<u8>) -> (r: bool)
    ensures
        r == contains_key(entries_view(values@), key@),
{
    let mut i: usize = 0;
    while i < values.len()
        invariant
            i <= values@.len(),
            forall|j: int| 0 <= j < i ==> entries_view(values@)[j].key != key@,
        decreases values@.len() - i,
    {
        if let KeyOrder::Equal = key_cmp(&values[i].key, key) {
            proof {
                assert(entries_view(values@)[i as int].key == key@);
            }
            return true;
        }
        i += 1;
    }
    false
}

/// The index of pivot `i` among `n` local entries: the pivots step through
/// the entries in `k` even strides, wrapping at `start`.
pub open spec fn pivot_index(n: int, start: int, i: int, k: int) -> int {
    (start + (n * ((i % k) + 1)) / k) % n
}

/// The last pivot of a round of `k` sits at `start` itself.
proof fn lemma_pivot_index_last(n: int, start: int, k: int)
    requires
        n >= 1,
        k >= 1,
        0 <= start < n,
    ensures
        pivot_index(n, start, k - 1, k) == start,
{
    vstd::arithmetic::div_mod::lemma_small_mod((k - 1) as nat, k as nat);
    assert((k - 1) % k == k - 1);
    vstd::arithmetic::div_mod::lemma_div_by_multiple(n, k);
    assert(n * ((k - 1) % k + 1) == n * k);
    assert((n * k) / k == n);
    vstd::arithmetic::div_mod::lemma_mod_multiples_vanish(1, start, n);
    vstd::arithmetic::div_mod::lemma_small_mod(start as nat, n as nat);
    assert((n * 1 + start) % n == start % n);
    assert(start + n == n * 1 + start);
}

/// Shifting within the cycle moves off the starting index.
proof fn lemma_mod_shift_ne(start: int, off: int, n: int)
    requires
        0 <= start < n,
        0 < off < n,
    ensures
        (start + off) % n != start,
{
    if start + off < n {
        vstd::arithmetic::div_mod::lemma_small_mod((start + off) as nat, n as nat);
    } else {
        vstd::arithmetic::div_mod::lemma_fundamental_div_mod_converse(
            start + off,
            n,
            1,
            start + off - n,
        );
    }
}

/// Among any round of `k >= 2` pivots over `n >= 2` entries, some pivot sits
/// away from `start`.
proof fn lemma_pivot_witness(n: int, start: int, k: int) -> (i: int)
    requires
        n >= 2,
        k >= 2,
        0 <= start < n,
    ensures
        0 <= i < k,
        pivot_index(n, start, i, k) != start,
{
    if n >= k {
        vstd::arithmetic::div_mod::lemma_small_mod(0nat, k as nat);
        assert(0int % k == 0);
        assert(n * (0int % k + 1) == n);
        let off = n / k;
        vstd::arithmetic::div_mod::lemma_div_non_zero(n, k);
        vstd::arithmetic::div_mod::lemma_div_decreases(n, k);
        lemma_mod_shift_ne(start, off, n);
        0
    } else {
        let c = (k + n - 1) / n;
        vstd::arithmetic::div_mod::lemma_fundamental_div_mod(k + n - 1, n);
        vstd::arithmetic::div_mod::lemma_mod_division_less_than_divisor(k + n - 1, n);
        assert(n * c >= k);
        assert(n * c <= k + n - 1);
        vstd::arithmetic::div_mod::lemma_div_non_zero(k + n - 1, n);
        assert(k + n - 1 < n * k) by (nonlinear_arith)
            requires
                n >= 2,
                k >= 2,
        ;
        assert(c < k) by (nonlinear_arith)
            requires
                n * c <= k + n - 1,
                k + n - 1 < n * k,
                n >= 1,
        ;
        let i = c - 1;
        vstd::arithmetic::div_mod::lemma_small_mod(i as nat, k as nat);
        assert(i % k == i);
        assert(n * (i % k + 1) == n * c);
        vstd::arithmetic::div_mod::lemma_div_is_ordered(k, n * c, k);
        vstd::arithmetic::div_mod::lemma_div_by_multiple(1, k);
        assert(1 * k == k);
        assert(k / k == 1);
        vstd::arithmetic::div_mod::lemma_div_is_ordered(n * c, 2 * k - 1, k);
        vstd::arithmetic::div_mod::lemma_fundamental_div_mod_converse(2 * k - 1, k, 1, k - 1);
        assert((2 * k - 1) / k == 1);
        assert((n * c) / k == 1);
        lemma_mod_shift_ne(start, 1, n);
        i
    }
}

/// The key of the entry `offset(i)` positions after `start`, where the
/// offsets divide the entries into `k` even parts.
fn pivot_key(locals: &Vec<Entry>, start: usize, i: usize, k: usize) -> (r: Vec<u8>)
    requires
        locals@.len() >= 1,
        start < locals@.len(),
        k >= 2,
    ensures
        0 <= pivot_index(locals@.len() as int, start as int, i as int, k as int)
            < locals@.len(),
        r@ == entries_view(locals@)[pivot_index(
            locals@.len() as int,
            start as int,
            i as int,
            k as int,
        )].key,
{
    let n = locals.len();
    let j = i % k;
    let nw = n as u128;
    let jw = (j as u128) + 1;
    proof {
        assert(nw * jw <= 0xFFFF_FFFF_FFFF_FFFFu128 * 0x1_0000_0000_0000_0000u128) by (nonlinear_arith)
            requires
                nw <= 0xFFFF_FFFF_FFFF_FFFFu128,
                jw <= 0x1_0000_0000_0000_0000u128,
        ;
    }
    let off = (nw * jw) / (k as u128);
    proof {
        vstd::arithmetic::div_mod::lemma_div_nonincreasing((nw * jw) as int, k as int);
    }
    let idx_wide = ((start as u128) + off) % nw;
    proof {
        assert(idx_wide < nw);
        assert(idx_wide as int == pivot_index(n as int, start as int, i as int, k as int));
    }
    let idx = idx_wide as usize;
    clone_key(&locals[idx].key)
}

impl Peer {
    /// The peer's invariant: a well-formed store and a split factor of at
    /// least 2.
    pub closed spec fn wf(&self) -> bool {
        self.store.wf() && self.split_factor >= 2
    }

    /// Up to how many values the peer sends literally before sending a
    /// fingerprint.
    pub closed spec fn spec_max_set_size(&self) -> usize {
        self.max_set_size
    }

    /// How many sub-ranges a split produces.
    pub closed spec fn spec_split_factor(&self) -> usize {
        self.split_factor
    }

    /// A peer over `store` with the default tunables.
    pub fn from_store(store: Store) -> (r: Peer)
        ensures
            r@ == store@,
            store.wf() ==> r.wf(),
            r.spec_max_set_size() == 1,
            r.spec_split_factor() == 2,
    {
        Peer { store, max_set_size: 1, split_factor: 2 }
    }

    /// The underlying store.
    pub fn store(&self) -> (r: &Store)
        ensures
            r@ == self@,
            self.wf() ==> r.wf(),
    {
        &self.store
    }

    /// Insert an entry out of band.
    pub fn put(&mut self, entry: Entry)
        requires
            old(self).wf(),
        ensures
            final(self).wf(),
            contains_key(final(self)@, entry@.key),
            value_of(final(self)@, entry@.key) == entry@.value,
            forall|k: Seq<u8>|
                k != entry@.key ==> (contains_key(final(self)@, k) <==> contains_key(
                    old(self)@,
                    k,
                )),
            forall|k: Seq<u8>|
                k != entry@.key && contains_key(old(self)@, k) ==> value_of(final(self)@, k)
                    == value_of(old(self)@, k),
    {
        self.store.put(entry);
    }

    /// Every entry the peer holds, in key order.
    pub fn all(&self) -> (r: Vec<Entry>)
        ensures
            crate::store::entries_view(r@) == self@,
    {
        self.store.all()
    }

    /// The opening message: one fingerprint covering the whole set,
    /// anchored at the store's first key (the empty key when it is empty).
    pub fn initial_message(&self) -> (r: Message)
        ensures
            r@.len() == 1,
            r@[0] is RangeFingerprint,
            r@[0].get_rf().range.is_all(),
            r@[0].get_rf().range.x == (if self@.len() == 0 {
                Seq::<u8>::empty()
            } else {
                self@[0].key
            }),
            r@[0].get_rf().range.y == r@[0].get_rf().range.x,
            r@[0].get_rf().fingerprint == fp_of(self@),
    {
        Message::init(&self.store)
    }

    /// Process an incoming message and produce the response, or `None` when
    /// the session is over. `validate_cb` is consulted before each received
    /// entry is stored; entries it refuses are dropped silently.
    pub fn process_message<F: Fn(&Store, &Entry) -> bool>(
        &mut self,
        message: Message,
        validate_cb: F,
    ) -> (r: Option<Message>)
        requires
            old(self).wf(),
            callable_on_all(validate_cb),
        ensures
            final(self).wf(),
            final(self).spec_max_set_size() == old(self).spec_max_set_size(),
            final(self).spec_split_factor() == old(self).spec_split_factor(),
            // the store only grows
            forall|k: Seq<u8>|
                #[trigger] contains_key(old(self)@, k) ==> contains_key(final(self)@, k),
            // every new key was shipped in the message
            forall|k: Seq<u8>|
                #[trigger] contains_key(final(self)@, k) ==> contains_key(old(self)@, k)
                    || msg_has_key(message@, k),
            // every held entry was either held before, unchanged, or shipped
            forall|k: Seq<u8>|
                #[trigger] contains_key(final(self)@, k) ==> (contains_key(old(self)@, k)
                    && value_of(final(self)@, k) == value_of(old(self)@, k)) || msg_has_pair(
                    message@,
                    k,
                    value_of(final(self)@, k),
                ),
            // a hook that rejects everything leaves the store unchanged
            rejects_all(validate_cb) ==> final(self)@ == old(self)@,
            // a hook that accepts everything ingests every shipped key
            accepts_all(validate_cb) ==> forall|k: Seq<u8>|
                msg_has_key(message@, k) ==> #[trigger] contains_key(final(self)@, k),
            // a matching whole-set fingerprint ends the session unchanged
            matches_locally(message@, old(self)@) ==> (r is None && final(self)@ == old(self)@),
            // a reply is never empty
            (match r {
                Some(m) => m@.len() > 0,
                None => true,
            }),
            // no part of the reply ships the same key twice
            (match r {
                Some(m) => parts_values_unique(m@),
                None => true,
            }),
            // every fingerprint stated in the reply is the fingerprint the
            // peer holds over that range when the call returns
            fingerprint_parts_exact(reply_view(r), final(self)@),
            // every range the reply ships outright is shipped in full
            literal_parts_exact(reply_view(r), final(self)@),
            // every answering part responds to a request of the message with
            // fit answers only
            answer_parts_sound(message@, old(self)@, reply_view(r)),
            // the peer only ships keys it holds
            shipped_keys_held(reply_view(r), final(self)@),
            // every request the peer could answer is answered
            requests_answered(message@, old(self)@, message@.len() as int, reply_view(r)),
            // silence means every stated fingerprint matched the peer's own
            r is None ==> fingerprints_all_match(message@, final(self)@),
    {
        let ghost old_store = old(self)@;
        let ghost mv = message@;
        let ghost fcond = matches_locally(mv, old_store);
        let mut out: Vec<MessagePart> = Vec::new();
        let parts: Vec<MessagePart> = message.into_parts();
        proof {
            if fcond {
                assert(has_no_items(mv));
            }
        }
        // Phase A: ingest the shipped entries, answering each request for
        // the local complement computed before the merge.
        let mut pi: usize = 0;
        while pi < parts.len()
            invariant
                pi <= parts@.len(),
                parts_view(parts@) == mv,
                mv.len() == parts@.len(),
                callable_on_all(validate_cb),
                self.wf(),
                self.split_factor == old(self).split_factor,
                self.max_set_size == old(self).max_set_size,
                forall|k: Seq<u8>|
                    #[trigger] contains_key(old_store, k) ==> contains_key(self@, k),
                forall|k: Seq<u8>|
                    #[trigger] contains_key(self@, k) ==> contains_key(old_store, k)
                        || msg_has_key(mv, k),
                forall|k: Seq<u8>|
                    #[trigger] contains_key(self@, k) ==> (contains_key(old_store, k) && value_of(
                        self@,
                        k,
                    ) == value_of(old_store, k)) || msg_has_pair(mv, k, value_of(self@, k)),
                rejects_all(validate_cb) ==> self@ == old_store,
                accepts_all(validate_cb) ==> forall|k: Seq<u8>|
                    msg_has_key(mv.take(pi as int), k) ==> #[trigger] contains_key(self@, k),
                has_no_items(mv) ==> (out@.len() == 0 && self@ == old_store),
                parts_values_unique(parts_view(out@)),
                all_answer_parts(parts_view(out@)),
                answer_parts_sound(mv, old_store, parts_view(out@)),
                shipped_keys_held(parts_view(out@), self@),
                requests_answered(mv, old_store, pi as int, parts_view(out@)),
            decreases parts@.len() - pi,
        {
            match &parts[pi] {
                MessagePart::RangeItem(item) => {
                    proof {
                        assert(mv[pi as int] == parts@[pi as int]@);
                        assert(mv[pi as int].get_item() == item@);
                        assert(!has_no_items(mv));
                    }
                    let have_local = item.have_local;
                    let ghost s_before = self@;
                    proof {
                        assert(forall|k: Seq<u8>|
                            #[trigger] contains_key(old_store, k) ==> contains_key(s_before, k));
                        assert(forall|k: Seq<u8>|
                            #[trigger] contains_key(s_before, k) ==> (contains_key(old_store, k)
                                && value_of(s_before, k) == value_of(old_store, k)) || msg_has_pair(
                                mv,
                                k,
                                value_of(s_before, k),
                            ));
                    }
                    // Compute the local complement against the store as it
                    // stands before this part's insertions.
                    let diff: Vec<Entry> = if !have_local {
                        diff_against(&self.store, &item.range, &item.values)
                    } else {
                        Vec::new()
                    };
                    let ghost dv = entries_view(diff@);
                    proof {
                        if have_local {
                            assert(dv =~= Seq::<EntryV>::empty());
                        }
                        assert(sorted_by_key(dv));
                    }
                    // Store the incoming values that the hook accepts.
                    let mut vi: usize = 0;
                    while vi < item.values.len()
                        invariant
                            vi <= item@.values.len(),
                            callable_on_all(validate_cb),
                            self.wf(),
                            self.split_factor == old(self).split_factor,
                            self.max_set_size == old(self).max_set_size,
                            0 <= pi < mv.len(),
                            mv[pi as int] is RangeItem,
                            mv[pi as int].get_item() == item@,
                            forall|k: Seq<u8>|
                                #[trigger] contains_key(old_store, k) ==> contains_key(self@, k),
                            forall|k: Seq<u8>|
                                #[trigger] contains_key(self@, k) ==> contains_key(old_store, k)
                                    || msg_has_key(mv, k),
                            forall|k: Seq<u8>|
                                #[trigger] contains_key(self@, k) ==> (contains_key(old_store, k)
                                    && value_of(self@, k) == value_of(old_store, k))
                                    || msg_has_pair(mv, k, value_of(self@, k)),
                            rejects_all(validate_cb) ==> self@ == old_store,
                            accepts_all(validate_cb) ==> forall|k: Seq<u8>|
                                msg_has_key(mv.take(pi as int), k) ==> #[trigger] contains_key(
                                    self@,
                                    k,
                                ),
                            accepts_all(validate_cb) ==> forall|i: int|
                                #![trigger item@.values[i]]
                                0 <= i < vi ==> contains_key(self@, item@.values[i].key),
                            forall|k: Seq<u8>|
                                #[trigger] contains_key(s_before, k) ==> contains_key(self@, k),
                            shipped_keys_held(parts_view(out@), self@),
                        decreases item@.values.len() - vi,
                    {
                        let e = item.values[vi].clone();
                        let ghost before = self@;
                        let ok = validate_cb(&self.store, &e);
                        if ok {
                            proof {
                                if rejects_all(validate_cb) {
                                    assert(false);
                                }
                            }
                            self.store.put(e);
                            proof {
                                let ek = item@.values[vi as int].key;
                                let evv = item@.values[vi as int].value;
                                assert(part_has_key(mv[pi as int], ek));
                                assert(msg_has_key(mv, ek));
                                assert(part_has_pair(mv[pi as int], ek, evv));
                                assert(msg_has_pair(mv, ek, evv));
                                assert forall|k: Seq<u8>| #[trigger]
                                    contains_key(self@, k) implies contains_key(old_store, k)
                                    || msg_has_key(mv, k) by {
                                    if k != ek {
                                        assert(contains_key(before, k));
                                    }
                                }
                                assert forall|k: Seq<u8>| #[trigger]
                                    contains_key(self@, k) implies (contains_key(old_store, k)
                                    && value_of(self@, k) == value_of(old_store, k))
                                    || msg_has_pair(mv, k, value_of(self@, k)) by {
                                    if k == ek {
                                        assert(value_of(self@, k) == evv);
                                    } else {
                                        assert(contains_key(before, k));
                                        assert(value_of(self@, k) == value_of(before, k));
                                    }
                                }
                                assert forall|k: Seq<u8>| #[trigger]
                                    contains_key(before, k) implies contains_key(self@, k) by {
                                    if k != ek {
                                    }
                                }
                                lemma_shipped_keys_grow(parts_view(out@), before, self@);
                            }
                        } else {
                            proof {
                                if accepts_all(validate_cb) {
                                    assert(false);
                                }
                            }
                        }
                        vi += 1;
                    }
                    // Ship back what the remote lacks.
                    if !have_local && diff.len() > 0 {
                        let part = MessagePart::RangeItem(
                            RangeItem { range: item.range.clone(), values: diff, have_local: true },
                        );
                        let ghost pv = part@;
                        let ghost prev_out = parts_view(out@);
                        out.push(part);
                        proof {
                            assert(parts_view(out@) =~= prev_out.push(pv));
                            lemma_sorted_unique(dv);
                            // the new part answers this request
                            assert forall|i: int|
                                0 <= i < dv.len() implies answers_request(
                                mv,
                                old_store,
                                mv[pi as int].get_item(),
                                #[trigger] dv[i],
                            ) by {
                                assert(contains_key(s_before, dv[i].key));
                                assert(value_of(s_before, dv[i].key) == dv[i].value);
                            }
                            assert(diff_part_sound(mv, old_store, pv.get_item()));
                            // its keys are still held after the insertions
                            assert forall|i: int|
                                0 <= i < pv.get_item().values.len() implies contains_key(
                                self@,
                                (#[trigger] pv.get_item().values[i]).key,
                            ) by {
                                assert(contains_key(s_before, dv[i].key));
                            }
                            lemma_out_push(prev_out, pv, mv, old_store, self@, pi as int);
                            assert forall|q: int|
                                0 <= q < parts_view(out@).len() implies ((#[trigger] parts_view(
                                out@,
                            )[q]) is RangeItem && parts_view(out@)[q].get_item().have_local) by {
                                if q < prev_out.len() {
                                    assert(parts_view(out@)[q] == prev_out[q]);
                                } else {
                                    assert(parts_view(out@)[q] == pv);
                                }
                            }
                            // the request of this very part is now answered too
                            assert forall|j: int, k: Seq<u8>|
                                #![trigger mv[j].get_item().range.contains(k)]
                                0 <= j < pi as int + 1 && mv[j] is RangeItem
                                    && !mv[j].get_item().have_local && contains_key(old_store, k)
                                    && mv[j].get_item().range.contains(k) && !contains_key(
                                    mv[j].get_item().values,
                                    k,
                                ) implies has_answer(
                                parts_view(out@),
                                mv[j].get_item().range,
                                k,
                            ) by {
                                if j == pi as int {
                                    assert(contains_key(s_before, k));
                                    assert(contains_key(dv, k));
                                    assert(parts_view(out@)[prev_out.len() as int] == pv);
                                }
                            }
                        }
                    } else {
                        proof {
                            assert forall|j: int, k: Seq<u8>|
                                #![trigger mv[j].get_item().range.contains(k)]
                                0 <= j < pi as int + 1 && mv[j] is RangeItem
                                    && !mv[j].get_item().have_local && contains_key(old_store, k)
                                    && mv[j].get_item().range.contains(k) && !contains_key(
                                    mv[j].get_item().values,
                                    k,
                                ) implies has_answer(
                                parts_view(out@),
                                mv[j].get_item().range,
                                k,
                            ) by {
                                if j == pi as int {
                                    assert(!have_local);
                                    assert(contains_key(s_before, k));
                                    assert(contains_key(dv, k));
                                    assert(dv.len() > 0);
                                    assert(false);
                                }
                            }
                        }
                    }
                    proof {
                        if accepts_all(validate_cb) {
                            assert forall|k: Seq<u8>|
                                msg_has_key(mv.take(pi as int + 1), k) implies #[trigger]
                            contains_key(self@, k) by {
                                let j = choose|j: int|
                                    #![trigger mv.take(pi as int + 1)[j]]
                                    0 <= j < mv.take(pi as int + 1).len() && part_has_key(
                                        mv.take(pi as int + 1)[j],
                                        k,
                                    );
                                if j < pi as int {
                                    assert(mv.take(pi as int)[j] == mv[j]);
                                    assert(part_has_key(mv.take(pi as int)[j], k));
                                    assert(msg_has_key(mv.take(pi as int), k));
                                } else {
                                    assert(mv.take(pi as int + 1)[j] == mv[pi as int]);
                                    let i = choose|i: int|
                                        0 <= i < item@.values.len() && item@.values[i].key == k;
                                    assert(contains_key(self@, item@.values[i].key));
                                }
                            }
                        }
                    }
                },
                MessagePart::RangeFingerprint(_) => {
                    proof {
                        assert(mv[pi as int] == parts@[pi as int]@);
                        assert forall|j: int, k: Seq<u8>|
                            #![trigger mv[j].get_item().range.contains(k)]
                            0 <= j < pi as int + 1 && mv[j] is RangeItem
                                && !mv[j].get_item().have_local && contains_key(old_store, k)
                                && mv[j].get_item().range.contains(k) && !contains_key(
                                mv[j].get_item().values,
                                k,
                            ) implies has_answer(
                            parts_view(out@),
                            mv[j].get_item().range,
                            k,
                        ) by {
                            assert(j != pi as int);
                        }
                        if accepts_all(validate_cb) {
                            assert forall|k: Seq<u8>|
                                msg_has_key(mv.take(pi as int + 1), k) implies #[trigger]
                            contains_key(self@, k) by {
                                let j = choose|j: int|
                                    #![trigger mv.take(pi as int + 1)[j]]
                                    0 <= j < mv.take(pi as int + 1).len() && part_has_key(
                                        mv.take(pi as int + 1)[j],
                                        k,
                                    );
                                assert(j < pi as int);
                                assert(mv.take(pi as int)[j] == mv[j]);
                                assert(msg_has_key(mv.take(pi as int), k));
                            }
                        }
                    }
                },
            }
            pi += 1;
        }
        proof {
            assert(mv.take(mv.len() as int) =~= mv);
        }
        // Phase B: answer each fingerprint part. Everything sent so far is an
        // answering part, so the fingerprint and literal clauses hold of it
        // vacuously.
        proof {
            assert forall|q: int|
                0 <= q < parts_view(out@).len() && (#[trigger] parts_view(
                    out@,
                )[q]) is RangeFingerprint implies parts_view(out@)[q].get_rf().fingerprint == fp_of(
                range_entries(self@, parts_view(out@)[q].get_rf().range),
            ) by {
                assert(parts_view(out@)[q] is RangeItem);
            }
            assert forall|q: int|
                0 <= q < parts_view(out@).len() && (#[trigger] parts_view(out@)[q]) is RangeItem
                    && !parts_view(out@)[q].get_item().have_local implies parts_view(
                out@,
            )[q].get_item().values == range_entries(
                self@,
                parts_view(out@)[q].get_item().range,
            ) by {
                assert(parts_view(out@)[q].get_item().have_local);
            }
        }
        let mut fi: usize = 0;
        while fi < parts.len()
            invariant
                fi <= parts@.len(),
                parts_view(parts@) == mv,
                mv.len() == parts@.len(),
                self.wf(),
                fcond == matches_locally(mv, old_store),
                fcond ==> (out@.len() == 0 && self@ == old_store),
                parts_values_unique(parts_view(out@)),
                fingerprint_parts_exact(parts_view(out@), self@),
                literal_parts_exact(parts_view(out@), self@),
                answer_parts_sound(mv, old_store, parts_view(out@)),
                shipped_keys_held(parts_view(out@), self@),
                requests_answered(mv, old_store, mv.len() as int, parts_view(out@)),
                forall|j: int|
                    0 <= j < fi && (#[trigger] mv[j]) is RangeFingerprint
                        && mv[j].get_rf().fingerprint != fp_of(
                        range_entries(self@, mv[j].get_rf().range),
                    ) ==> out@.len() > 0,
            decreases parts@.len() - fi,
        {
            match &parts[fi] {
                MessagePart::RangeFingerprint(rf) => {
                    proof {
                        assert(mv[fi as int] == parts@[fi as int]@);
                        assert(mv[fi as int].get_rf() == rf@);
                    }
                    let local_fp = self.store.get_fingerprint(&rf.range);
                    if local_fp.equals(&rf.fingerprint) {
                        // Match: the range is reconciled.
                        proof {
                            assert(mv[fi as int].get_rf().fingerprint == fp_of(
                                range_entries(self@, mv[fi as int].get_rf().range),
                            ));
                        }
                    } else {
                        proof {
                            if fcond {
                                assert(fi == 0);
                                assert(rf@ == mv[0].get_rf());
                                assert(local_fp@ == rf@.fingerprint);
                                assert(false);
                            }
                        }
                        let locals = self.store.get_range(&rf.range);
                        let empty_fp_val = Fingerprint::empty();
                        let remote_empty = rf.fingerprint.equals(&empty_fp_val);
                        if locals.len() <= 1 || remote_empty {
                            // Recursion anchor: ship the literals.
                            let ghost lv = entries_view(locals@);
                            let part = MessagePart::RangeItem(
                                RangeItem {
                                    range: rf.range.clone(),
                                    values: locals,
                                    have_local: false,
                                },
                            );
                            let ghost pv = part@;
                            let ghost prev_out = parts_view(out@);
                            out.push(part);
                            proof {
                                assert(parts_view(out@) =~= prev_out.push(pv));
                                lemma_entries_matching_sorted(self@, range_pred(rf.range@));
                                lemma_sorted_unique(lv);
                                assert forall|i: int|
                                    0 <= i < lv.len() implies contains_key(
                                    self@,
                                    (#[trigger] lv[i]).key,
                                ) by {
                                    lemma_entries_matching_membership(
                                        self@,
                                        range_pred(rf.range@),
                                        i,
                                    );
                                    let w = choose|w: int|
                                        0 <= w < self@.len() && self@[w] == lv[i];
                                    assert(self@[w].key == lv[i].key);
                                }
                                lemma_out_push(prev_out, pv, mv, old_store, self@, mv.len() as int);
                                assert forall|q: int|
                                    0 <= q < parts_view(out@).len() && (#[trigger] parts_view(
                                        out@,
                                    )[q]) is RangeFingerprint implies parts_view(
                                    out@,
                                )[q].get_rf().fingerprint == fp_of(
                                    range_entries(self@, parts_view(out@)[q].get_rf().range),
                                ) by {
                                    if q < prev_out.len() {
                                        assert(parts_view(out@)[q] == prev_out[q]);
                                    } else {
                                        assert(parts_view(out@)[q] == pv);
                                    }
                                }
                                assert forall|q: int|
                                    0 <= q < parts_view(out@).len() && (#[trigger] parts_view(
                                        out@,
                                    )[q]) is RangeItem && !parts_view(
                                        out@,
                                    )[q].get_item().have_local implies parts_view(
                                    out@,
                                )[q].get_item().values == range_entries(
                                    self@,
                                    parts_view(out@)[q].get_item().range,
                                ) by {
                                    if q < prev_out.len() {
                                        assert(parts_view(out@)[q] == prev_out[q]);
                                    } else {
                                        assert(parts_view(out@)[q] == pv);
                                    }
                                }
                            }
                        } else {
                            // Recurse: split the range at evenly spaced pivots.
                            let n = locals.len();
                            let k = self.split_factor;
                            let mut start_index: usize = 0;
                            let mut found = false;
                            let mut si: usize = 0;
                            while si < n
                                invariant
                                    n == locals@.len(),
                                    si <= n,
                                    found ==> start_index < n,
                                    !found ==> start_index == 0,
                                decreases n - si,
                            {
                                if !found {
                                    match key_cmp(&locals[si].key, rf.range.x()) {
                                        KeyOrder::Less => {},
                                        _ => {
                                            start_index = si;
                                            found = true;
                                        },
                                    }
                                }
                                si += 1;
                            }
                            let mut subranges: Vec<Range> = Vec::new();
                            let ghost lv = entries_view(locals@);
                            proof {
                                lemma_entries_matching_sorted(self@, range_pred(rf.range@));
                                lemma_sorted_unique(lv);
                            }
                            if rf.range.is_all() {
                                let mut i: usize = 0;
                                while i < k
                                    invariant
                                        n == locals@.len(),
                                        n >= 2,
                                        k >= 2,
                                        start_index < n,
                                        i <= k,
                                        lv == entries_view(locals@),
                                        unique_keys(lv),
                                        subranges@.len() > 0 || (forall|j: int|
                                            #![trigger pivot_index(n as int, start_index as int, j, k as int)]
                                            0 <= j <= i ==> pivot_index(
                                                n as int,
                                                start_index as int,
                                                j,
                                                k as int,
                                            ) == pivot_index(
                                                n as int,
                                                start_index as int,
                                                0,
                                                k as int,
                                            )),
                                    decreases k - i,
                                {
                                    let xi = pivot_key(&locals, start_index, i, k);
                                    let yi = pivot_key(&locals, start_index, i + 1, k);
                                    match key_cmp(&xi, &yi) {
                                        KeyOrder::Equal => {
                                            proof {
                                                let px = pivot_index(
                                                    n as int,
                                                    start_index as int,
                                                    i as int,
                                                    k as int,
                                                );
                                                let py = pivot_index(
                                                    n as int,
                                                    start_index as int,
                                                    i as int + 1,
                                                    k as int,
                                                );
                                                assert(lv[px].key == lv[py].key);
                                                if px != py {
                                                    if px < py {
                                                        assert(lv[px].key != lv[py].key);
                                                    } else {
                                                        assert(lv[py].key != lv[px].key);
                                                    }
                                                }
                                                if subranges@.len() == 0 {
                                                    assert forall|j: int|
                                                        #![trigger pivot_index(n as int, start_index as int, j, k as int)]
                                                        0 <= j <= i as int + 1 implies pivot_index(
                                                        n as int,
                                                        start_index as int,
                                                        j,
                                                        k as int,
                                                    ) == pivot_index(
                                                        n as int,
                                                        start_index as int,
                                                        0,
                                                        k as int,
                                                    ) by {
                                                        if j == i as int + 1 {
                                                            assert(py == px);
                                                        }
                                                    }
                                                }
                                            }
                                        },
                                        _ => {
                                            subranges.push(Range::new(xi, yi));
                                        },
                                    }
                                    i += 1;
                                }
                                proof {
                                    if subranges@.len() == 0 {
                                        lemma_pivot_index_last(
                                            n as int,
                                            start_index as int,
                                            k as int,
                                        );
                                        let w = lemma_pivot_witness(
                                            n as int,
                                            start_index as int,
                                            k as int,
                                        );
                                        assert(pivot_index(
                                            n as int,
                                            start_index as int,
                                            w,
                                            k as int,
                                        ) == pivot_index(n as int, start_index as int, 0, k as int));
                                        assert(pivot_index(
                                            n as int,
                                            start_index as int,
                                            k as int - 1,
                                            k as int,
                                        ) == pivot_index(n as int, start_index as int, 0, k as int));
                                        assert(false);
                                    }
                                }
                            } else {
                                let p0 = pivot_key(&locals, start_index, 0, k);
                                subranges.push(Range::new(clone_key(rf.range.x()), p0));
                                let mut i: usize = 0;
                                while i < k - 2
                                    invariant
                                        n == locals@.len(),
                                        n >= 2,
                                        k >= 2,
                                        start_index < n,
                                        i <= k - 2,
                                        subranges@.len() >= 1,
                                    decreases k - 2 - i,
                                {
                                    let xi = pivot_key(&locals, start_index, i, k);
                                    let yi = pivot_key(&locals, start_index, i + 1, k);
                                    match key_cmp(&xi, &yi) {
                                        KeyOrder::Equal => {},
                                        _ => {
                                            subranges.push(Range::new(xi, yi));
                                        },
                                    }
                                    i += 1;
                                }
                                let plast = pivot_key(&locals, start_index, k - 2, k);
                                subranges.push(Range::new(plast, clone_key(rf.range.y())));
                            }
                            // For each sub-range, send a fingerprint when it
                            // holds too many entries to ship, else the entries.
                            let ghost out_before = parts_view(out@).len();
                            let mut ri: usize = 0;
                            while ri < subranges.len()
                                invariant
                                    ri <= subranges@.len(),
                                    !fcond,
                                    self.wf(),
                                    parts_values_unique(parts_view(out@)),
                                    fingerprint_parts_exact(parts_view(out@), self@),
                                    literal_parts_exact(parts_view(out@), self@),
                                    answer_parts_sound(mv, old_store, parts_view(out@)),
                                    shipped_keys_held(parts_view(out@), self@),
                                    requests_answered(
                                        mv,
                                        old_store,
                                        mv.len() as int,
                                        parts_view(out@),
                                    ),
                                    parts_view(out@).len() == out_before + ri,
                                decreases subranges@.len() - ri,
                            {
                                let sr = &subranges[ri];
                                let chunk = self.store.get_range(sr);
                                let fp = self.store.get_fingerprint(sr);
                                if chunk.len() > self.max_set_size {
                                    let part = MessagePart::RangeFingerprint(
                                        RangeFingerprint { range: sr.clone(), fingerprint: fp },
                                    );
                                    let ghost pv = part@;
                                    let ghost prev_out = parts_view(out@);
                                    out.push(part);
                                    proof {
                                        assert(parts_view(out@) =~= prev_out.push(pv));
                                        lemma_out_push(
                                            prev_out,
                                            pv,
                                            mv,
                                            old_store,
                                            self@,
                                            mv.len() as int,
                                        );
                                        lemma_exact_push(prev_out, pv, self@);
                                    }
                                } else {
                                    let ghost cv = entries_view(chunk@);
                                    let part = MessagePart::RangeItem(
                                        RangeItem {
                                            range: sr.clone(),
                                            values: chunk,
                                            have_local: false,
                                        },
                                    );
                                    let ghost pv = part@;
                                    let ghost prev_out = parts_view(out@);
                                    out.push(part);
                                    proof {
                                        assert(parts_view(out@) =~= prev_out.push(pv));
                                        lemma_entries_matching_sorted(self@, range_pred(sr@));
                                        lemma_sorted_unique(cv);
                                        assert forall|i: int|
                                            0 <= i < cv.len() implies contains_key(
                                            self@,
                                            (#[trigger] cv[i]).key,
                                        ) by {
                                            lemma_entries_matching_membership(
                                                self@,
                                                range_pred(sr@),
                                                i,
                                            );
                                            let w = choose|w: int|
                                                0 <= w < self@.len() && self@[w] == cv[i];
                                            assert(self@[w].key == cv[i].key);
                                        }
                                        lemma_out_push(
                                            prev_out,
                                            pv,
                                            mv,
                                            old_store,
                                            self@,
                                            mv.len() as int,
                                        );
                                        lemma_exact_push(prev_out, pv, self@);
                                    }
                                }
                                ri += 1;
                            }
                            proof {
                                assert(subranges@.len() >= 1);
                                assert(parts_view(out@).len() > 0);
                            }
                        }
                    }
                },
                MessagePart::RangeItem(_) => {},
            }
            fi += 1;
        }
        if out.len() > 0 {
            Some(Message::from_parts(out))
        } else {
            None
        }
    }
}

} // verus!
