//! The messages the two peers exchange.
//!
//! A message is an ordered sequence of parts; a part either states the
//! sender's fingerprint over a range, or ships the sender's entries in a
//! range (and, unless `have_local` is set, asks for the entries it misses).

use vstd::prelude::*;

use crate::entry::{Entry, EntryV};
use crate::fingerprint::Fingerprint;
use crate::range::{Range, RangeV};
use crate::store::{entries_view, fp_of, lemma_range_entries_all, unique_keys, Store};

verus! {

/// "Over `range`, my fingerprint is `fingerprint`."
pub struct RangeFingerprint {
    pub range: Range,
    pub fingerprint: Fingerprint,
}

/// The model of a fingerprint part.
pub struct RangeFingerprintV {
    pub range: RangeV,
    pub fingerprint: Seq<u8>,
}

impl View for RangeFingerprint {
    type V = RangeFingerprintV;

    open spec fn view(&self) -> RangeFingerprintV {
        RangeFingerprintV { range: self.range@, fingerprint: self.fingerprint@ }
    }
}

impl Clone for RangeFingerprint {
    fn clone(&self) -> (r: Self)
        ensures
            r@ == self@,
    {
        RangeFingerprint { range: self.range.clone(), fingerprint: self.fingerprint.clone() }
    }
}

/// "Here are my entries in `range`; if `have_local` is false, send me yours
/// in `range` that are not among these keys."
pub struct RangeItem {
    pub range: Range,
    pub values: Vec<Entry>,
    pub have_local: bool,
}

/// The model of an item part.
pub struct RangeItemV {
    pub range: RangeV,
    pub values: Seq<EntryV>,
    pub have_local: bool,
}

impl View for RangeItem {
    type V = RangeItemV;

    open spec fn view(&self) -> RangeItemV {
        RangeItemV {
            range: self.range@,
            values: entries_view(self.values@),
            have_local: self.have_local,
        }
    }
}

/// Copy a vector of entries, preserving the models.
pub fn clone_entries(v: &Vec<Entry>) -> (r: Vec<Entry>)
    ensures
        entries_view(r@) == entries_view(v@),
{
    let mut r: Vec<Entry> = Vec::new();
    let mut i: usize = 0;
    proof {
        assert(entries_view(r@) =~= entries_view(v@).take(0));
    }
    while i < v.len()
        invariant
            i <= v@.len(),
            entries_view(r@) == entries_view(v@).take(i as int),
        decreases v@.len() - i,
    {
        let ghost prev = entries_view(r@);
        r.push(v[i].clone());
        proof {
            assert(entries_view(r@) =~= prev.push(v@[i as int]@));
            assert(prev.push(v@[i as int]@) =~= entries_view(v@).take(i as int + 1));
        }
        i += 1;
    }
    proof {
        assert(entries_view(v@).take(v@.len() as int) =~= entries_view(v@));
    }
    r
}

impl Clone for RangeItem {
    fn clone(&self) -> (r: Self)
        ensures
            r@ == self@,
    {
        RangeItem {
            range: self.range.clone(),
            values: clone_entries(&self.values),
            have_local: self.have_local,
        }
    }
}

/// One part of a message.
pub enum MessagePart {
    RangeFingerprint(RangeFingerprint),
    RangeItem(RangeItem),
}

/// The model of a message part.
pub enum MessagePartV {
    RangeFingerprint(RangeFingerprintV),
    RangeItem(RangeItemV),
}

impl MessagePartV {
    /// The fingerprint part inside, when this is one.
    pub open spec fn get_rf(self) -> RangeFingerprintV {
        match self {
            MessagePartV::RangeFingerprint(rf) => rf,
            MessagePartV::RangeItem(_) => arbitrary(),
        }
    }

    /// The item part inside, when this is one.
    pub open spec fn get_item(self) -> RangeItemV {
        match self {
            MessagePartV::RangeFingerprint(_) => arbitrary(),
            MessagePartV::RangeItem(it) => it,
        }
    }
}

impl View for MessagePart {
    type V = MessagePartV;

    open spec fn view(&self) -> MessagePartV {
        match self {
            MessagePart::RangeFingerprint(rf) => MessagePartV::RangeFingerprint(rf@),
            MessagePart::RangeItem(it) => MessagePartV::RangeItem(it@),
        }
    }
}

impl Clone for MessagePart {
    fn clone(&self) -> (r: Self)
        ensures
            r@ == self@,
    {
        match self {
            MessagePart::RangeFingerprint(rf) => MessagePart::RangeFingerprint(rf.clone()),
            MessagePart::RangeItem(it) => MessagePart::RangeItem(it.clone()),
        }
    }
}

impl MessagePart {
    pub fn is_range_fingerprint(&self) -> (r: bool)
        ensures
            r == (self@ is RangeFingerprint),
    {
        match self {
            MessagePart::RangeFingerprint(_) => true,
            MessagePart::RangeItem(_) => false,
        }
    }

    pub fn is_range_item(&self) -> (r: bool)
        ensures
            r == (self@ is RangeItem),
    {
        match self {
            MessagePart::RangeFingerprint(_) => false,
            MessagePart::RangeItem(_) => true,
        }
    }

    /// The shipped entries, when this part ships any.
    pub fn values(&self) -> (r: Option<&Vec<Entry>>)
        ensures
            match r {
                Some(v) => self@ is RangeItem && entries_view(v@) == self@.get_item().values,
                None => self@ is RangeFingerprint,
            },
    {
        match self {
            MessagePart::RangeFingerprint(_) => None,
            MessagePart::RangeItem(it) => Some(&it.values),
        }
    }
}

/// The models of a sequence of message parts.
pub open spec fn parts_view(s: Seq<MessagePart>) -> Seq<MessagePartV> {
    s.map_values(|p: MessagePart| p@)
}

/// Whether part `p` ships an entry with key `k`.
pub open spec fn part_has_key(p: MessagePartV, k: Seq<u8>) -> bool {
    p is RangeItem && exists|i: int|
        0 <= i < p.get_item().values.len() && p.get_item().values[i].key == k
}

/// Whether any part of the message ships an entry with key `k`.
pub open spec fn msg_has_key(m: Seq<MessagePartV>, k: Seq<u8>) -> bool {
    exists|i: int| 0 <= i < m.len() && part_has_key(m[i], k)
}

/// Whether part `p` ships the entry `(k, v)`.
pub open spec fn part_has_pair(p: MessagePartV, k: Seq<u8>, v: Seq<u8>) -> bool {
    p is RangeItem && exists|i: int|
        0 <= i < p.get_item().values.len() && p.get_item().values[i].key == k
            && p.get_item().values[i].value == v
}

/// Whether any part of the message ships the entry `(k, v)`.
pub open spec fn msg_has_pair(m: Seq<MessagePartV>, k: Seq<u8>, v: Seq<u8>) -> bool {
    exists|i: int| 0 <= i < m.len() && part_has_pair(m[i], k, v)
}

/// No part of the message ships the same key twice.
pub open spec fn parts_values_unique(m: Seq<MessagePartV>) -> bool {
    forall|j: int|
        0 <= j < m.len() && (#[trigger] m[j]) is RangeItem ==> unique_keys(m[j].get_item().values)
}

/// Appending a part whose shipped keys are distinct keeps every part's
/// shipped keys distinct.
pub proof fn lemma_parts_values_unique_push(m: Seq<MessagePartV>, p: MessagePartV)
    requires
        parts_values_unique(m),
        p is RangeItem ==> unique_keys(p.get_item().values),
    ensures
        parts_values_unique(m.push(p)),
{
    assert forall|j: int|
        0 <= j < m.push(p).len() && (#[trigger] m.push(p)[j]) is RangeItem implies unique_keys(
        m.push(p)[j].get_item().values,
    ) by {
        if j < m.len() {
            assert(m.push(p)[j] == m[j]);
        } else {
            assert(m.push(p)[j] == p);
        }
    }
}

/// An ordered sequence of message parts.
pub struct Message {
    parts: Vec<MessagePart>,
}

impl View for Message {
    type V = Seq<MessagePartV>;

    closed spec fn view(&self) -> Seq<MessagePartV> {
        parts_view(self.parts@)
    }
}

impl Clone for Message {
    fn clone(&self) -> (r: Self)
        ensures
            r@ == self@,
    {
        let mut parts: Vec<MessagePart> = Vec::new();
        let mut i: usize = 0;
        proof {
            assert(parts_view(parts@) =~= self@.take(0));
        }
        while i < self.parts.len()
            invariant
                i <= self.parts@.len(),
                self@.len() == self.parts@.len(),
                parts_view(parts@) == self@.take(i as int),
            decreases self.parts@.len() - i,
        {
            let ghost prev = parts_view(parts@);
            parts.push(self.parts[i].clone());
            proof {
                assert(parts_view(parts@) =~= prev.push(self.parts@[i as int]@));
                assert(prev.push(self.parts@[i as int]@) =~= self@.take(i as int + 1));
            }
            i += 1;
        }
        proof {
            assert(self@.take(self@.len() as int) =~= self@);
        }
        Message { parts }
    }
}

impl Message {
    /// Construct the initial message: one fingerprint over the whole set,
    /// anchored at the store's first key (the empty key when it is empty).
    pub(crate) fn init(store: &Store) -> (r: Message)
        ensures
            r@.len() == 1,
            r@[0] is RangeFingerprint,
            r@[0].get_rf().range.is_all(),
            r@[0].get_rf().range.x == (if store@.len() == 0 {
                Seq::<u8>::empty()
            } else {
                store@[0].key
            }),
            r@[0].get_rf().range.y == r@[0].get_rf().range.x,
            r@[0].get_rf().fingerprint == fp_of(store@),
    {
        let x = store.get_first();
        let y = crate::keys::clone_key(&x);
        let range = Range::new(x, y);
        proof {
            lemma_range_entries_all(store@, range@);
        }
        let fingerprint = store.get_fingerprint(&range);
        let part = MessagePart::RangeFingerprint(RangeFingerprint { range, fingerprint });
        let mut parts: Vec<MessagePart> = Vec::new();
        parts.push(part);
        let m = Message { parts };
        m
    }

    /// Assemble a message from parts.
    pub fn from_parts(parts: Vec<MessagePart>) -> (r: Message)
        ensures
            r@ == parts_view(parts@),
    {
        Message { parts }
    }

    pub fn parts(&self) -> (r: &Vec<MessagePart>)
        ensures
            parts_view(r@) == self@,
    {
        &self.parts
    }

    /// Give up the parts.
    pub fn into_parts(self) -> (r: Vec<MessagePart>)
        ensures
            parts_view(r@) == self@,
    {
        self.parts
    }
}

} // verus!
