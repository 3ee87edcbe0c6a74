//! Entries: the items the two peers reconcile.
//!
//! An entry carries a key and a value, both byte strings. Its fingerprint is
//! the digest of the key's own digest followed by the value: the first
//! component has a fixed width, so distinct key/value pairs never feed the
//! same bytes to the hash, and two peers holding the same entry compute the
//! same fingerprint.

use vstd::prelude::*;

use crate::fingerprint::{blake3_of, Fingerprint};
use crate::keys::clone_key;

verus! {

/// The mathematical model of an entry.
pub struct EntryV {
    pub key: Seq<u8>,
    pub value: Seq<u8>,
}

/// The per-entry digest: the hash of the key's 32-byte digest followed by
/// the value. Hashing the key first makes the encoding unambiguous: a key
/// ending where another begins cannot produce the same input bytes.
pub open spec fn entry_fp(e: EntryV) -> Seq<u8> {
    blake3_of(blake3_of(e.key) + e.value)
}

/// A key/value pair held by a store.
pub struct Entry {
    pub key: Vec<u8>,
    pub value: Vec<u8>,
}

impl View for Entry {
    type V = EntryV;

    open spec fn view(&self) -> EntryV {
        EntryV { key: self.key@, value: self.value@ }
    }
}

impl Clone for Entry {
    fn clone(&self) -> (r: Self)
        ensures
            r@ == self@,
    {
        Entry { key: clone_key(&self.key), value: clone_key(&self.value) }
    }
}

impl Entry {
    pub fn new(key: Vec<u8>, value: Vec<u8>) -> (r: Entry)
        ensures
            r@.key == key@,
            r@.value == value@,
    {
        Entry { key, value }
    }

    /// The key of this entry, used in ranges.
    pub fn key(&self) -> (r: &Vec<u8>)
        ensures
            r@ == self@.key,
    {
        &self.key
    }

    /// The fingerprint of this entry alone.
    pub fn as_fingerprint(&self) -> (r: Fingerprint)
        ensures
            r@ == entry_fp(self@),
    {
        let kh = Fingerprint::of_bytes(&self.key);
        let mut data: Vec<u8> = Vec::new();
        let mut i: usize = 0;
        while i < 32
            invariant
                i <= 32,
                kh@ == blake3_of(self@.key),
                kh.0@.len() == 32,
                data@ == kh.0@.take(i as int),
            decreases 32 - i,
        {
            data.push(kh.0[i]);
            proof {
                assert(data@ =~= kh.0@.take(i as int + 1));
            }
            i += 1;
        }
        proof {
            assert(kh.0@.take(32) =~= kh.0@);
            assert(data@ =~= blake3_of(self@.key) + self@.value.take(0));
        }
        let mut j: usize = 0;
        while j < self.value.len()
            invariant
                j <= self@.value.len(),
                data@ == blake3_of(self@.key) + self@.value.take(j as int),
            decreases self@.value.len() - j,
        {
            data.push(self.value[j]);
            proof {
                assert(data@ =~= blake3_of(self@.key) + self@.value.take(j as int + 1));
            }
            j += 1;
        }
        proof {
            assert(blake3_of(self@.key) + self@.value.take(self@.value.len() as int) =~= blake3_of(
                self@.key,
            ) + self@.value);
        }
        Fingerprint::of_bytes(&data)
    }
}

impl Fingerprint {
    /// The fingerprint of a single entry.
    pub fn new(e: &Entry) -> (r: Fingerprint)
        ensures
            r@ == entry_fp(e@),
    {
        e.as_fingerprint()
    }
}

} // verus!
