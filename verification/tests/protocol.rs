use std::cell::RefCell;
use std::collections::BTreeMap;
use std::rc::Rc;

use ranger::entry::Entry;
use ranger::messages::Message;
use ranger::peer::Peer;
use ranger::store::Store;

fn e(k: &str, v: i32) -> Entry {
    Entry::new(k.as_bytes().to_vec(), v.to_le_bytes().to_vec())
}

fn pairs_of(set: &[(&str, i32)]) -> Vec<(Vec<u8>, Vec<u8>)> {
    set.iter()
        .map(|(k, v)| (k.as_bytes().to_vec(), v.to_le_bytes().to_vec()))
        .collect()
}

fn peer_with(set: &[(&str, i32)]) -> Peer {
    let mut p = Peer::default();
    for (k, v) in set {
        p.put(e(k, *v));
    }
    p
}

fn pairs(entries: Vec<Entry>) -> Vec<(Vec<u8>, Vec<u8>)> {
    entries.into_iter().map(|en| (en.key, en.value)).collect()
}

fn sorted_union(sets: &[&[(&str, i32)]]) -> Vec<(Vec<u8>, Vec<u8>)> {
    let mut m = BTreeMap::new();
    for set in sets {
        for (k, v) in set.iter() {
            m.insert(k.as_bytes().to_vec(), v.to_le_bytes().to_vec());
        }
    }
    m.into_iter().collect()
}

struct SyncResult {
    alice: Peer,
    bob: Peer,
    alice_to_bob: Vec<Message>,
    bob_to_alice: Vec<Message>,
}

impl SyncResult {
    fn assert_alice_set(&self, ctx: &str, expected: &[(&str, i32)]) {
        assert_eq!(
            pairs(self.alice.all()),
            sorted_union(&[expected]),
            "{}: (alice)",
            ctx
        );
    }

    fn assert_bob_set(&self, ctx: &str, expected: &[(&str, i32)]) {
        assert_eq!(
            pairs(self.bob.all()),
            sorted_union(&[expected]),
            "{}: (bob)",
            ctx
        );
    }
}

fn assert_no_duplicate_sends(msgs: &[Message], who: &str) {
    let mut seen: BTreeMap<Vec<u8>, ()> = BTreeMap::new();
    for m in msgs {
        for part in m.parts() {
            if let Some(values) = part.values() {
                for en in values {
                    assert!(
                        seen.insert(en.key.clone(), ()).is_none(),
                        "{}: duplicate key sent",
                        who
                    );
                }
            }
        }
    }
}

fn sync_exchange_messages<FA, FB>(
    mut alice: Peer,
    mut bob: Peer,
    validate_alice: FA,
    validate_bob: FB,
    max_rounds: usize,
) -> SyncResult
where
    FA: Fn(&Store, &Entry) -> bool,
    FB: Fn(&Store, &Entry) -> bool,
{
    let mut alice_to_bob = Vec::new();
    let mut bob_to_alice = Vec::new();
    let initial_message = alice.initial_message();

    let mut next_to_bob = Some(initial_message);
    let mut rounds = 0;
    while let Some(msg) = next_to_bob.take() {
        assert!(rounds < max_rounds, "too many rounds");
        rounds += 1;
        alice_to_bob.push(msg.clone());

        if let Some(msg) = bob.process_message(msg, &validate_bob) {
            bob_to_alice.push(msg.clone());
            next_to_bob = alice.process_message(msg, &validate_alice);
        }
    }
    SyncResult {
        alice,
        bob,
        alice_to_bob,
        bob_to_alice,
    }
}

fn sync(alice_set: &[(&str, i32)], bob_set: &[(&str, i32)]) -> SyncResult {
    let alice = peer_with(alice_set);
    let bob = peer_with(bob_set);
    let res = sync_exchange_messages(
        alice,
        bob,
        |_: &Store, _: &Entry| true,
        |_: &Store, _: &Entry| true,
        100,
    );
    let want = sorted_union(&[alice_set, bob_set]);
    assert_eq!(pairs(res.alice.all()), want, "alice");
    assert_eq!(pairs(res.bob.all()), want, "bob");
    assert_no_duplicate_sends(&res.alice_to_bob, "alice");
    assert_no_duplicate_sends(&res.bob_to_alice, "bob");
    res
}

#[test]
fn test_paper_1() {
    let alice_set = [("ape", 1), ("eel", 1), ("fox", 1), ("gnu", 1)];
    let bob_set = [
        ("bee", 1),
        ("cat", 1),
        ("doe", 1),
        ("eel", 1),
        ("fox", 1),
        ("hog", 1),
    ];

    let res = sync(&alice_set, &bob_set);
    assert_eq!(res.alice_to_bob.len(), 3, "A -> B message count");
    assert_eq!(res.bob_to_alice.len(), 2, "B -> A message count");

    // Initial message
    assert_eq!(res.alice_to_bob[0].parts().len(), 1);
    assert!(res.alice_to_bob[0].parts()[0].is_range_fingerprint());

    // Response from Bob - recurse once
    assert_eq!(res.bob_to_alice[0].parts().len(), 2);
    assert!(res.bob_to_alice[0].parts()[0].is_range_fingerprint());
    assert!(res.bob_to_alice[0].parts()[1].is_range_fingerprint());

    // Last response from Alice
    assert_eq!(res.alice_to_bob[1].parts().len(), 3);
    assert!(res.alice_to_bob[1].parts()[0].is_range_fingerprint());
    assert!(res.alice_to_bob[1].parts()[1].is_range_fingerprint());
    assert!(res.alice_to_bob[1].parts()[2].is_range_item());

    // Last response from Bob
    assert_eq!(res.bob_to_alice[1].parts().len(), 2);
    assert!(res.bob_to_alice[1].parts()[0].is_range_item());
    assert!(res.bob_to_alice[1].parts()[1].is_range_item());
}

#[test]
fn test_paper_2() {
    let alice_set = [
        ("ape", 1),
        ("bee", 1),
        ("cat", 1),
        ("doe", 1),
        ("eel", 1),
        ("fox", 1), // the only value being sent
        ("gnu", 1),
        ("hog", 1),
    ];
    let bob_set = [
        ("ape", 1),
        ("bee", 1),
        ("cat", 1),
        ("doe", 1),
        ("eel", 1),
        ("gnu", 1),
        ("hog", 1),
    ];

    let res = sync(&alice_set, &bob_set);
    assert_eq!(res.alice_to_bob.len(), 3, "A -> B message count");
    assert_eq!(res.bob_to_alice.len(), 2, "B -> A message count");
}

#[test]
fn test_paper_3() {
    let alice_set = [
        ("ape", 1),
        ("bee", 1),
        ("cat", 1),
        ("doe", 1),
        ("eel", 1),
        ("fox", 1),
        ("gnu", 1),
        ("hog", 1),
    ];
    let bob_set = [("ape", 1), ("cat", 1), ("eel", 1), ("gnu", 1)];

    let res = sync(&alice_set, &bob_set);
    assert_eq!(res.alice_to_bob.len(), 3, "A -> B message count");
    assert_eq!(res.bob_to_alice.len(), 2, "B -> A message count");
}

#[test]
fn test_limits() {
    let alice_set = [("ape", 1), ("bee", 1), ("cat", 1)];
    let bob_set = [("ape", 1), ("cat", 1), ("doe", 1)];

    let res = sync(&alice_set, &bob_set);
    assert_eq!(res.alice_to_bob.len(), 2, "A -> B message count");
    assert_eq!(res.bob_to_alice.len(), 2, "B -> A message count");
}

#[test]
fn test_prefixes_simple() {
    let alice_set = [("/foo/bar", 1), ("/foo/baz", 1), ("/foo/cat", 1)];
    let bob_set = [("/foo/bar", 1), ("/alice/bar", 1), ("/alice/baz", 1)];

    let res = sync(&alice_set, &bob_set);
    assert_eq!(res.alice_to_bob.len(), 2, "A -> B message count");
    assert_eq!(res.bob_to_alice.len(), 2, "B -> A message count");
}

#[test]
fn test_prefixes_empty_alice() {
    let alice_set = [];
    let bob_set = [("/foo/bar", 1), ("/alice/bar", 1), ("/alice/baz", 1)];

    let res = sync(&alice_set, &bob_set);
    assert_eq!(res.alice_to_bob.len(), 1, "A -> B message count");
    assert_eq!(res.bob_to_alice.len(), 1, "B -> A message count");
}

#[test]
fn test_prefixes_empty_bob() {
    let alice_set = [("/foo/bar", 1), ("/foo/baz", 1), ("/foo/cat", 1)];
    let bob_set = [];

    let res = sync(&alice_set, &bob_set);
    assert_eq!(res.alice_to_bob.len(), 2, "A -> B message count");
    assert_eq!(res.bob_to_alice.len(), 1, "B -> A message count");
}

fn multikey(author: [u8; 4], key: &str) -> Vec<u8> {
    let mut k = author.to_vec();
    k.extend_from_slice(key.as_bytes());
    k
}

#[test]
fn test_multikey() {
    let author_a = [1u8; 4];
    let author_b = [2u8; 4];
    let mk = |author: [u8; 4], key: &str, v: i32| {
        Entry::new(multikey(author, key), v.to_le_bytes().to_vec())
    };
    let alice_set = [
        mk(author_a, "ape", 1),
        mk(author_a, "bee", 1),
        mk(author_b, "bee", 1),
        mk(author_a, "doe", 1),
    ];
    let bob_set = [
        mk(author_a, "ape", 1),
        mk(author_a, "bee", 1),
        mk(author_a, "cat", 1),
        mk(author_b, "cat", 1),
    ];

    let mut alice = Peer::default();
    for en in alice_set.iter() {
        alice.put(Entry::new(en.key.clone(), en.value.clone()));
    }
    let mut bob = Peer::default();
    for en in bob_set.iter() {
        bob.put(Entry::new(en.key.clone(), en.value.clone()));
    }

    // No limit
    let res = sync_exchange_messages(
        alice,
        bob,
        |_: &Store, _: &Entry| true,
        |_: &Store, _: &Entry| true,
        100,
    );
    assert_eq!(res.alice_to_bob.len(), 2, "A -> B message count");
    assert_eq!(res.bob_to_alice.len(), 2, "B -> A message count");

    let mut want: BTreeMap<Vec<u8>, Vec<u8>> = BTreeMap::new();
    for en in alice_set.iter().chain(bob_set.iter()) {
        want.insert(en.key.clone(), en.value.clone());
    }
    let want: Vec<(Vec<u8>, Vec<u8>)> = want.into_iter().collect();
    assert_eq!(pairs(res.alice.all()), want, "no limit: (alice)");
    assert_eq!(pairs(res.bob.all()), want, "no limit: (bob)");
}

// This tests two things:
// 1) validate cb returning false leads to no changes on both sides after sync
// 2) validate cb receives expected entries
#[test]
fn test_validate_cb() {
    let alice_set = [("alice1", 1), ("alice2", 2)];
    let bob_set = [("bob1", 3), ("bob2", 4), ("bob3", 5)];
    let alice_validate_set: Rc<RefCell<Vec<(Vec<u8>, Vec<u8>)>>> = Rc::new(RefCell::new(vec![]));
    let bob_validate_set: Rc<RefCell<Vec<(Vec<u8>, Vec<u8>)>>> = Rc::new(RefCell::new(vec![]));

    let validate_alice = {
        let alice_validate_set = alice_validate_set.clone();
        move |_: &Store, en: &Entry| {
            alice_validate_set
                .borrow_mut()
                .push((en.key.clone(), en.value.clone()));
            false
        }
    };
    let validate_bob = {
        let bob_validate_set = bob_validate_set.clone();
        move |_: &Store, en: &Entry| {
            bob_validate_set
                .borrow_mut()
                .push((en.key.clone(), en.value.clone()));
            false
        }
    };

    let alice = peer_with(&alice_set);
    let bob = peer_with(&bob_set);

    // run sync with a validate callback returning false, so no new entries
    // are stored on either side
    let res = sync_exchange_messages(alice, bob, validate_alice, validate_bob, 100);
    res.assert_alice_set("unchanged", &alice_set);
    res.assert_bob_set("unchanged", &bob_set);

    // assert that the validate callbacks received all expected entries
    assert_eq!(alice_validate_set.take(), pairs_of(&bob_set));
    assert_eq!(bob_validate_set.take(), pairs_of(&alice_set));
}

#[test]
fn simple_store_sync_1() {
    let alice = [("3", 0)];
    let bob = [
        ("2", 0),
        ("3", 0),
        ("4", 0),
        ("5", 0),
        ("6", 0),
        ("7", 0),
        ("8", 0),
    ];
    let _res = sync(&alice, &bob);
}

#[test]
fn simple_store_sync_2() {
    let alice = [("1", 0), ("3", 0)];
    let bob = [("0", 0), ("2", 0), ("3", 0)];
    let _res = sync(&alice, &bob);
}

#[test]
fn simple_store_sync_3() {
    let alice = [("8", 0), ("9", 0)];
    let bob = [("1", 0), ("2", 0), ("3", 0)];
    let _res = sync(&alice, &bob);
}

// Entries whose key/value concatenations coincide are still distinct
// entries: the per-entry digest separates the key from the value, so two
// peers holding ("a","bc") and ("ab","c") must notice the difference and
// converge on both entries.
#[test]
fn distinct_splits_are_distinct_entries() {
    let mut alice = Peer::default();
    alice.put(Entry::new(b"a".to_vec(), b"bc".to_vec()));
    let mut bob = Peer::default();
    bob.put(Entry::new(b"ab".to_vec(), b"c".to_vec()));

    let res = sync_exchange_messages(
        alice,
        bob,
        |_: &Store, _: &Entry| true,
        |_: &Store, _: &Entry| true,
        100,
    );
    let want = vec![
        (b"a".to_vec(), b"bc".to_vec()),
        (b"ab".to_vec(), b"c".to_vec()),
    ];
    assert_eq!(pairs(res.alice.all()), want);
    assert_eq!(pairs(res.bob.all()), want);
}

// Running a session to completion and then opening a second session ends it
// after the initial fingerprint exchange: one message, no reply.
#[test]
fn second_session_is_one_round_trip() {
    let alice_set = [("ape", 1), ("eel", 1), ("fox", 1), ("gnu", 1)];
    let bob_set = [("bee", 1), ("cat", 1), ("doe", 1), ("eel", 1)];
    let res = sync(&alice_set, &bob_set);
    let mut alice = res.alice;
    let mut bob = res.bob;

    let reopened = alice.initial_message();
    let reply = bob.process_message(reopened, |_: &Store, _: &Entry| true);
    assert!(reply.is_none(), "second session should end immediately");

    // and in the other direction
    let reopened = bob.initial_message();
    let reply = alice.process_message(reopened, |_: &Store, _: &Entry| true);
    assert!(reply.is_none());
}
