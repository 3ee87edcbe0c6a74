use ranger::entry::Entry;
use ranger::fingerprint::Fingerprint;
use ranger::range::Range;
use ranger::store::Store;

fn e(k: &str, v: i32) -> Entry {
    Entry::new(k.as_bytes().to_vec(), v.to_le_bytes().to_vec())
}

fn range(x: &str, y: &str) -> Range {
    Range::new(x.as_bytes().to_vec(), y.as_bytes().to_vec())
}

fn keys(entries: &[Entry]) -> Vec<Vec<u8>> {
    entries.iter().map(|en| en.key.clone()).collect()
}

fn key_list(ks: &[&str]) -> Vec<Vec<u8>> {
    ks.iter().map(|k| k.as_bytes().to_vec()).collect()
}

fn store_with(set: &[(&str, i32)]) -> Store {
    let mut store = Store::new();
    for (k, v) in set {
        store.put(e(k, *v));
    }
    store
}

#[test]
fn store_get_range() {
    let set = [
        ("bee", 1),
        ("cat", 1),
        ("doe", 1),
        ("eel", 1),
        ("fox", 1),
        ("hog", 1),
    ];
    let store = store_with(&set);

    let all = store.get_range(&range("", ""));
    assert_eq!(keys(&all), key_list(&["bee", "cat", "doe", "eel", "fox", "hog"]));

    let regular = store.get_range(&range("bee", "eel"));
    assert_eq!(keys(&regular), key_list(&["bee", "cat", "doe"]));

    // empty start
    let regular = store.get_range(&range("", "eel"));
    assert_eq!(keys(&regular), key_list(&["bee", "cat", "doe"]));

    let regular = store.get_range(&range("cat", "hog"));
    assert_eq!(keys(&regular), key_list(&["cat", "doe", "eel", "fox"]));

    let excluded = store.get_range(&range("fox", "bee"));
    assert_eq!(excluded[0].key, b"fox".to_vec());
    assert_eq!(excluded[1].key, b"hog".to_vec());
    assert_eq!(excluded.len(), 2);

    let excluded = store.get_range(&range("fox", "doe"));
    assert_eq!(excluded.len(), 4);
    assert_eq!(excluded[0].key, b"bee".to_vec());
    assert_eq!(excluded[1].key, b"cat".to_vec());
    assert_eq!(excluded[2].key, b"fox".to_vec());
    assert_eq!(excluded[3].key, b"hog".to_vec());
}

// Containment, one case per range form: the whole set, a normal half-open
// interval, and a wrap-around range.
#[test]
fn range_contains_cases() {
    let all = range("cat", "cat");
    assert!(all.is_all());
    assert!(all.contains(&b"ape".to_vec()));
    assert!(all.contains(&b"cat".to_vec()));
    assert!(all.contains(&b"zzz".to_vec()));

    let normal = range("bee", "fox");
    assert!(!normal.is_all());
    assert!(normal.contains(&b"bee".to_vec())); // inclusive start
    assert!(normal.contains(&b"doe".to_vec()));
    assert!(!normal.contains(&b"fox".to_vec())); // exclusive end
    assert!(!normal.contains(&b"ape".to_vec()));
    assert!(!normal.contains(&b"hog".to_vec()));

    let wrap = range("fox", "bee");
    let (x, y) = range("fox", "bee").into_endpoints();
    assert_eq!(x, b"fox".to_vec());
    assert_eq!(y, b"bee".to_vec());
    assert!(!wrap.is_all());
    assert!(wrap.contains(&b"fox".to_vec())); // inclusive start
    assert!(wrap.contains(&b"hog".to_vec()));
    assert!(wrap.contains(&b"ape".to_vec())); // below the end
    assert!(!wrap.contains(&b"bee".to_vec())); // exclusive end
    assert!(!wrap.contains(&b"doe".to_vec()));
}

#[test]
fn store_put_get_remove() {
    let mut store = Store::new();
    assert!(store.is_empty());
    assert_eq!(store.get_first(), Vec::<u8>::new());

    store.put(e("cat", 1));
    store.put(e("ape", 2));
    store.put(e("eel", 3));
    assert_eq!(store.len(), 3);
    assert_eq!(store.get_first(), b"ape".to_vec());

    // overwrite keeps the key count and replaces the value
    store.put(e("cat", 9));
    assert_eq!(store.len(), 3);
    let got = store.get(&b"cat".to_vec()).expect("cat is present");
    assert_eq!(got.value, 9i32.to_le_bytes().to_vec());

    let gone = store.remove(&b"cat".to_vec()).expect("cat was present");
    assert_eq!(gone.key, b"cat".to_vec());
    assert_eq!(store.len(), 2);
    assert!(store.get(&b"cat".to_vec()).is_none());
    assert!(store.remove(&b"cat".to_vec()).is_none());
}

// The fingerprint of a range actually depends on the entries: it changes
// when an entry is added, differs between entries, and differs from the
// empty-set constant.
#[test]
fn fingerprint_depends_on_content() {
    let all = range("", "");
    let mut store = Store::new();
    let fp_empty = store.get_fingerprint(&all);
    assert!(fp_empty.equals(&Fingerprint::empty()));

    store.put(e("ape", 1));
    let fp_one = store.get_fingerprint(&all);
    assert!(!fp_one.equals(&Fingerprint::empty()));

    let fp_ape = e("ape", 1).as_fingerprint();
    let fp_bee = e("bee", 1).as_fingerprint();
    assert!(!fp_ape.equals(&fp_bee));
    assert!(fp_ape.equals(&Fingerprint::new(&e("ape", 1))));
}

// Round-trip fingerprint: XORing the fingerprints of a partition of the
// whole key space into three disjoint sub-ranges gives back the whole-range
// fingerprint.
#[test]
fn round_trip_fingerprint() {
    let set = [
        ("ape", 1),
        ("bee", 2),
        ("eel", 3),
        ("gnu", 4),
        ("pig", 5),
        ("yak", 6),
    ];
    let store = store_with(&set);
    let whole = store.get_fingerprint(&range("", ""));

    // three disjoint sub-ranges covering every key
    let mut combined = store.get_fingerprint(&range("", "g"));
    combined.xor_assign(&store.get_fingerprint(&range("g", "p")));
    combined.xor_assign(&store.get_fingerprint(&range("p", "")));
    assert!(combined.equals(&whole));
}

// With a two-piece partition the empty-set constants cancel out of the XOR,
// so the whole-range fingerprint is recovered only after XORing the
// constant back in.
#[test]
fn fingerprint_split_two_ways() {
    let set = [("ape", 1), ("bee", 2), ("eel", 3), ("gnu", 4)];
    let store = store_with(&set);
    let whole = store.get_fingerprint(&range("", ""));

    let mut combined = store.get_fingerprint(&range("", "d"));
    combined.xor_assign(&store.get_fingerprint(&range("d", "")));
    assert!(!combined.equals(&whole));
    combined.xor_assign(&Fingerprint::empty());
    assert!(combined.equals(&whole));
}
