use trie_hard::TrieHard;

fn build(keys: &[&[u8]]) -> TrieHard {
    TrieHard::new(keys.iter().map(|k| k.to_vec()).collect())
}

#[test]
fn get_after_insert_persists() {
    let mut t = TrieHard::new(vec![]);
    t.insert(b"key", b"value".to_vec());
    assert_eq!(t.get(b"key"), Some(&b"value".to_vec()));
    t.insert(b"other", b"x".to_vec());
    assert_eq!(t.get(b"key"), Some(&b"value".to_vec()));
    t.insert(b"key", b"second".to_vec());
    assert_eq!(t.get(b"key"), Some(&b"second".to_vec()));
}

#[test]
fn collect_items_ordered_self_keyed() {
    let t = build(&[b"a", b"ab", b"b"]);
    let expected: Vec<(Vec<u8>, Vec<u8>)> = vec![
        (b"a".to_vec(), b"a".to_vec()),
        (b"ab".to_vec(), b"ab".to_vec()),
        (b"b".to_vec(), b"b".to_vec()),
    ];
    assert_eq!(t.collect_items(), expected);
}

#[test]
fn prefix_items() {
    let t = build(&[b"a", b"ab", b"b"]);
    let hits = t.collect_prefix_items(b"a");
    assert_eq!(
        hits,
        vec![(b"a".to_vec(), b"a".to_vec()), (b"ab".to_vec(), b"ab".to_vec())]
    );
    assert!(t.collect_prefix_items(b"c").is_empty());
}

#[test]
fn insert_idempotent() {
    let mut t = TrieHard::new(vec![]);
    t.insert(b"k", b"v".to_vec());
    let len1 = t.len();
    let got1 = t.get(b"k").cloned();
    t.insert(b"k", b"v".to_vec());
    assert_eq!(t.len(), len1);
    assert_eq!(t.get(b"k").cloned(), got1);
}

#[test]
fn remove_leaves_tombstone() {
    let mut t = TrieHard::new(vec![]);
    t.insert(b"k", b"v".to_vec());
    t.remove(b"k");
    assert_eq!(t.get(b"k"), Some(&Vec::new()));
    assert!(t.contains(b"k"));
}

#[test]
fn clear_empties() {
    let mut t = build(&[b"a", b"b"]);
    t.clear();
    assert_eq!(t.get(b"a"), None);
    assert_eq!(t.get(b"b"), None);
    assert!(t.collect_items().is_empty());
    assert!(t.is_empty());
    assert_eq!(t.len(), 0);
}

#[test]
fn len_counts_distinct_keys() {
    let t = build(&[b"x", b"y", b"z", b"y"]);
    assert_eq!(t.len(), 3);
    let t2 = build(&[b"alpha", b"beta", b"gamma"]);
    assert_eq!(t2.len(), 3);
    assert!(!t2.is_empty());
}

#[test]
fn items_strictly_increasing() {
    let t = build(&[b"banana", b"b", b"apple", b"app", b"ba", b"apricot"]);
    let items = t.collect_items();
    assert_eq!(items.len(), 6);
    for w in items.windows(2) {
        assert!(w[0].0 < w[1].0);
    }
}

#[test]
fn empty_key_at_root() {
    let mut t = TrieHard::new(vec![]);
    t.insert(b"", b"rootval".to_vec());
    assert_eq!(t.get(b""), Some(&b"rootval".to_vec()));
    assert_eq!(t.collect_items(), vec![(Vec::new(), b"rootval".to_vec())]);
}

#[test]
fn empty_prefix_collects_everything() {
    let t = build(&[b"a", b"b"]);
    assert_eq!(t.collect_prefix_items(b""), t.collect_items());
}

#[test]
fn absent_keys_report_absence() {
    let t = build(&[b"abc"]);
    assert_eq!(t.get(b"ab"), None);
    assert_eq!(t.get(b"abcd"), None);
    assert_eq!(t.get(b"zzz"), None);
    assert!(!t.contains(b"ab"));
    assert!(t.contains(b"abc"));
}

#[test]
fn keys_and_values_in_order() {
    let t = build(&[b"b", b"a"]);
    assert_eq!(t.keys(), vec![b"a".to_vec(), b"b".to_vec()]);
    assert_eq!(t.values(), vec![b"a".to_vec(), b"b".to_vec()]);
}

#[test]
fn starts_with_and_prefix_contains() {
    let mut t = build(&[b"ab"]);
    assert!(t.starts_with(b"a"));
    assert!(t.starts_with(b"ab"));
    assert!(!t.starts_with(b"b"));
    assert!(t.prefix_contains(b"a"));
    t.remove(b"ab");
    assert!(t.starts_with(b"a"));
    assert!(!t.prefix_contains(b"a"));
}

#[test]
fn new_is_insertion_order_independent() {
    let t1 = build(&[b"a", b"ab", b"b"]);
    let t2 = build(&[b"b", b"ab", b"a"]);
    assert_eq!(t1.collect_items(), t2.collect_items());
}

#[test]
fn non_utf8_bytes_are_ordinary_keys() {
    let mut t = TrieHard::new(vec![]);
    t.insert(&[0xff, 0x00], b"hi".to_vec());
    assert_eq!(t.get(&[0xff, 0x00]), Some(&b"hi".to_vec()));
    assert_eq!(t.get(&[0xff]), None);
}

#[test]
fn tombstone_visible_in_items() {
    let mut t = build(&[b"a", b"ab"]);
    t.remove(b"a");
    assert_eq!(
        t.collect_items(),
        vec![(b"a".to_vec(), Vec::new()), (b"ab".to_vec(), b"ab".to_vec())]
    );
    assert_eq!(t.len(), 2);
}

#[test]
fn tombstone_then_reinsert() {
    let mut t = build(&[b"k"]);
    t.remove(b"k");
    t.insert(b"k", b"back".to_vec());
    assert_eq!(t.get(b"k"), Some(&b"back".to_vec()));
    assert_eq!(t.len(), 1);
}

#[test]
fn prefix_longer_than_any_key() {
    let t = build(&[b"a"]);
    assert!(t.collect_prefix_items(b"aa").is_empty());
    assert!(!t.starts_with(b"aa"));
}
