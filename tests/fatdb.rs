use fatdb::{FatDB, FatDBIterator, TrieDB, TrieError};
use sha3::{Digest, Keccak256};

fn keccak256(data: &[u8]) -> [u8; 32] {
    let h = Keccak256::digest(data);
    let mut out = [0u8; 32];
    out.copy_from_slice(&h[..]);
    out
}

fn walk(t: &TrieDB) -> Vec<(Vec<u8>, Vec<u8>)> {
    let mut it = FatDBIterator::new(t);
    let mut out = Vec::new();
    while let Some((k, v)) = it.next() {
        out.push((k, v.to_vec()));
    }
    out
}

const EMPTY_ROOT: [u8; 32] = [
    0x56, 0xe8, 0x1f, 0x17, 0x1b, 0xcc, 0x55, 0xa6, 0xff, 0x83, 0x45, 0xe6, 0x92, 0xc0, 0xf8, 0x6e,
    0x5b, 0x48, 0xe0, 0x1b, 0x99, 0x6c, 0xad, 0xc0, 0x01, 0x62, 0x2f, 0xb5, 0xe3, 0x63, 0xb4, 0x21,
];

#[test]
fn fatdb_to_trie() {
    let mut f = FatDB::new();
    f.insert(&[0x01u8, 0x23], &[0x01u8, 0x23]);
    let t = f.into_trie_db();
    assert_eq!(t.get(&keccak256(&[0x01u8, 0x23])).unwrap(), &[0x01u8, 0x23]);
    let mut it = FatDBIterator::new(&t);
    let mut pairs: Vec<(Vec<u8>, &[u8])> = Vec::new();
    while let Some(p) = it.next() {
        pairs.push(p);
    }
    assert_eq!(pairs, vec![(vec![0x01u8, 0x23], &[0x01u8, 0x23] as &[u8])]);
}

#[test]
fn get_after_insert() {
    let mut f = FatDB::new();
    f.insert(b"dog", b"puppy");
    assert_eq!(f.get(b"dog"), Some(&b"puppy"[..]));
    assert!(f.contains(b"dog"));
    assert_eq!(f.get(b"cat"), None);
    assert!(!f.contains(b"cat"));
}

#[test]
fn insert_overwrites_value() {
    let mut f = FatDB::new();
    f.insert(b"dog", b"puppy");
    f.insert(b"dog", b"hound");
    assert_eq!(f.get(b"dog"), Some(&b"hound"[..]));
}

#[test]
fn empty_key_and_value() {
    let mut f = FatDB::new();
    f.insert(b"", b"");
    assert_eq!(f.get(b""), Some(&b""[..]));
    assert!(f.contains(b""));
}

#[test]
fn get_after_insert_and_remove() {
    let mut f = FatDB::new();
    f.insert(b"dog", b"puppy");
    f.remove(b"dog");
    assert_eq!(f.get(b"dog"), None);
    assert!(!f.contains(b"dog"));
    assert_eq!(f.root(), EMPTY_ROOT);
}

#[test]
fn remove_absent_key_changes_nothing() {
    let mut f = FatDB::new();
    f.insert(b"dog", b"puppy");
    let before = f.root();
    f.remove(b"cat");
    assert_eq!(f.root(), before);
    assert_eq!(f.get(b"dog"), Some(&b"puppy"[..]));
}

#[test]
fn empty_trie_has_canonical_root() {
    let f = FatDB::new();
    assert_eq!(f.root(), EMPTY_ROOT);
    let t = f.into_trie_db();
    assert_eq!(t.root(), EMPTY_ROOT);
    assert_eq!(t.len(), 0);
    assert!(walk(&t).is_empty());
}

#[test]
fn root_changes_with_contents() {
    let mut f = FatDB::new();
    f.insert(b"dog", b"puppy");
    assert_ne!(f.root(), EMPTY_ROOT);
}

#[test]
fn insert_twice_is_idempotent() {
    let mut f = FatDB::new();
    f.insert(b"dog", b"puppy");
    let once = f.root();
    f.insert(b"dog", b"puppy");
    assert_eq!(f.root(), once);
    assert_eq!(f.get(b"dog"), Some(&b"puppy"[..]));
}

#[test]
fn same_inserts_give_same_root() {
    let ops: [(&[u8], &[u8]); 3] = [(b"a", b"1"), (b"bb", b"22"), (b"ccc", b"333")];
    let mut a = FatDB::new();
    let mut b = FatDB::new();
    for (k, v) in ops.iter() {
        a.insert(k, v);
        b.insert(k, v);
    }
    assert_eq!(a.root(), b.root());
    let mut c = FatDB::new();
    for (k, v) in ops.iter().rev() {
        c.insert(k, v);
    }
    assert_eq!(a.root(), c.root());
}

#[test]
fn walk_gives_back_inserted_pairs() {
    let ops: Vec<(Vec<u8>, Vec<u8>)> = vec![
        (b"alpha".to_vec(), b"one".to_vec()),
        (b"beta".to_vec(), b"two".to_vec()),
        (b"gamma".to_vec(), b"three".to_vec()),
        (vec![0x80], b"null".to_vec()),
    ];
    let mut f = FatDB::new();
    for (k, v) in ops.iter() {
        f.insert(k, v);
    }
    let t = f.into_trie_db();
    assert_eq!(t.len(), 4);
    let mut got = walk(&t);
    got.sort();
    let mut want = ops.clone();
    want.sort();
    assert_eq!(got, want);
}

#[test]
fn walk_follows_digest_order() {
    let mut f = FatDB::new();
    for k in [b"a", b"b", b"c", b"d", b"e", b"f"].iter() {
        f.insert(&k[..], b"v");
    }
    let t = f.into_trie_db();
    let digests: Vec<[u8; 32]> = walk(&t).iter().map(|(k, _)| keccak256(k)).collect();
    assert_eq!(digests.len(), 6);
    for w in digests.windows(2) {
        assert!(w[0] < w[1]);
    }
}

#[test]
fn removed_key_stays_recorded_but_is_not_walked() {
    let mut f = FatDB::new();
    f.insert(b"dog", b"puppy");
    f.insert(b"cat", b"kitten");
    f.remove(b"dog");
    let digest = keccak256(b"dog");
    assert_eq!(f.recorded_key(&digest), Some(b"dog".to_vec()));
    let t = f.into_trie_db();
    assert_eq!(t.recorded_key(&digest), Some(b"dog".to_vec()));
    assert!(!t.contains(&digest));
    assert_eq!(walk(&t), vec![(b"cat".to_vec(), b"kitten".to_vec())]);
}

#[test]
fn side_index_records_each_key() {
    let mut f = FatDB::new();
    f.insert(b"horse", b"stallion");
    assert_eq!(f.recorded_key(&keccak256(b"horse")), Some(b"horse".to_vec()));
    assert_eq!(f.recorded_key(&keccak256(b"zebra")), None);
}

#[test]
fn trie_view_is_keyed_by_digest() {
    let mut f = FatDB::new();
    f.insert(b"key", b"value");
    let root = f.root();
    let t = f.into_trie_db();
    assert_eq!(t.root(), root);
    assert!(t.contains(&keccak256(b"key")));
    assert_eq!(t.get(&keccak256(b"key")), Some(&b"value"[..]));
    assert_eq!(t.get(&keccak256(b"other")), None);
}

#[test]
fn iterator_stays_exhausted() {
    let mut f = FatDB::new();
    f.insert(b"only", b"one");
    let t = f.into_trie_db();
    let mut it = FatDBIterator::new(&t);
    assert!(it.next().is_some());
    assert!(it.next().is_none());
    assert!(it.next().is_none());
}

#[test]
fn reopen_at_current_root() {
    let mut f = FatDB::new();
    f.insert(b"dog", b"puppy");
    let root = f.root();
    let t = f.into_trie_db();
    let mut g = FatDB::from_existing(t, &root).unwrap();
    assert_eq!(g.get(b"dog"), Some(&b"puppy"[..]));
    g.insert(b"cat", b"kitten");
    assert_eq!(g.get(b"cat"), Some(&b"kitten"[..]));
    assert_ne!(g.root(), root);
}

#[test]
fn reopen_at_unknown_root_fails() {
    let mut f = FatDB::new();
    f.insert(b"dog", b"puppy");
    let t = f.into_trie_db();
    let wrong = [7u8; 32];
    match FatDB::from_existing(t, &wrong) {
        Err(e) => assert_eq!(e, TrieError::InvalidStateRoot(wrong)),
        Ok(_) => panic!("a root that the store does not hold was accepted"),
    }
}

#[test]
fn record_stays_the_key_after_repeated_insert() {
    let mut f = FatDB::new();
    f.insert(b"dog", b"puppy");
    f.insert(b"dog", b"puppy");
    f.insert(b"dog", b"hound");
    assert_eq!(f.recorded_key(&keccak256(b"dog")), Some(b"dog".to_vec()));
    f.remove(b"dog");
    assert_eq!(f.recorded_key(&keccak256(b"dog")), Some(b"dog".to_vec()));
}

#[test]
fn null_node_key_round_trips() {
    let mut f = FatDB::new();
    f.insert(&[0x80u8], b"v");
    assert_eq!(f.get(&[0x80u8]), Some(&b"v"[..]));
    assert_eq!(f.recorded_key(&keccak256(&[0x80u8])), Some(vec![0x80u8]));
    let t = f.into_trie_db();
    assert_eq!(walk(&t), vec![(vec![0x80u8], b"v".to_vec())]);
}
