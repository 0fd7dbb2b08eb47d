//! The outside collaborators: the Keccak-256 hasher, the reference-counted
//! in-memory backing store and the trie-root computation.

use vstd::prelude::*;
use hashdb::HashDB;
use hashdb::Hasher;
use keccak_hasher::KeccakHasher;
use memorydb::MemoryDB;

verus! {

/// The backing store: a reference-counted in-memory `MemoryDB` keyed by
/// Keccak-256 digests. Its contents are seen through `stored_of` and
/// `null_key_of`.
#[verifier::external_body]
pub struct MemoryStore {
    db: MemoryDB<KeccakHasher>,
}

/// The Keccak-256 digest of `data`.
pub uninterp spec fn keccak_of(data: Seq<u8>) -> Seq<u8>;

/// The raw contents of a store: for each 32-byte key, the bytes kept under it
/// and their reference count.
pub uninterp spec fn stored_of(db: MemoryStore) -> Map<Seq<u8>, (Seq<u8>, int)>;

/// The key under which a store answers with the null node.
pub uninterp spec fn null_key_of(db: MemoryStore) -> Seq<u8>;

/// The root digest of the trie that maps each key of `contents` to its value.
pub uninterp spec fn trie_root_of(contents: Map<Seq<u8>, Seq<u8>>) -> Seq<u8>;

/// The RLP encoding of the empty string, which the store treats as the null node.
pub open spec fn null_rlp() -> Seq<u8> {
    seq![0x80u8]
}

/// What a store hands back for `key`: the null node under its own key, else
/// the bytes kept under `key` while their count is positive.
pub open spec fn stored_lookup(db: MemoryStore, key: Seq<u8>) -> Option<Seq<u8>> {
    if key == null_key_of(db) {
        Some(null_rlp())
    } else if stored_of(db).contains_key(key) && stored_of(db)[key].1 > 0 {
        Some(stored_of(db)[key].0)
    } else {
        None
    }
}

/// The raw contents after `value` is placed under `key`: the null node is
/// never kept; bytes with a positive count stay as they are; the count grows
/// by one.
pub open spec fn emplaced(
    m: Map<Seq<u8>, (Seq<u8>, int)>,
    key: Seq<u8>,
    value: Seq<u8>,
) -> Map<Seq<u8>, (Seq<u8>, int)> {
    if value == null_rlp() {
        m
    } else if m.contains_key(key) {
        m.insert(key, (if m[key].1 <= 0 { value } else { m[key].0 }, m[key].1 + 1))
    } else {
        m.insert(key, (value, 1))
    }
}

/// The raw contents after one reference to `key` is dropped: nothing happens
/// under the null-node key; a kept key loses one from its count; a missing key
/// gets an empty record with count -1.
pub open spec fn unreferenced(
    m: Map<Seq<u8>, (Seq<u8>, int)>,
    null_key: Seq<u8>,
    key: Seq<u8>,
) -> Map<Seq<u8>, (Seq<u8>, int)> {
    if key == null_key {
        m
    } else if m.contains_key(key) {
        m.insert(key, (m[key].0, m[key].1 - 1))
    } else {
        m.insert(key, (Seq::empty(), -1))
    }
}

/// The map that a sequence of (key, value) pairs with distinct keys describes.
pub open spec fn pairs_map(s: Seq<([u8; 32], Vec<u8>)>) -> Map<Seq<u8>, Seq<u8>>
    decreases s.len(),
{
    if s.len() == 0 {
        Map::empty()
    } else {
        pairs_map(s.drop_last()).insert(s.last().0@, s.last().1@)
    }
}

pub open spec fn opt_bytes(o: Option<Vec<u8>>) -> Option<Seq<u8>> {
    match o {
        Some(v) => Some(v@),
        None => None,
    }
}

/// Relies on `KeccakHasher::hash` (keccak-hasher): the Keccak-256 digest of `data`.
#[verifier::external_body]
pub(crate) fn keccak(data: &[u8]) -> (r: [u8; 32])
    ensures
        r@ == keccak_of(data@),
{
    KeccakHasher::hash(data).0
}

/// Relies on `MemoryDB::new` (memorydb): an empty store whose null-node key is
/// the digest of the null RLP.
#[verifier::external_body]
pub(crate) fn new_store() -> (r: MemoryStore)
    ensures
        forall|k: Seq<u8>| !stored_of(r).contains_key(k),
        null_key_of(r) == keccak_of(null_rlp()),
{
    MemoryStore { db: MemoryDB::new() }
}

/// Relies on `HashDB::emplace` of `MemoryDB` (memorydb): `value` is kept under
/// `key` as `emplaced` describes; the count is an `i32`.
#[verifier::external_body]
pub(crate) fn store_emplace(db: &mut MemoryStore, key: [u8; 32], value: &[u8])
    requires
        stored_of(*old(db)).contains_key(key@) ==> stored_of(*old(db))[key@].1 < i32::MAX,
    ensures
        null_key_of(*final(db)) == null_key_of(*old(db)),
        stored_of(*final(db)) == emplaced(stored_of(*old(db)), key@, value@),
{
    db.db.emplace(key.into(), hashdb::DBValue::from_slice(value))
}

/// Relies on `HashDB::remove` of `MemoryDB` (memorydb): one reference to `key`
/// is dropped as `unreferenced` describes; the count is an `i32`.
#[verifier::external_body]
pub(crate) fn store_remove(db: &mut MemoryStore, key: &[u8; 32])
    requires
        stored_of(*old(db)).contains_key(key@) ==> stored_of(*old(db))[key@].1 > i32::MIN,
    ensures
        null_key_of(*final(db)) == null_key_of(*old(db)),
        stored_of(*final(db)) == unreferenced(stored_of(*old(db)), null_key_of(*old(db)), key@),
{
    db.db.remove(&(*key).into())
}

/// Relies on `HashDB::get` of `MemoryDB` (memorydb): what the store holds
/// under `key`, as `stored_lookup` describes.
#[verifier::external_body]
pub(crate) fn store_get(db: &MemoryStore, key: &[u8; 32]) -> (r: Option<Vec<u8>>)
    ensures
        opt_bytes(r) == stored_lookup(*db, key@),
{
    db.db.get(&(*key).into()).map(|v| v.to_vec())
}

/// Relies on `triehash::trie_root` with `KeccakHasher`: the root of the trie
/// that maps each key of `entries` to its value. The keys are distinct.
#[verifier::external_body]
pub(crate) fn trie_root(entries: &Vec<([u8; 32], Vec<u8>)>) -> (r: [u8; 32])
    requires
        forall|i: int, j: int|
            0 <= i < j < entries@.len() ==> #[trigger] entries@[i].0@ != #[trigger] entries@[j].0@,
    ensures
        r@ == trie_root_of(pairs_map(entries@)),
{
    triehash::trie_root::<KeccakHasher, _, _, _>(entries.iter().map(|e| (e.0, e.1.clone()))).0
}

} // verus!
