//! The key-hashing adapter, its read-only view and the iterator that gives
//! back original keys.

use vstd::prelude::*;
use crate::backing::{
    keccak, keccak_of, new_store, null_key_of, null_rlp, opt_bytes, store_emplace, store_get,
    store_remove, stored_lookup, stored_of, trie_root_of, MemoryStore,
};
use crate::order::compare_digests;
use crate::trie::DigestTrie;

verus! {

/// Every key that the store hands back for a digest hashes to that digest,
/// and no reference count is negative.
pub open spec fn side_index_sound(db: MemoryStore) -> bool {
    &&& null_key_of(db) == keccak_of(null_rlp())
    &&& forall|d: Seq<u8>| #[trigger] stored_of(db).contains_key(d) ==> {
        &&& stored_of(db)[d].1 >= 0
        &&& stored_of(db)[d].1 > 0 ==> keccak_of(stored_of(db)[d].0) == d
    }
}

/// The store records a key for every digest that the trie holds, and that key
/// hashes to the digest.
pub open spec fn indexes(db: MemoryStore, contents: Map<Seq<u8>, Seq<u8>>) -> bool {
    &&& side_index_sound(db)
    &&& forall|d: Seq<u8>| #[trigger] contents.contains_key(d) ==> stored_lookup(db, d) is Some
}

/// The key recorded for digest `d`.
pub open spec fn recorded_key(db: MemoryStore, d: Seq<u8>) -> Seq<u8> {
    stored_lookup(db, d)->0
}

/// The value that `contents` holds under the digest of `key`.
pub open spec fn value_of(contents: Map<Seq<u8>, Seq<u8>>, key: Seq<u8>) -> Option<Seq<u8>> {
    if contents.contains_key(keccak_of(key)) {
        Some(contents[keccak_of(key)])
    } else {
        None
    }
}

pub open spec fn opt_slice(o: Option<&[u8]>) -> Option<Seq<u8>> {
    match o {
        Some(s) => Some(s@),
        None => None,
    }
}

/// The record that inserting `key` leaves for its digest: `key` itself, except
/// under the store's null-node key, where the store always answers with the
/// null node.
pub open spec fn record_for(key: Seq<u8>) -> Seq<u8> {
    if keccak_of(key) == keccak_of(null_rlp()) {
        null_rlp()
    } else {
        key
    }
}

/// `after` is `before` once `value` is inserted under `key`: the trie holds
/// `value` under the digest of `key`, the side index records `key` for that
/// digest, whatever it recorded there before, and no other record changes.
pub open spec fn inserted(before: FatDB, key: Seq<u8>, value: Seq<u8>, after: FatDB) -> bool {
    &&& after.trie()@ == before.trie()@.insert(keccak_of(key), value)
    &&& stored_lookup(after.store(), keccak_of(key)) == Some(record_for(key))
    &&& forall|e: Seq<u8>|
        e != keccak_of(key) ==> #[trigger] stored_lookup(after.store(), e) == stored_lookup(before.store(), e)
}

/// Whether two byte strings are equal.
fn same_bytes(a: &[u8], b: &[u8]) -> (r: bool)
    ensures
        r == (a@ == b@),
{
    if a.len() != b.len() {
        return false;
    }
    let mut i: usize = 0;
    while i < a.len()
        invariant
            i <= a@.len(),
            a@.len() == b@.len(),
            forall|j: int| 0 <= j < i ==> a@[j] == b@[j],
        decreases a@.len() - i,
    {
        if a[i] != b[i] {
            return false;
        }
        i += 1;
    }
    assert(a@ =~= b@);
    true
}

/// Whether the record `rec` is live and differs from `key`.
fn stale_record(rec: &Option<Vec<u8>>, key: &[u8]) -> (r: bool)
    ensures
        r == (opt_bytes(*rec) is Some && opt_bytes(*rec) != Some(key@)),
{
    match rec {
        Some(v) => !same_bytes(v.as_slice(), key),
        None => false,
    }
}

/// Makes `key` the record under `digest`: a live record for another key is
/// dropped reference by reference, then `key` is placed.
fn record_key(db: &mut MemoryStore, digest: [u8; 32], key: &[u8])
    requires
        side_index_sound(*old(db)),
        digest@ == keccak_of(key@),
        digest@ != null_key_of(*old(db)),
    ensures
        side_index_sound(*final(db)),
        null_key_of(*final(db)) == null_key_of(*old(db)),
        stored_lookup(*final(db), digest@) == Some(key@),
        stored_of(*final(db)).remove(digest@) == stored_of(*old(db)).remove(digest@),
{
    let d = Ghost(digest@);
    let mut rec = store_get(db, &digest);
    let mut stale = stale_record(&rec, key);
    while stale
        invariant
            side_index_sound(*db),
            null_key_of(*db) == null_key_of(*old(db)),
            d@ == digest@,
            d@ != null_key_of(*db),
            d@ == keccak_of(key@),
            stored_of(*db).remove(d@) == stored_of(*old(db)).remove(d@),
            opt_bytes(rec) == stored_lookup(*db, d@),
            stale == (opt_bytes(rec) is Some && opt_bytes(rec) != Some(key@)),
        decreases
            if stored_of(*db).contains_key(d@) { stored_of(*db)[d@].1 } else { 0 },
    {
        let ghost prev = stored_of(*db);
        store_remove(db, &digest);
        proof {
            assert(stored_of(*db).remove(d@) =~= prev.remove(d@));
            let m = stored_of(*db);
            assert forall|e: Seq<u8>| #[trigger] m.contains_key(e) implies m[e].1 >= 0 && (m[e].1 > 0 ==> keccak_of(m[e].0) == e) by {
                if e != d@ {
                    assert(prev.contains_key(e));
                }
            }
        }
        rec = store_get(db, &digest);
        stale = stale_record(&rec, key);
    }
    if rec.is_none() {
        let ghost prev = stored_of(*db);
        store_emplace(db, digest, key);
        proof {
            assert(stored_of(*db).remove(d@) =~= prev.remove(d@));
            let m = stored_of(*db);
            assert forall|e: Seq<u8>| #[trigger] m.contains_key(e) implies m[e].1 >= 0 && (m[e].1 > 0 ==> keccak_of(m[e].0) == e) by {
                if e != d@ {
                    assert(prev.contains_key(e));
                }
            }
        }
    }
}

/// `after` is `before` once `key` is removed: the trie drops the digest of
/// `key`; the store, and so the side index, is left as it was.
pub open spec fn removed(before: FatDB, key: Seq<u8>, after: FatDB) -> bool {
    &&& after.trie()@ == before.trie()@.remove(keccak_of(key))
    &&& after.store() == before.store()
}

/// Why a trie could not be opened.
#[derive(Debug, Clone, PartialEq, Eq)]
pub enum TrieError {
    /// The given root is not the root of the state that the store holds.
    InvalidStateRoot([u8; 32]),
}

/// A trie that hashes its keys: values are stored under the Keccak-256 digest
/// of their key, and the backing store records which key gave each digest.
pub struct FatDB {
    raw: DigestTrie,
    db: MemoryStore,
}

impl FatDB {
    /// The digest-keyed trie underneath.
    pub closed spec fn trie(&self) -> DigestTrie {
        self.raw
    }

    /// The backing store, which holds the side index.
    pub closed spec fn store(&self) -> MemoryStore {
        self.db
    }

    pub open spec fn wf(&self) -> bool {
        &&& self.trie().wf()
        &&& indexes(self.store(), self.trie()@)
    }

    /// An adapter over an empty trie in a new in-memory store.
    pub fn new() -> (r: FatDB)
        ensures
            r.wf(),
            r.trie()@ == Map::<Seq<u8>, Seq<u8>>::empty(),
            forall|d: Seq<u8>| !stored_of(r.store()).contains_key(d),
    {
        FatDB { raw: DigestTrie::new(), db: new_store() }
    }

    /// Reopens the state held by `trie` for writing, provided `root` is its
    /// root; otherwise fails with `InvalidStateRoot`.
    pub fn from_existing(trie: TrieDB, root: &[u8; 32]) -> (r: Result<FatDB, TrieError>)
        requires
            trie.wf(),
        ensures
            r is Ok <==> root@ == trie_root_of(trie.trie()@),
            r is Ok ==> r->Ok_0.wf() && r->Ok_0.trie() == trie.trie() && r->Ok_0.store() == trie.store(),
            r is Err ==> r->Err_0 == TrieError::InvalidStateRoot(*root),
    {
        let current = trie.root();
        if compare_digests(&current, root) == 0 {
            Ok(FatDB { raw: trie.raw, db: trie.db })
        } else {
            Err(TrieError::InvalidStateRoot(*root))
        }
    }

    /// The backing store.
    pub fn db(&self) -> (r: &MemoryStore)
        ensures
            *r == self.store(),
    {
        &self.db
    }

    /// The root digest of the present contents.
    pub fn root(&self) -> (r: [u8; 32])
        requires
            self.wf(),
        ensures
            r@ == trie_root_of(self.trie()@),
    {
        self.raw.root()
    }

    /// Whether `key` has a value.
    pub fn contains(&self, key: &[u8]) -> (r: bool)
        requires
            self.wf(),
        ensures
            r == self.trie()@.contains_key(keccak_of(key@)),
    {
        self.raw.contains(&keccak(key))
    }

    /// The value stored under `key`, if any.
    pub fn get(&self, key: &[u8]) -> (r: Option<&[u8]>)
        requires
            self.wf(),
        ensures
            opt_slice(r) == value_of(self.trie()@, key@),
    {
        self.raw.get(&keccak(key))
    }

    /// Stores `value` under `key`, replacing any earlier value, and records
    /// in the store that `key` gave its digest.
    pub fn insert(&mut self, key: &[u8], value: &[u8])
        requires
            old(self).wf(),
        ensures
            final(self).wf(),
            inserted(*old(self), key@, value@, *final(self)),
    {
        let hash = keccak(key);
        self.raw.insert(hash, value);
        let null_node: [u8; 1] = [0x80];
        let null_key = keccak(null_node.as_slice());
        proof {
            assert(null_node@ =~= null_rlp());
        }
        if compare_digests(&hash, &null_key) != 0 {
            record_key(&mut self.db, hash, key);
        }
        proof {
            let old_db = old(self).store();
            let new_db = self.store();
            let d = keccak_of(key@);
            assert forall|e: Seq<u8>| e != d implies #[trigger] stored_lookup(new_db, e) == stored_lookup(old_db, e) by {
                if stored_of(new_db).contains_key(e) || stored_of(old_db).contains_key(e) {
                    assert(stored_of(new_db).remove(d).contains_key(e) == stored_of(new_db).contains_key(e));
                    assert(stored_of(old_db).remove(d).contains_key(e) == stored_of(old_db).contains_key(e));
                    if stored_of(new_db).contains_key(e) {
                        assert(stored_of(new_db)[e] == stored_of(new_db).remove(d)[e]);
                        assert(stored_of(old_db)[e] == stored_of(old_db).remove(d)[e]);
                    }
                }
            }
            assert forall|e: Seq<u8>| #[trigger] self.trie()@.contains_key(e) implies stored_lookup(new_db, e) is Some by {
                if e != d {
                    assert(old(self).trie()@.contains_key(e));
                    assert(stored_lookup(old_db, e) is Some);
                }
            }
        }
    }

    /// Removes the value under `key`, if any. The side index keeps its record.
    pub fn remove(&mut self, key: &[u8])
        requires
            old(self).wf(),
        ensures
            final(self).wf(),
            removed(*old(self), key@, *final(self)),
    {
        self.raw.remove(&keccak(key));
    }

    /// The key that the side index records for `digest`, if any.
    pub fn recorded_key(&self, digest: &[u8; 32]) -> (r: Option<Vec<u8>>)
        ensures
            opt_bytes(r) == stored_lookup(self.store(), digest@),
    {
        store_get(&self.db, digest)
    }

    /// Ends the adapter, handing back the trie for reading.
    pub fn into_trie_db(self) -> (r: TrieDB)
        requires
            self.wf(),
        ensures
            r.wf(),
            r.trie() == self.trie(),
            r.store() == self.store(),
    {
        TrieDB { raw: self.raw, db: self.db }
    }
}

/// A read-only view of a digest-keyed trie and its backing store.
pub struct TrieDB {
    raw: DigestTrie,
    db: MemoryStore,
}

impl TrieDB {
    pub closed spec fn trie(&self) -> DigestTrie {
        self.raw
    }

    pub closed spec fn store(&self) -> MemoryStore {
        self.db
    }

    pub open spec fn wf(&self) -> bool {
        &&& self.trie().wf()
        &&& indexes(self.store(), self.trie()@)
    }

    /// The root digest.
    pub fn root(&self) -> (r: [u8; 32])
        requires
            self.wf(),
        ensures
            r@ == trie_root_of(self.trie()@),
    {
        self.raw.root()
    }

    /// Whether `digest` has an entry.
    pub fn contains(&self, digest: &[u8; 32]) -> (r: bool)
        requires
            self.wf(),
        ensures
            r == self.trie()@.contains_key(digest@),
    {
        self.raw.contains(digest)
    }

    /// The value under `digest`, if any.
    pub fn get(&self, digest: &[u8; 32]) -> (r: Option<&[u8]>)
        requires
            self.wf(),
        ensures
            r is Some == self.trie()@.contains_key(digest@),
            r is Some ==> r->0@ == self.trie()@[digest@],
    {
        self.raw.get(digest)
    }

    /// The key that the side index records for `digest`, if any.
    pub fn recorded_key(&self, digest: &[u8; 32]) -> (r: Option<Vec<u8>>)
        ensures
            opt_bytes(r) == stored_lookup(self.store(), digest@),
    {
        store_get(&self.db, digest)
    }

    /// The number of entries.
    pub fn len(&self) -> (r: usize)
        ensures
            r == self.trie().pairs().len(),
    {
        self.raw.len()
    }
}

/// The (key, value) pair that a walk of `trie` gives at position `i`: the
/// key that `db` records for the digest there, and the value.
pub open spec fn yielded_at(trie: DigestTrie, db: MemoryStore, i: int) -> (Seq<u8>, Seq<u8>) {
    (recorded_key(db, trie.pairs()[i].0), trie.pairs()[i].1)
}

pub open spec fn pair_view(p: (Vec<u8>, &[u8])) -> (Seq<u8>, Seq<u8>) {
    (p.0@, p.1@)
}

/// Walks a trie in digest order and gives back each value with the key that
/// was inserted for it.
pub struct FatDBIterator<'db> {
    trie: &'db TrieDB,
    pos: usize,
}

impl<'db> FatDBIterator<'db> {
    /// The trie being walked.
    pub closed spec fn source(&self) -> TrieDB {
        *self.trie
    }

    /// How many entries have been given out.
    pub closed spec fn position(&self) -> int {
        self.pos as int
    }

    /// Starts a walk at the first entry.
    pub fn new(trie: &'db TrieDB) -> (r: FatDBIterator<'db>)
        ensures
            r.source() == *trie,
            r.position() == 0,
    {
        FatDBIterator { trie, pos: 0 }
    }

    /// The next (key, value) pair in digest order, or `None` after the last.
    pub fn next(&mut self) -> (r: Option<(Vec<u8>, &'db [u8])>)
        requires
            old(self).source().wf(),
            old(self).position() <= old(self).source().trie().pairs().len(),
        ensures
            final(self).source() == old(self).source(),
            final(self).position() <= final(self).source().trie().pairs().len(),
            old(self).position() < old(self).source().trie().pairs().len() ==> {
                &&& r is Some
                &&& pair_view(r->0) == yielded_at(old(self).source().trie(), old(self).source().store(), old(self).position())
                &&& final(self).position() == old(self).position() + 1
            },
            old(self).position() == old(self).source().trie().pairs().len() ==> {
                &&& r is None
                &&& final(self).position() == old(self).position()
            },
    {
        if self.pos >= self.trie.len() {
            return None;
        }
        let t: &'db TrieDB = self.trie;
        let (digest, value) = t.raw.entry(self.pos);
        proof {
            assert(t.raw@.contains_key(digest@));
        }
        let key = store_get(&t.db, digest);
        proof {
            assert(opt_bytes(key) is Some);
        }
        let key = key.unwrap();
        self.pos = self.pos + 1;
        Some((key, value))
    }
}

} // verus!
