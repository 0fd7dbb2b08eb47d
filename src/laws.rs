//! What holds across calls of the adapter.

use vstd::prelude::*;
use crate::backing::{keccak_of, stored_lookup, trie_root_of, MemoryStore};
use crate::fatdb::{indexes, inserted, record_for, recorded_key, removed, value_of, yielded_at, FatDB};
use crate::trie::DigestTrie;

verus! {

/// After `key` is inserted with `value`, looking `key` up gives `value`, `key`
/// is present, and the side index records `key` for its digest.
pub proof fn lemma_get_after_insert(before: FatDB, key: Seq<u8>, value: Seq<u8>, after: FatDB)
    requires
        inserted(before, key, value, after),
    ensures
        value_of(after.trie()@, key) == Some(value),
        after.trie()@.contains_key(keccak_of(key)),
        stored_lookup(after.store(), keccak_of(key)) == Some(record_for(key)),
{
}

/// After `key` is inserted and then removed, looking it up gives nothing, and
/// `key` is absent.
pub proof fn lemma_get_after_remove(
    start: FatDB,
    key: Seq<u8>,
    value: Seq<u8>,
    mid: FatDB,
    end: FatDB,
)
    requires
        inserted(start, key, value, mid),
        removed(mid, key, end),
    ensures
        value_of(end.trie()@, key) is None,
        !end.trie()@.contains_key(keccak_of(key)),
{
}

/// Inserting the same pair a second time changes neither what `key` gives,
/// nor the root, nor the side index's record for `key`.
pub proof fn lemma_insert_idempotent(
    start: FatDB,
    key: Seq<u8>,
    value: Seq<u8>,
    once: FatDB,
    twice: FatDB,
)
    requires
        inserted(start, key, value, once),
        inserted(once, key, value, twice),
    ensures
        twice.trie()@ == once.trie()@,
        value_of(twice.trie()@, key) == value_of(once.trie()@, key),
        trie_root_of(twice.trie()@) == trie_root_of(once.trie()@),
        stored_lookup(twice.store(), keccak_of(key)) == stored_lookup(once.store(), keccak_of(key)),
{
    assert(twice.trie()@ =~= once.trie()@);
}

/// `states` are the adapters that `ops` pass through when each pair of `ops`
/// is inserted in turn.
pub open spec fn insert_chain(states: Seq<FatDB>, ops: Seq<(Seq<u8>, Seq<u8>)>) -> bool {
    &&& states.len() == ops.len() + 1
    &&& forall|i: int|
        0 <= i < ops.len() ==> inserted(#[trigger] states[i], ops[i].0, ops[i].1, states[i + 1])
}

proof fn lemma_chains_agree(a: Seq<FatDB>, b: Seq<FatDB>, ops: Seq<(Seq<u8>, Seq<u8>)>, n: int)
    requires
        insert_chain(a, ops),
        insert_chain(b, ops),
        a[0].trie()@ == b[0].trie()@,
        0 <= n <= ops.len(),
    ensures
        a[n].trie()@ == b[n].trie()@,
    decreases n,
{
    if n > 0 {
        lemma_chains_agree(a, b, ops, n - 1);
        assert(inserted(a[n - 1], ops[n - 1].0, ops[n - 1].1, a[n]));
        assert(inserted(b[n - 1], ops[n - 1].0, ops[n - 1].1, b[n]));
    }
}

/// Two adapters with the same contents that are given the same sequence of
/// inserts end with the same contents and the same root.
pub proof fn lemma_same_inserts_same_root(
    a: Seq<FatDB>,
    b: Seq<FatDB>,
    ops: Seq<(Seq<u8>, Seq<u8>)>,
)
    requires
        insert_chain(a, ops),
        insert_chain(b, ops),
        a[0].trie()@ == b[0].trie()@,
    ensures
        a.last().trie()@ == b.last().trie()@,
        trie_root_of(a.last().trie()@) == trie_root_of(b.last().trie()@),
{
    lemma_chains_agree(a, b, ops, ops.len() as int);
}

/// Every pair that a walk gives is stored: the value stands under the key
/// that the walk gives with it.
pub proof fn lemma_walk_gives_stored_pairs(trie: DigestTrie, db: MemoryStore, i: int)
    requires
        trie.wf(),
        indexes(db, trie@),
        0 <= i < trie.pairs().len(),
    ensures
        value_of(trie@, yielded_at(trie, db, i).0) == Some(yielded_at(trie, db, i).1),
{
    let d = trie.pairs()[i].0;
    assert(trie@.contains_key(d));
    assert(stored_lookup(db, d) is Some);
}

/// A walk gives each key at most once.
pub proof fn lemma_walk_keys_distinct(trie: DigestTrie, db: MemoryStore, i: int, j: int)
    requires
        trie.wf(),
        indexes(db, trie@),
        0 <= i < trie.pairs().len(),
        0 <= j < trie.pairs().len(),
        i != j,
    ensures
        yielded_at(trie, db, i).0 != yielded_at(trie, db, j).0,
{
    let p = trie.pairs();
    assert(trie@.contains_key(p[i].0) && trie@.contains_key(p[j].0));
    assert(stored_lookup(db, p[i].0) is Some && stored_lookup(db, p[j].0) is Some);
    crate::order::lemma_lt_irreflexive(p[i].0, 0);
    if i < j {
        assert(crate::order::digest_lt(p[i].0, p[j].0));
    } else {
        assert(crate::order::digest_lt(p[j].0, p[i].0));
    }
}

/// A walk gives its keys in strictly increasing order of their digests.
pub proof fn lemma_walk_in_digest_order(trie: DigestTrie, db: MemoryStore, i: int, j: int)
    requires
        trie.wf(),
        indexes(db, trie@),
        0 <= i < j < trie.pairs().len(),
    ensures
        crate::order::digest_lt(keccak_of(yielded_at(trie, db, i).0), keccak_of(yielded_at(trie, db, j).0)),
{
    let p = trie.pairs();
    assert(trie@.contains_key(p[i].0) && trie@.contains_key(p[j].0));
    assert(stored_lookup(db, p[i].0) is Some && stored_lookup(db, p[j].0) is Some);
    assert(crate::order::digest_lt(p[i].0, p[j].0));
}

/// A walk gives every stored pair whose key no other key shares a digest
/// with.
pub proof fn lemma_walk_gives_every_pair(trie: DigestTrie, db: MemoryStore, key: Seq<u8>)
    requires
        trie.wf(),
        indexes(db, trie@),
        value_of(trie@, key) is Some,
        forall|other: Seq<u8>| keccak_of(other) == keccak_of(key) ==> other == key,
    ensures
        exists|i: int|
            0 <= i < trie.pairs().len() && yielded_at(trie, db, i) == (key, value_of(trie@, key)->0),
{
    let d = keccak_of(key);
    let i = choose|i: int| 0 <= i < trie.pairs().len() && trie.pairs()[i].0 == d;
    assert(stored_lookup(db, d) is Some);
    assert(keccak_of(recorded_key(db, d)) == d);
    assert(yielded_at(trie, db, i) == (key, value_of(trie@, key)->0));
}

/// Once a key is inserted and removed, the side index still records it for
/// its digest, yet no walk gives the key again.
pub proof fn lemma_removed_key_not_walked(
    start: FatDB,
    key: Seq<u8>,
    value: Seq<u8>,
    mid: FatDB,
    end: FatDB,
)
    requires
        mid.wf(),
        end.wf(),
        inserted(start, key, value, mid),
        removed(mid, key, end),
    ensures
        stored_lookup(end.store(), keccak_of(key)) == Some(record_for(key)),
        forall|i: int|
            0 <= i < end.trie().pairs().len() ==> #[trigger] yielded_at(end.trie(), end.store(), i).0 != key,
{
    assert(mid.trie()@.contains_key(keccak_of(key)));
    assert forall|i: int| 0 <= i < end.trie().pairs().len() implies #[trigger] yielded_at(end.trie(), end.store(), i).0 != key by {
        let d = end.trie().pairs()[i].0;
        assert(end.trie()@.contains_key(d));
        assert(stored_lookup(end.store(), d) is Some);
    }
}

/// The contents that inserting each pair of `ops` in turn into an empty trie
/// gives.
pub open spec fn contents_of(ops: Seq<(Seq<u8>, Seq<u8>)>) -> Map<Seq<u8>, Seq<u8>>
    decreases ops.len(),
{
    if ops.len() == 0 {
        Map::empty()
    } else {
        contents_of(ops.drop_last()).insert(keccak_of(ops.last().0), ops.last().1)
    }
}

proof fn lemma_chain_contents(states: Seq<FatDB>, ops: Seq<(Seq<u8>, Seq<u8>)>, n: int)
    requires
        insert_chain(states, ops),
        states[0].trie()@ == Map::<Seq<u8>, Seq<u8>>::empty(),
        0 <= n <= ops.len(),
    ensures
        states[n].trie()@ == contents_of(ops.take(n)),
    decreases n,
{
    if n > 0 {
        lemma_chain_contents(states, ops, n - 1);
        assert(inserted(states[n - 1], ops[n - 1].0, ops[n - 1].1, states[n]));
        assert(ops.take(n).drop_last() =~= ops.take(n - 1));
    } else {
        assert(contents_of(ops.take(0)) =~= Map::<Seq<u8>, Seq<u8>>::empty());
    }
}

/// No key of `ops` shares its digest with any other key, and no key appears
/// twice.
pub open spec fn digest_unique_keys(ops: Seq<(Seq<u8>, Seq<u8>)>) -> bool {
    &&& forall|i: int, other: Seq<u8>|
        0 <= i < ops.len() && #[trigger] keccak_of(other) == keccak_of(#[trigger] ops[i].0) ==> other == ops[i].0
    &&& forall|i: int, j: int| 0 <= i < j < ops.len() ==> #[trigger] ops[i].0 != #[trigger] ops[j].0
}

proof fn lemma_contents_of(ops: Seq<(Seq<u8>, Seq<u8>)>)
    requires
        digest_unique_keys(ops),
    ensures
        forall|i: int| 0 <= i < ops.len() ==> value_of(contents_of(ops), #[trigger] ops[i].0) == Some(ops[i].1),
        forall|d: Seq<u8>|
            #[trigger] contents_of(ops).contains_key(d) ==> exists|i: int| 0 <= i < ops.len() && keccak_of(ops[i].0) == d,
    decreases ops.len(),
{
    if ops.len() > 0 {
        let t = ops.drop_last();
        let n = ops.len() - 1;
        assert forall|i: int, other: Seq<u8>|
            0 <= i < t.len() && #[trigger] keccak_of(other) == keccak_of(#[trigger] t[i].0) implies other == t[i].0 by {
            assert(t[i] == ops[i]);
        }
        assert forall|i: int, j: int| 0 <= i < j < t.len() implies #[trigger] t[i].0 != #[trigger] t[j].0 by {
            assert(t[i] == ops[i] && t[j] == ops[j]);
        }
        lemma_contents_of(t);
        assert forall|i: int| 0 <= i < ops.len() implies value_of(contents_of(ops), #[trigger] ops[i].0) == Some(ops[i].1) by {
            if i < n {
                assert(t[i] == ops[i]);
                assert(ops[i].0 != ops[n].0);
                if keccak_of(ops[n].0) == keccak_of(ops[i].0) {
                    assert(ops[n].0 == ops[i].0);
                }
            }
        }
        assert forall|d: Seq<u8>| #[trigger] contents_of(ops).contains_key(d) implies exists|i: int| 0 <= i < ops.len() && keccak_of(ops[i].0) == d by {
            if d == keccak_of(ops[n].0) {
                assert(keccak_of(ops[n].0) == d);
            } else {
                assert(contents_of(t).contains_key(d));
                let j = choose|j: int| 0 <= j < t.len() && keccak_of(t[j].0) == d;
                assert(ops[j] == t[j]);
            }
        }
    }
}

/// Insert distinct pairs, no two of whose keys share a digest, into an empty
/// adapter: a walk of the result gives exactly those pairs, each key once.
pub proof fn lemma_iteration_round_trip(
    states: Seq<FatDB>,
    ops: Seq<(Seq<u8>, Seq<u8>)>,
    key: Seq<u8>,
    value: Seq<u8>,
)
    requires
        insert_chain(states, ops),
        states[0].trie()@ == Map::<Seq<u8>, Seq<u8>>::empty(),
        states.last().wf(),
        digest_unique_keys(ops),
    ensures
        (exists|i: int|
            0 <= i < states.last().trie().pairs().len()
                && yielded_at(states.last().trie(), states.last().store(), i) == (key, value))
            <==> ops.contains((key, value)),
{
    let last = states.last();
    let trie = last.trie();
    let db = last.store();
    lemma_chain_contents(states, ops, ops.len() as int);
    assert(ops.take(ops.len() as int) =~= ops);
    lemma_contents_of(ops);
    if exists|i: int| 0 <= i < trie.pairs().len() && yielded_at(trie, db, i) == (key, value) {
        let i = choose|i: int| 0 <= i < trie.pairs().len() && yielded_at(trie, db, i) == (key, value);
        lemma_walk_gives_stored_pairs(trie, db, i);
        assert(trie@.contains_key(keccak_of(key)));
        let j = choose|j: int| 0 <= j < ops.len() && keccak_of(ops[j].0) == keccak_of(key);
        assert(key == ops[j].0);
        assert(value_of(trie@, ops[j].0) == Some(ops[j].1));
        assert(ops[j] == (key, value));
        assert(ops.contains((key, value)));
    }
    if ops.contains((key, value)) {
        let j = choose|j: int| 0 <= j < ops.len() && ops[j] == (key, value);
        assert(value_of(trie@, ops[j].0) == Some(ops[j].1));
        assert forall|other: Seq<u8>| keccak_of(other) == keccak_of(key) implies other == key by {
            assert(keccak_of(other) == keccak_of(ops[j].0));
        }
        lemma_walk_gives_every_pair(trie, db, key);
    }
}

} // verus!
