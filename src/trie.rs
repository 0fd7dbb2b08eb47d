//! The digest-keyed trie: an ordered map from 32-byte digests to values,
//! whose root commits to its contents.

use vstd::prelude::*;
use crate::backing::{pairs_map, trie_root, trie_root_of};
use crate::order::{compare_digests, digest_lt, lemma_lt_irreflexive, lemma_lt_transitive};

verus! {

/// `pairs` lists the entries of `m`, each once, in strictly increasing digest
/// order.
pub open spec fn lists_in_order(pairs: Seq<(Seq<u8>, Seq<u8>)>, m: Map<Seq<u8>, Seq<u8>>) -> bool {
    &&& forall|i: int, j: int|
        0 <= i < j < pairs.len() ==> digest_lt(#[trigger] pairs[i].0, #[trigger] pairs[j].0)
    &&& forall|i: int|
        #![trigger pairs[i]]
        0 <= i < pairs.len() ==> m.contains_key(pairs[i].0) && m[pairs[i].0] == pairs[i].1
    &&& forall|d: Seq<u8>|
        #[trigger] m.contains_key(d) ==> exists|i: int| 0 <= i < pairs.len() && pairs[i].0 == d
}

pub open spec fn view_pairs(s: Seq<([u8; 32], Vec<u8>)>) -> Seq<(Seq<u8>, Seq<u8>)> {
    s.map_values(|e: ([u8; 32], Vec<u8>)| (e.0@, e.1@))
}

proof fn lemma_sorted_distinct(p: Seq<(Seq<u8>, Seq<u8>)>, m: Map<Seq<u8>, Seq<u8>>)
    requires
        lists_in_order(p, m),
    ensures
        forall|i: int, j: int| 0 <= i < p.len() && 0 <= j < p.len() && i != j ==> #[trigger] p[i].0 != #[trigger] p[j].0,
{
    assert forall|i: int, j: int| 0 <= i < p.len() && 0 <= j < p.len() && i != j implies #[trigger] p[i].0 != #[trigger] p[j].0 by {
        lemma_lt_irreflexive(p[i].0, 0);
        if i < j {
            assert(digest_lt(p[i].0, p[j].0));
        } else {
            assert(digest_lt(p[j].0, p[i].0));
        }
    }
}

proof fn lemma_pairs_map(s: Seq<([u8; 32], Vec<u8>)>)
    requires
        forall|i: int, j: int| 0 <= i < s.len() && 0 <= j < s.len() && i != j ==> #[trigger] s[i].0@ != #[trigger] s[j].0@,
    ensures
        forall|i: int|
            #![trigger s[i]]
            0 <= i < s.len() ==> pairs_map(s).contains_key(s[i].0@) && pairs_map(s)[s[i].0@] == s[i].1@,
        forall|d: Seq<u8>|
            #[trigger] pairs_map(s).contains_key(d) ==> exists|i: int| 0 <= i < s.len() && s[i].0@ == d,
    decreases s.len(),
{
    if s.len() > 0 {
        let t = s.drop_last();
        assert forall|i: int, j: int| 0 <= i < t.len() && 0 <= j < t.len() && i != j implies #[trigger] t[i].0@ != #[trigger] t[j].0@ by {
            assert(t[i] == s[i] && t[j] == s[j]);
        }
        lemma_pairs_map(t);
        assert(pairs_map(s) == pairs_map(t).insert(s.last().0@, s.last().1@));
        assert forall|i: int| 0 <= i < s.len() implies #[trigger] pairs_map(s).contains_key(s[i].0@) && pairs_map(s)[s[i].0@] == s[i].1@ by {
            if i < s.len() - 1 {
                assert(t[i] == s[i]);
                assert(s[i].0@ != s[s.len() - 1].0@);
            }
        }
        assert forall|d: Seq<u8>| #[trigger] pairs_map(s).contains_key(d) implies exists|i: int| 0 <= i < s.len() && s[i].0@ == d by {
            if d == s.last().0@ {
                assert(s[s.len() - 1].0@ == d);
            } else {
                assert(pairs_map(t).contains_key(d));
                let j = choose|j: int| 0 <= j < t.len() && t[j].0@ == d;
                assert(s[j] == t[j]);
            }
        }
    }
}

/// The trie over the listed entries has the root of the map they list.
proof fn lemma_root_of_entries(s: Seq<([u8; 32], Vec<u8>)>, m: Map<Seq<u8>, Seq<u8>>)
    requires
        lists_in_order(view_pairs(s), m),
    ensures
        pairs_map(s) == m,
        forall|i: int, j: int| 0 <= i < j < s.len() ==> #[trigger] s[i].0@ != #[trigger] s[j].0@,
{
    let p = view_pairs(s);
    lemma_sorted_distinct(p, m);
    assert forall|i: int, j: int| 0 <= i < s.len() && 0 <= j < s.len() && i != j implies #[trigger] s[i].0@ != #[trigger] s[j].0@ by {
        assert(p[i].0 == s[i].0@ && p[j].0 == s[j].0@);
    }
    lemma_pairs_map(s);
    assert forall|d: Seq<u8>| #[trigger] m.contains_key(d) implies pairs_map(s).contains_key(d) && pairs_map(s)[d] == m[d] by {
        let i = choose|i: int| 0 <= i < p.len() && p[i].0 == d;
        assert(p[i].0 == s[i].0@ && p[i].1 == s[i].1@);
    }
    assert forall|d: Seq<u8>| #[trigger] pairs_map(s).contains_key(d) implies m.contains_key(d) by {
        let i = choose|i: int| 0 <= i < s.len() && s[i].0@ == d;
        assert(p[i].0 == s[i].0@);
    }
    assert(pairs_map(s) =~= m);
}

/// A digest ordered strictly between the entries before `i` and those from
/// `i` on is not among them.
proof fn lemma_absent(p: Seq<(Seq<u8>, Seq<u8>)>, m: Map<Seq<u8>, Seq<u8>>, i: int, d: Seq<u8>)
    requires
        lists_in_order(p, m),
        0 <= i <= p.len(),
        forall|j: int| 0 <= j < i ==> digest_lt(#[trigger] p[j].0, d),
        i < p.len() ==> digest_lt(d, p[i].0),
    ensures
        !m.contains_key(d),
        forall|j: int| i <= j < p.len() ==> digest_lt(d, #[trigger] p[j].0),
{
    assert forall|j: int| i <= j < p.len() implies digest_lt(d, #[trigger] p[j].0) by {
        if j > i {
            assert(digest_lt(p[i].0, p[j].0));
            lemma_lt_transitive(d, p[i].0, p[j].0, 0);
        }
    }
    if m.contains_key(d) {
        let j = choose|j: int| 0 <= j < p.len() && p[j].0 == d;
        lemma_lt_irreflexive(d, 0);
        if j < i {
            assert(digest_lt(p[j].0, d));
        } else {
            assert(digest_lt(d, p[j].0));
        }
    }
}

proof fn lemma_lists_update(p: Seq<(Seq<u8>, Seq<u8>)>, m: Map<Seq<u8>, Seq<u8>>, i: int, v: Seq<u8>)
    requires
        lists_in_order(p, m),
        0 <= i < p.len(),
    ensures
        lists_in_order(p.update(i, (p[i].0, v)), m.insert(p[i].0, v)),
{
    let d = p[i].0;
    let q = p.update(i, (d, v));
    let n = m.insert(d, v);
    lemma_sorted_distinct(p, m);
    assert forall|a: int, b: int| 0 <= a < b < q.len() implies digest_lt(#[trigger] q[a].0, #[trigger] q[b].0) by {
        assert(q[a].0 == p[a].0 && q[b].0 == p[b].0);
    }
    assert forall|a: int| 0 <= a < q.len() implies #[trigger] n.contains_key(q[a].0) && n[q[a].0] == q[a].1 by {
        if a != i {
            assert(p[a].0 != p[i].0);
        }
    }
    assert forall|k: Seq<u8>| #[trigger] n.contains_key(k) implies exists|a: int| 0 <= a < q.len() && q[a].0 == k by {
        if k == d {
            assert(q[i].0 == k);
        } else {
            let j = choose|j: int| 0 <= j < p.len() && p[j].0 == k;
            assert(q[j].0 == k);
        }
    }
}

proof fn lemma_lists_insert(p: Seq<(Seq<u8>, Seq<u8>)>, m: Map<Seq<u8>, Seq<u8>>, i: int, d: Seq<u8>, v: Seq<u8>)
    requires
        lists_in_order(p, m),
        0 <= i <= p.len(),
        forall|j: int| 0 <= j < i ==> digest_lt(#[trigger] p[j].0, d),
        i < p.len() ==> digest_lt(d, p[i].0),
    ensures
        lists_in_order(p.insert(i, (d, v)), m.insert(d, v)),
{
    let q = p.insert(i, (d, v));
    let n = m.insert(d, v);
    p.insert_ensures(i, (d, v));
    lemma_absent(p, m, i, d);
    assert forall|a: int, b: int| 0 <= a < b < q.len() implies digest_lt(#[trigger] q[a].0, #[trigger] q[b].0) by {
        if b < i {
        } else if b == i {
        } else if a < i {
            assert(q[b] == p[b - 1]);
            assert(digest_lt(d, p[b - 1].0));
            lemma_lt_transitive(p[a].0, d, p[b - 1].0, 0);
        } else if a == i {
            assert(q[b] == p[b - 1]);
        } else {
            assert(q[a] == p[a - 1] && q[b] == p[b - 1]);
        }
    }
    assert forall|a: int| 0 <= a < q.len() implies #[trigger] n.contains_key(q[a].0) && n[q[a].0] == q[a].1 by {
        if a != i {
            let j = if a < i { a } else { a - 1 };
            assert(q[a] == p[j]);
            lemma_lt_irreflexive(d, 0);
            assert(p[j].0 != d);
        }
    }
    assert forall|k: Seq<u8>| #[trigger] n.contains_key(k) implies exists|a: int| 0 <= a < q.len() && q[a].0 == k by {
        if k == d {
            assert(q[i].0 == k);
        } else {
            let j = choose|j: int| 0 <= j < p.len() && p[j].0 == k;
            if j < i {
                assert(q[j].0 == k);
            } else {
                assert(q[j + 1].0 == k);
            }
        }
    }
}

proof fn lemma_lists_remove(p: Seq<(Seq<u8>, Seq<u8>)>, m: Map<Seq<u8>, Seq<u8>>, i: int)
    requires
        lists_in_order(p, m),
        0 <= i < p.len(),
    ensures
        lists_in_order(p.remove(i), m.remove(p[i].0)),
{
    let d = p[i].0;
    let q = p.remove(i);
    let n = m.remove(d);
    p.remove_ensures(i);
    lemma_sorted_distinct(p, m);
    assert forall|a: int, b: int| 0 <= a < b < q.len() implies digest_lt(#[trigger] q[a].0, #[trigger] q[b].0) by {
        let ja = if a < i { a } else { a + 1 };
        let jb = if b < i { b } else { b + 1 };
        assert(q[a] == p[ja] && q[b] == p[jb]);
    }
    assert forall|a: int| 0 <= a < q.len() implies #[trigger] n.contains_key(q[a].0) && n[q[a].0] == q[a].1 by {
        let j = if a < i { a } else { a + 1 };
        assert(q[a] == p[j]);
        assert(p[j].0 != d);
    }
    assert forall|k: Seq<u8>| #[trigger] n.contains_key(k) implies exists|a: int| 0 <= a < q.len() && q[a].0 == k by {
        let j = choose|j: int| 0 <= j < p.len() && p[j].0 == k;
        if j < i {
            assert(q[j].0 == k);
        } else {
            assert(j != i);
            assert(q[j - 1].0 == k);
        }
    }
}

/// A trie keyed by 32-byte digests. Its entries are kept in digest order,
/// which is the order in which a walk of the trie visits them.
pub struct DigestTrie {
    entries: Vec<([u8; 32], Vec<u8>)>,
    root: [u8; 32],
    contents: Ghost<Map<Seq<u8>, Seq<u8>>>,
}

impl View for DigestTrie {
    type V = Map<Seq<u8>, Seq<u8>>;

    closed spec fn view(&self) -> Map<Seq<u8>, Seq<u8>> {
        self.contents@
    }
}

impl DigestTrie {
    /// The entries, as (digest, value) pairs, in the order a walk visits them.
    pub closed spec fn pairs(&self) -> Seq<(Seq<u8>, Seq<u8>)> {
        view_pairs(self.entries@)
    }

    /// The root digest that the trie holds.
    pub closed spec fn root_view(&self) -> Seq<u8> {
        self.root@
    }

    pub open spec fn wf(&self) -> bool {
        &&& lists_in_order(self.pairs(), self@)
        &&& self.root_view() == trie_root_of(self@)
    }

    /// An empty trie.
    pub fn new() -> (r: DigestTrie)
        ensures
            r.wf(),
            r@ == Map::<Seq<u8>, Seq<u8>>::empty(),
    {
        let entries: Vec<([u8; 32], Vec<u8>)> = Vec::new();
        let r = DigestTrie { entries, root: [0u8; 32], contents: Ghost(Map::empty()) };
        proof {
            lemma_root_of_entries(r.entries@, r.contents@);
        }
        let root = trie_root(&r.entries);
        DigestTrie { root, ..r }
    }

    /// The root digest, which commits to the contents.
    pub fn root(&self) -> (r: [u8; 32])
        requires
            self.wf(),
        ensures
            r@ == trie_root_of(self@),
    {
        self.root
    }

    /// The number of entries.
    pub fn len(&self) -> (r: usize)
        ensures
            r == self.pairs().len(),
    {
        self.entries.len()
    }

    /// The entry at position `i` of the walk.
    pub fn entry(&self, i: usize) -> (r: (&[u8; 32], &[u8]))
        requires
            i < self.pairs().len(),
        ensures
            r.0@ == self.pairs()[i as int].0,
            r.1@ == self.pairs()[i as int].1,
    {
        let e = &self.entries[i];
        (&e.0, e.1.as_slice())
    }

    /// Where `d` stands, or would stand, in the walk: the first position
    /// whose digest does not sort before `d`, and whether that digest is `d`.
    fn position(&self, d: &[u8; 32]) -> (r: (usize, bool))
        requires
            self.wf(),
        ensures
            r.0 <= self.pairs().len(),
            forall|j: int| 0 <= j < r.0 ==> digest_lt(#[trigger] self.pairs()[j].0, d@),
            r.1 ==> r.0 < self.pairs().len() && self.pairs()[r.0 as int].0 == d@,
            !r.1 ==> (r.0 < self.pairs().len() ==> digest_lt(d@, self.pairs()[r.0 as int].0)),
            r.1 == self@.contains_key(d@),
    {
        let mut i: usize = 0;
        while i < self.entries.len()
            invariant
                self.wf(),
                0 <= i <= self.pairs().len(),
                self.pairs().len() == self.entries@.len(),
                forall|j: int| 0 <= j < i ==> digest_lt(#[trigger] self.pairs()[j].0, d@),
            decreases self.entries@.len() - i,
        {
            let c = compare_digests(&self.entries[i].0, d);
            assert(self.pairs()[i as int].0 == self.entries@[i as int].0@);
            if c == 0 {
                return (i, true);
            }
            if c > 0 {
                proof {
                    lemma_absent(self.pairs(), self@, i as int, d@);
                }
                return (i, false);
            }
            i += 1;
        }
        proof {
            lemma_absent(self.pairs(), self@, i as int, d@);
        }
        (i, false)
    }

    /// Whether `d` has an entry.
    pub fn contains(&self, d: &[u8; 32]) -> (r: bool)
        requires
            self.wf(),
        ensures
            r == self@.contains_key(d@),
    {
        self.position(d).1
    }

    /// The value under `d`, if any.
    pub fn get(&self, d: &[u8; 32]) -> (r: Option<&[u8]>)
        requires
            self.wf(),
        ensures
            r is Some == self@.contains_key(d@),
            r is Some ==> r->0@ == self@[d@],
    {
        let (i, found) = self.position(d);
        if found {
            assert(self.pairs()[i as int].1 == self.entries@[i as int].1@);
            Some(self.entries[i].1.as_slice())
        } else {
            None
        }
    }

    /// Puts `value` under `d`, replacing what was there.
    pub fn insert(&mut self, d: [u8; 32], value: &[u8])
        requires
            old(self).wf(),
        ensures
            final(self).wf(),
            final(self)@ == old(self)@.insert(d@, value@),
    {
        let (i, found) = self.position(&d);
        let entry = (d, vstd::slice::slice_to_vec(value));
        let ghost p = self.pairs();
        let ghost m = self@;
        if found {
            self.entries.set(i, entry);
            proof {
                lemma_lists_update(p, m, i as int, value@);
                assert(self.pairs() =~= p.update(i as int, (d@, value@)));
            }
        } else {
            self.entries.insert(i, entry);
            proof {
                lemma_lists_insert(p, m, i as int, d@, value@);
                let old_entries = old(self).entries@;
                old_entries.insert_ensures(i as int, entry);
                assert(self.pairs() =~= p.insert(i as int, (d@, value@)));
            }
        }
        self.contents = Ghost(m.insert(d@, value@));
        proof {
            lemma_root_of_entries(self.entries@, self.contents@);
        }
        self.root = trie_root(&self.entries);
    }

    /// Removes the entry under `d`, if there is one.
    pub fn remove(&mut self, d: &[u8; 32])
        requires
            old(self).wf(),
        ensures
            final(self).wf(),
            final(self)@ == old(self)@.remove(d@),
    {
        let (i, found) = self.position(d);
        if found {
            let ghost p = self.pairs();
            let ghost m = self@;
            self.entries.remove(i);
            proof {
                lemma_lists_remove(p, m, i as int);
                let old_entries = old(self).entries@;
                old_entries.remove_ensures(i as int);
                assert(self.pairs() =~= p.remove(i as int));
            }
            self.contents = Ghost(m.remove(d@));
            proof {
                lemma_root_of_entries(self.entries@, self.contents@);
            }
            self.root = trie_root(&self.entries);
        } else {
            proof {
                assert(self@ =~= old(self)@.remove(d@));
            }
        }
    }
}

} // verus!
