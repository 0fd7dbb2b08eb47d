//! The order in which the trie walks its digests: byte by byte, most
//! significant byte first.

use vstd::prelude::*;

verus! {

/// `a` sorts strictly before `b` when the two are compared byte by byte from
/// position `i` on.
pub open spec fn lt_from(a: Seq<u8>, b: Seq<u8>, i: int) -> bool
    decreases a.len() - i,
{
    if i < 0 || i >= a.len() || i >= b.len() {
        false
    } else if a[i] < b[i] {
        true
    } else if a[i] > b[i] {
        false
    } else {
        lt_from(a, b, i + 1)
    }
}

/// `a` sorts strictly before `b` in digest order.
pub open spec fn digest_lt(a: Seq<u8>, b: Seq<u8>) -> bool {
    lt_from(a, b, 0)
}

pub proof fn lemma_lt_irreflexive(a: Seq<u8>, i: int)
    ensures
        !lt_from(a, a, i),
    decreases a.len() - i,
{
    if 0 <= i < a.len() {
        lemma_lt_irreflexive(a, i + 1);
    }
}

pub proof fn lemma_lt_transitive(a: Seq<u8>, b: Seq<u8>, c: Seq<u8>, i: int)
    requires
        lt_from(a, b, i),
        lt_from(b, c, i),
    ensures
        lt_from(a, c, i),
    decreases a.len() - i,
{
    if a[i] == b[i] && b[i] == c[i] {
        lemma_lt_transitive(a, b, c, i + 1);
    }
}

/// Compares two digests: negative when `a` sorts first, zero when they are
/// equal, positive when `b` sorts first.
pub fn compare_digests(a: &[u8; 32], b: &[u8; 32]) -> (r: i8)
    ensures
        r < 0 <==> digest_lt(a@, b@),
        r == 0 <==> a@ == b@,
        r > 0 <==> digest_lt(b@, a@),
{
    let mut i: usize = 0;
    while i < 32
        invariant
            0 <= i <= 32,
            a@.len() == 32,
            b@.len() == 32,
            forall|j: int| 0 <= j < i ==> a@[j] == b@[j],
            lt_from(a@, b@, 0) == lt_from(a@, b@, i as int),
            lt_from(b@, a@, 0) == lt_from(b@, a@, i as int),
        decreases 32 - i,
    {
        if a[i] < b[i] {
            assert(a@[i as int] != b@[i as int]);
            return -1;
        }
        if a[i] > b[i] {
            assert(a@[i as int] != b@[i as int]);
            return 1;
        }
        i += 1;
    }
    assert(a@ =~= b@);
    0
}

} // verus!
