//! The lexicographic order on byte strings, by which a dictionary keeps its keys.

use vstd::prelude::*;

verus! {

/// How many leading bytes `a` and `b` have in common, counted from `i` on.
pub open spec fn common_from(a: Seq<u8>, b: Seq<u8>, i: int) -> nat
    decreases a.len() - i,
{
    if 0 <= i < a.len() && i < b.len() && a[i] == b[i] {
        1 + common_from(a, b, i + 1)
    } else {
        0
    }
}

/// `a` comes before `b`: at the first place where they differ `a` has the
/// smaller byte, or `a` ends there and `b` goes on.
pub open spec fn lex_less(a: Seq<u8>, b: Seq<u8>) -> bool {
    let k = common_from(a, b, 0) as int;
    if k < a.len() && k < b.len() {
        a[k] < b[k]
    } else {
        a.len() < b.len()
    }
}

/// What `common_from` counts: the bytes before the place it gives agree, and
/// the two strings differ at that place unless one of them ends there.
pub proof fn lemma_common_from(a: Seq<u8>, b: Seq<u8>, i: int)
    requires
        0 <= i <= a.len(),
        i <= b.len(),
    ensures
        i + common_from(a, b, i) <= a.len(),
        i + common_from(a, b, i) <= b.len(),
        forall|j: int| i <= j < i + common_from(a, b, i) ==> a[j] == b[j],
        i + common_from(a, b, i) < a.len() && i + common_from(a, b, i) < b.len() ==> a[i
            + common_from(a, b, i)] != b[i + common_from(a, b, i)],
    decreases a.len() - i,
{
    if i < a.len() && i < b.len() && a[i] == b[i] {
        lemma_common_from(a, b, i + 1);
    }
}

/// A place `k` before which `a` and `b` agree, and at which they differ or
/// one of them ends, is the place that `common_from` gives.
pub proof fn lemma_common_from_is(a: Seq<u8>, b: Seq<u8>, i: int, k: int)
    requires
        0 <= i <= k <= a.len(),
        k <= b.len(),
        forall|j: int| i <= j < k ==> a[j] == b[j],
        k < a.len() && k < b.len() ==> a[k] != b[k],
    ensures
        i + common_from(a, b, i) == k,
    decreases k - i,
{
    if i < k {
        lemma_common_from_is(a, b, i + 1, k);
    }
}

/// No byte string comes before itself.
pub proof fn lemma_lex_irreflexive(a: Seq<u8>)
    ensures
        !lex_less(a, a),
{
    lemma_common_from_is(a, a, 0, a.len() as int);
}

/// Of two byte strings one comes before the other, or they are equal.
pub proof fn lemma_lex_total(a: Seq<u8>, b: Seq<u8>)
    ensures
        lex_less(a, b) || lex_less(b, a) || a == b,
        !(lex_less(a, b) && lex_less(b, a)),
{
    lemma_common_from(a, b, 0);
    let k = common_from(a, b, 0) as int;
    lemma_common_from_is(b, a, 0, k);
    if !lex_less(a, b) && !lex_less(b, a) {
        assert(a =~= b);
    }
}

/// What comes before something that comes before `c` comes before `c`.
pub proof fn lemma_lex_transitive(a: Seq<u8>, b: Seq<u8>, c: Seq<u8>)
    requires
        lex_less(a, b),
        lex_less(b, c),
    ensures
        lex_less(a, c),
{
    lemma_common_from(a, b, 0);
    lemma_common_from(b, c, 0);
    let k1 = common_from(a, b, 0) as int;
    let k2 = common_from(b, c, 0) as int;
    let k = if k1 <= k2 { k1 } else { k2 };
    lemma_common_from_is(a, c, 0, k);
}

/// The length of the longest common prefix of `a` and `b`.
pub fn common_prefix(a: &[u8], b: &[u8]) -> (k: usize)
    ensures
        k == common_from(a@, b@, 0),
        k <= a@.len(),
        k <= b@.len(),
{
    let mut k: usize = 0;
    while k < a.len() && k < b.len() && a[k] == b[k]
        invariant
            k <= a@.len(),
            k <= b@.len(),
            forall|j: int| 0 <= j < k ==> a@[j] == b@[j],
        decreases a@.len() - k,
    {
        k += 1;
    }
    proof {
        lemma_common_from_is(a@, b@, 0, k as int);
    }
    k
}

/// Whether `a` comes before `b`.
pub fn bytes_less(a: &[u8], b: &[u8]) -> (r: bool)
    ensures
        r == lex_less(a@, b@),
{
    let k = common_prefix(a, b);
    if k < a.len() && k < b.len() {
        a[k] < b[k]
    } else {
        a.len() < b.len()
    }
}

/// Whether `a` and `b` hold the same bytes.
pub fn bytes_equal(a: &[u8], b: &[u8]) -> (r: bool)
    ensures
        r == (a@ == b@),
{
    let k = common_prefix(a, b);
    proof {
        lemma_common_from(a@, b@, 0);
        if k == a@.len() && k == b@.len() {
            assert(a@ =~= b@);
        }
    }
    k == a.len() && k == b.len()
}

} // verus!
