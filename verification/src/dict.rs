//! The dictionary of a decoded value: unique byte-string keys, kept in
//! ascending order.

use vstd::prelude::*;
use crate::bencode::BValue;
use crate::grammar::Bencode;
use crate::order::{
    bytes_equal, bytes_less, lemma_lex_irreflexive, lemma_lex_total, lemma_lex_transitive,
    lex_less,
};

verus! {

/// The mapping that a sequence of key and value pairs makes when they are
/// entered one after the other: of two pairs with one key the later stands.
pub open spec fn pairs_map(pairs: Seq<(Seq<u8>, Bencode)>) -> Map<Seq<u8>, Bencode>
    decreases pairs.len(),
{
    if pairs.len() == 0 {
        Map::empty()
    } else {
        pairs_map(pairs.drop_last()).insert(pairs.last().0, pairs.last().1)
    }
}

/// The keys of `pairs` stand in strictly ascending order.
pub open spec fn ascending(pairs: Seq<(Seq<u8>, Bencode)>) -> bool {
    forall|i: int, j: int|
        0 <= i < j < pairs.len() ==> lex_less(#[trigger] pairs[i].0, #[trigger] pairs[j].0)
}

/// The keys of a mapping made by `pairs_map` are the keys of the pairs, and
/// there are finitely many of them.
pub proof fn lemma_pairs_map_keys(pairs: Seq<(Seq<u8>, Bencode)>)
    ensures
        pairs_map(pairs).dom().finite(),
        forall|k: Seq<u8>|
            pairs_map(pairs).contains_key(k) <==> exists|i: int|
                0 <= i < pairs.len() && #[trigger] pairs[i].0 == k,
    decreases pairs.len(),
{
    if pairs.len() > 0 {
        let front = pairs.drop_last();
        lemma_pairs_map_keys(front);
        assert forall|k: Seq<u8>| pairs_map(pairs).contains_key(k) implies exists|i: int|
            0 <= i < pairs.len() && #[trigger] pairs[i].0 == k by {
            if k == pairs.last().0 {
                assert(pairs[pairs.len() - 1].0 == k);
            } else {
                let i = choose|i: int| 0 <= i < front.len() && #[trigger] front[i].0 == k;
                assert(pairs[i].0 == k);
            }
        }
        assert forall|k: Seq<u8>|
            (exists|i: int| 0 <= i < pairs.len() && #[trigger] pairs[i].0 == k) implies pairs_map(
            pairs,
        ).contains_key(k) by {
            let i = choose|i: int| 0 <= i < pairs.len() && #[trigger] pairs[i].0 == k;
            if i < pairs.len() - 1 {
                assert(front[i].0 == k);
            }
        }
    }
}

/// Without their last pair, ascending pairs are still ascending, and the key
/// of the last pair is none of their keys.
pub proof fn lemma_ascending_front(pairs: Seq<(Seq<u8>, Bencode)>)
    requires
        ascending(pairs),
        pairs.len() > 0,
    ensures
        ascending(pairs.drop_last()),
        !pairs_map(pairs.drop_last()).contains_key(pairs.last().0),
{
    let front = pairs.drop_last();
    let last = pairs.last();
    assert forall|a: int, b: int| 0 <= a < b < front.len() implies lex_less(
        #[trigger] front[a].0,
        #[trigger] front[b].0,
    ) by {
        assert(lex_less(pairs[a].0, pairs[b].0));
    }
    lemma_pairs_map_keys(front);
    if pairs_map(front).contains_key(last.0) {
        let i = choose|i: int| 0 <= i < front.len() && #[trigger] front[i].0 == last.0;
        assert(lex_less(pairs[i].0, pairs[pairs.len() - 1].0));
        lemma_lex_irreflexive(last.0);
    }
}

/// Under ascending keys each pair's key is mapped to that pair's value.
pub proof fn lemma_pairs_map_value(pairs: Seq<(Seq<u8>, Bencode)>, i: int)
    requires
        ascending(pairs),
        0 <= i < pairs.len(),
    ensures
        pairs_map(pairs).contains_key(pairs[i].0),
        pairs_map(pairs)[pairs[i].0] == pairs[i].1,
    decreases pairs.len(),
{
    let front = pairs.drop_last();
    if i < pairs.len() - 1 {
        lemma_ascending_front(pairs);
        lemma_pairs_map_value(front, i);
        assert(front[i] == pairs[i]);
    }
}

/// Under ascending keys the mapping has as many keys as there are pairs.
pub proof fn lemma_pairs_map_len(pairs: Seq<(Seq<u8>, Bencode)>)
    requires
        ascending(pairs),
    ensures
        pairs_map(pairs).dom().finite(),
        pairs_map(pairs).dom().len() == pairs.len(),
    decreases pairs.len(),
{
    lemma_pairs_map_keys(pairs);
    if pairs.len() > 0 {
        let front = pairs.drop_last();
        lemma_ascending_front(pairs);
        lemma_pairs_map_len(front);
        assert(pairs_map(pairs).dom() =~= pairs_map(front).dom().insert(pairs.last().0));
    }
}

/// Ascending pairs are given by their mapping: two sequences of ascending
/// pairs that make one mapping are one sequence.
pub proof fn lemma_pairs_canonical(a: Seq<(Seq<u8>, Bencode)>, b: Seq<(Seq<u8>, Bencode)>)
    requires
        ascending(a),
        ascending(b),
        pairs_map(a) == pairs_map(b),
    ensures
        a == b,
    decreases a.len(),
{
    lemma_pairs_map_len(a);
    lemma_pairs_map_len(b);
    if a.len() == 0 {
        assert(a =~= b);
    } else {
        let end = a.len() - 1;
        lemma_pairs_map_keys(a);
        lemma_pairs_map_keys(b);
        lemma_pairs_map_value(a, end);
        lemma_pairs_map_value(b, end);
        let i = choose|i: int| 0 <= i < a.len() && #[trigger] a[i].0 == b[end].0;
        let j = choose|j: int| 0 <= j < b.len() && #[trigger] b[j].0 == a[end].0;
        assert(a[end].0 == b[end].0) by {
            if j < end {
                assert(lex_less(b[j].0, b[end].0));
                if i < end {
                    assert(lex_less(a[i].0, a[end].0));
                    lemma_lex_transitive(a[end].0, a[i].0, a[end].0);
                }
                lemma_lex_irreflexive(a[end].0);
            }
        }
        lemma_ascending_front(a);
        lemma_ascending_front(b);
        let key = a[end].0;
        assert(pairs_map(a.drop_last()) =~= pairs_map(a).remove(key));
        assert(pairs_map(b.drop_last()) =~= pairs_map(b).remove(key));
        lemma_pairs_canonical(a.drop_last(), b.drop_last());
        assert(a =~= a.drop_last().push(a[end]));
        assert(b =~= b.drop_last().push(b[end]));
    }
}

/// Giving the pair at `i` a new value keeps the keys ascending and maps its
/// key to the new value.
pub proof fn lemma_pairs_update(pairs: Seq<(Seq<u8>, Bencode)>, i: int, pair: (Seq<u8>, Bencode))
    requires
        ascending(pairs),
        0 <= i < pairs.len(),
        pairs[i].0 == pair.0,
    ensures
        ascending(pairs.update(i, pair)),
        pairs_map(pairs.update(i, pair)) == pairs_map(pairs).insert(pair.0, pair.1),
{
    let after = pairs.update(i, pair);
    assert(ascending(after)) by {
        assert forall|a: int, b: int| 0 <= a < b < after.len() implies lex_less(
            #[trigger] after[a].0,
            #[trigger] after[b].0,
        ) by {
            assert(lex_less(pairs[a].0, pairs[b].0));
        }
    }
    lemma_pairs_map_keys(pairs);
    lemma_pairs_map_keys(after);
    let m1 = pairs_map(after);
    let m2 = pairs_map(pairs).insert(pair.0, pair.1);
    assert forall|k: Seq<u8>| m1.contains_key(k) <==> m2.contains_key(k) by {
        if m1.contains_key(k) {
            let j = choose|j: int| 0 <= j < after.len() && #[trigger] after[j].0 == k;
            assert(pairs[j].0 == k);
        }
        if m2.contains_key(k) && k != pair.0 {
            let j = choose|j: int| 0 <= j < pairs.len() && #[trigger] pairs[j].0 == k;
            assert(after[j].0 == k);
        }
        if k == pair.0 {
            assert(after[i].0 == k);
        }
    }
    assert forall|k: Seq<u8>| m1.contains_key(k) implies m1[k] == m2[k] by {
        let j = choose|j: int| 0 <= j < after.len() && #[trigger] after[j].0 == k;
        lemma_pairs_map_value(after, j);
        if j != i {
            lemma_pairs_map_value(pairs, j);
            if j < i {
                assert(lex_less(pairs[j].0, pairs[i].0));
            } else {
                assert(lex_less(pairs[i].0, pairs[j].0));
            }
            lemma_lex_irreflexive(k);
        }
    }
    assert(m1 =~= m2);
}

/// Entering a pair between the keys that come before its key and those that
/// come after keeps the keys ascending and adds the pair to the mapping.
pub proof fn lemma_pairs_insert(pairs: Seq<(Seq<u8>, Bencode)>, i: int, pair: (Seq<u8>, Bencode))
    requires
        ascending(pairs),
        0 <= i <= pairs.len(),
        forall|j: int| 0 <= j < i ==> lex_less(#[trigger] pairs[j].0, pair.0),
        forall|j: int| i <= j < pairs.len() ==> lex_less(pair.0, #[trigger] pairs[j].0),
    ensures
        ascending(pairs.insert(i, pair)),
        pairs_map(pairs.insert(i, pair)) == pairs_map(pairs).insert(pair.0, pair.1),
{
    let after = pairs.insert(i, pair);
    assert(ascending(after)) by {
        assert forall|a: int, b: int| 0 <= a < b < after.len() implies lex_less(
            #[trigger] after[a].0,
            #[trigger] after[b].0,
        ) by {
            if b < i {
                assert(lex_less(pairs[a].0, pairs[b].0));
            } else if b == i {
                assert(lex_less(pairs[a].0, pair.0));
            } else if a < i {
                assert(lex_less(pairs[a].0, pairs[b - 1].0));
            } else if a == i {
                assert(lex_less(pair.0, pairs[b - 1].0));
            } else {
                assert(lex_less(pairs[a - 1].0, pairs[b - 1].0));
            }
        }
    }
    lemma_pairs_map_keys(pairs);
    lemma_pairs_map_keys(after);
    let m1 = pairs_map(after);
    let m2 = pairs_map(pairs).insert(pair.0, pair.1);
    assert forall|k: Seq<u8>| m1.contains_key(k) <==> m2.contains_key(k) by {
        if m1.contains_key(k) {
            let j = choose|j: int| 0 <= j < after.len() && #[trigger] after[j].0 == k;
            if j < i {
                assert(pairs[j].0 == k);
            } else if j > i {
                assert(pairs[j - 1].0 == k);
            }
        }
        if m2.contains_key(k) && k != pair.0 {
            let j = choose|j: int| 0 <= j < pairs.len() && #[trigger] pairs[j].0 == k;
            if j < i {
                assert(after[j].0 == k);
            } else {
                assert(after[j + 1].0 == k);
            }
        }
        if k == pair.0 {
            assert(after[i].0 == k);
        }
    }
    assert forall|k: Seq<u8>| m1.contains_key(k) implies m1[k] == m2[k] by {
        let j = choose|j: int| 0 <= j < after.len() && #[trigger] after[j].0 == k;
        lemma_pairs_map_value(after, j);
        lemma_lex_irreflexive(k);
        if j < i {
            lemma_pairs_map_value(pairs, j);
        } else if j > i {
            lemma_pairs_map_value(pairs, j - 1);
            assert(lex_less(pair.0, pairs[j - 1].0));
        }
    }
    assert(m1 =~= m2);
}

/// A Bencode dictionary: byte-string keys, each with one value.
///
/// The pairs are kept in ascending order of their keys, whatever the order in
/// which they were entered, so that equality does not depend on that order.
#[derive(Debug, PartialEq)]
pub struct Dict {
    entries: Vec<(Vec<u8>, BValue)>,
}

impl Dict {
    /// The keys with what their values denote, in ascending order of the keys.
    pub closed spec fn pairs(&self) -> Seq<(Seq<u8>, Bencode)>
        decreases self, 0int,
    {
        Seq::new(
            self.entries.len() as nat,
            |i: int|
                if 0 <= i < self.entries.len() {
                    (self.entries[i].0@, self.entries[i].1.view())
                } else {
                    (Seq::empty(), Bencode::Number(0))
                },
        )
    }

    #[verifier::type_invariant]
    spec fn ordered(&self) -> bool {
        ascending(self.pairs())
    }

    /// A dictionary without keys.
    pub fn new() -> (d: Dict)
        ensures
            d@ == Map::<Seq<u8>, Bencode>::empty(),
            d.pairs() == Seq::<(Seq<u8>, Bencode)>::empty(),
    {
        let d = Dict { entries: Vec::new() };
        assert(d.pairs() =~= Seq::empty());
        d
    }

    /// The number of keys.
    pub fn len(&self) -> (n: usize)
        ensures
            n == self.pairs().len(),
            self@.dom().finite(),
            n == self@.dom().len(),
    {
        proof {
            use_type_invariant(self);
            lemma_pairs_map_len(self.pairs());
        }
        self.entries.len()
    }

    /// The place of the first key that does not come before `key`, found by
    /// halving the range in which it lies.
    fn position(&self, key: &[u8]) -> (i: usize)
        ensures
            i <= self.pairs().len(),
            forall|j: int| 0 <= j < i ==> lex_less(#[trigger] self.pairs()[j].0, key@),
            forall|j: int|
                i < j < self.pairs().len() ==> lex_less(key@, #[trigger] self.pairs()[j].0),
            i < self.pairs().len() ==> self.pairs()[i as int].0 == key@ || lex_less(
                key@,
                self.pairs()[i as int].0,
            ),
    {
        proof {
            use_type_invariant(self);
        }
        let mut low: usize = 0;
        let mut high: usize = self.entries.len();
        while low < high
            invariant
                low <= high <= self.entries.len(),
                ascending(self.pairs()),
                forall|j: int| 0 <= j < low ==> lex_less(#[trigger] self.pairs()[j].0, key@),
                forall|j: int|
                    high <= j < self.pairs().len() ==> !lex_less(
                        #[trigger] self.pairs()[j].0,
                        key@,
                    ),
            decreases high - low,
        {
            let middle: usize = low + (high - low) / 2;
            let ghost pairs = self.pairs();
            if bytes_less(self.entries[middle].0.as_slice(), key) {
                proof {
                    assert forall|j: int| 0 <= j < middle + 1 implies lex_less(
                        #[trigger] pairs[j].0,
                        key@,
                    ) by {
                        if j < middle {
                            assert(lex_less(pairs[j].0, pairs[middle as int].0));
                            lemma_lex_transitive(pairs[j].0, pairs[middle as int].0, key@);
                        }
                    }
                }
                low = middle + 1;
            } else {
                proof {
                    assert forall|j: int| middle <= j < pairs.len() implies !lex_less(
                        #[trigger] pairs[j].0,
                        key@,
                    ) by {
                        if j > middle && lex_less(pairs[j].0, key@) {
                            assert(lex_less(pairs[middle as int].0, pairs[j].0));
                            lemma_lex_transitive(pairs[middle as int].0, pairs[j].0, key@);
                        }
                    }
                }
                high = middle;
            }
        }
        proof {
            let pairs = self.pairs();
            assert forall|j: int| low <= j < pairs.len() implies pairs[j].0 == key@ || lex_less(
                key@,
                #[trigger] pairs[j].0,
            ) by {
                lemma_lex_total(pairs[j].0, key@);
            }
            assert forall|j: int| low < j < pairs.len() implies lex_less(
                key@,
                #[trigger] pairs[j].0,
            ) by {
                assert(lex_less(pairs[low as int].0, pairs[j].0));
                if pairs[j].0 == key@ {
                    if pairs[low as int].0 != key@ {
                        lemma_lex_transitive(key@, pairs[low as int].0, key@);
                    }
                    lemma_lex_irreflexive(key@);
                }
            }
        }
        low
    }

    /// The value that `key` is mapped to, if it is a key.
    pub fn get(&self, key: &[u8]) -> (r: Option<&BValue>)
        ensures
            r is Some <==> self@.contains_key(key@),
            r matches Some(v) ==> v@ == self@[key@],
    {
        let i = self.position(key);
        proof {
            use_type_invariant(self);
            lemma_pairs_map_keys(self.pairs());
        }
        if i < self.entries.len() && bytes_equal(self.entries[i].0.as_slice(), key) {
            proof {
                lemma_pairs_map_value(self.pairs(), i as int);
            }
            Some(&self.entries[i].1)
        } else {
            proof {
                let pairs = self.pairs();
                assert forall|j: int| 0 <= j < pairs.len() implies #[trigger] pairs[j].0
                    != key@ by {
                    lemma_lex_irreflexive(key@);
                }
            }
            None
        }
    }

    /// The key at place `index` in ascending order, with its value; nothing
    /// where the dictionary has no more than `index` keys.
    pub fn entry(&self, index: usize) -> (r: Option<(&Vec<u8>, &BValue)>)
        ensures
            ascending(self.pairs()),
            r is Some <==> index < self.pairs().len(),
            r matches Some((key, value)) ==> self.pairs()[index as int] == (key@, value@),
    {
        proof {
            use_type_invariant(self);
        }
        if index < self.entries.len() {
            Some((&self.entries[index].0, &self.entries[index].1))
        } else {
            None
        }
    }

    /// Maps `key` to `value`, in place of the value it had if it was a key.
    pub fn insert(&mut self, key: Vec<u8>, value: BValue)
        ensures
            final(self)@ == old(self)@.insert(key@, value@),
    {
        let i = self.position(key.as_slice());
        proof {
            use_type_invariant(&*self);
        }
        let ghost before = self.pairs();
        let ghost pair = (key@, value@);
        let mut entries: Vec<(Vec<u8>, BValue)> = Vec::new();
        std::mem::swap(&mut self.entries, &mut entries);
        if i < entries.len() && bytes_equal(entries[i].0.as_slice(), key.as_slice()) {
            entries.set(i, (key, value));
            proof {
                let after = Dict { entries };
                assert(after.pairs() =~= before.update(i as int, pair));
                lemma_pairs_update(before, i as int, pair);
            }
            self.entries = entries;
        } else {
            entries.insert(i, (key, value));
            proof {
                let after = Dict { entries };
                assert(after.pairs() =~= before.insert(i as int, pair));
                lemma_pairs_insert(before, i as int, pair);
            }
            self.entries = entries;
        }
    }
}

impl View for Dict {
    type V = Map<Seq<u8>, Bencode>;

    open spec fn view(&self) -> Map<Seq<u8>, Bencode>
        decreases self, 1int,
    {
        pairs_map(self.pairs())
    }
}

} // verus!
