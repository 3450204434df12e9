use vstd::prelude::*;
use crate::keys::key_lt;
use crate::codec::Entry;

verus! {

/// The abstract content of a run of entries: key-value pairs of byte strings.
pub type Pairs = Seq<(Seq<u8>, Seq<u8>)>;

/// View of a vector of entries as abstract pairs.
pub open spec fn entries_view(s: Seq<Entry>) -> Pairs {
    s.map(|i: int, e: Entry| (e.key@, e.value@))
}

/// Keys strictly ascending: the on-disk order of a segment and the iteration
/// order of a memtable.
pub open spec fn sorted_strict(s: Pairs) -> bool {
    forall|i: int, j: int| 0 <= i < j < s.len() ==> key_lt(s[i].0, s[j].0)
}

pub open spec fn seq_has_key(s: Pairs, k: Seq<u8>) -> bool {
    exists|i: int| 0 <= i < s.len() && s[i].0 == k
}

/// The mapping a run of writes denotes: a later pair with the same key
/// overwrites an earlier one.
pub open spec fn map_of(s: Pairs) -> Map<Seq<u8>, Seq<u8>>
    decreases s.len(),
{
    if s.len() == 0 {
        Map::empty()
    } else {
        map_of(s.drop_last()).insert(s.last().0, s.last().1)
    }
}

/// What a lookup over content `s` returns for key `k`.
pub open spec fn lookup(s: Pairs, k: Seq<u8>) -> Option<Seq<u8>> {
    if map_of(s).contains_key(k) {
        Some(map_of(s)[k])
    } else {
        None
    }
}

/// Every key of the map comes from some pair of the sequence.
pub proof fn lemma_map_of_domain(s: Pairs, k: Seq<u8>)
    ensures
        map_of(s).contains_key(k) <==> seq_has_key(s, k),
    decreases s.len(),
{
    if s.len() > 0 {
        lemma_map_of_domain(s.drop_last(), k);
        if seq_has_key(s, k) && k != s.last().0 {
            let i = choose|i: int| 0 <= i < s.len() && s[i].0 == k;
            assert(s.drop_last()[i] == s[i]);
        }
        if seq_has_key(s.drop_last(), k) {
            let i = choose|i: int| 0 <= i < s.drop_last().len() && s.drop_last()[i].0 == k;
            assert(s[i] == s.drop_last()[i]);
        }
    }
}

/// When keys are pairwise distinct, the map reads back each pair.
pub proof fn lemma_map_of_unique(s: Pairs)
    requires
        forall|i: int, j: int| 0 <= i < j < s.len() ==> s[i].0 != s[j].0,
    ensures
        forall|i: int|
            0 <= i < s.len() ==> map_of(s).contains_key(s[i].0) && map_of(s)[s[i].0] == s[i].1,
        forall|k: Seq<u8>| map_of(s).contains_key(k) ==> seq_has_key(s, k),
    decreases s.len(),
{
    if s.len() > 0 {
        assert(forall|i: int, j: int|
            0 <= i < j < s.drop_last().len() ==> s.drop_last()[i].0 != s.drop_last()[j].0);
        lemma_map_of_unique(s.drop_last());
        assert forall|i: int| 0 <= i < s.len() implies map_of(s).contains_key(s[i].0) && map_of(
            s,
        )[s[i].0] == s[i].1 by {
            if i < s.len() - 1 {
                assert(s.drop_last()[i] == s[i]);
                assert(s[i].0 != s.last().0);
            }
        }
        assert forall|k: Seq<u8>| map_of(s).contains_key(k) implies seq_has_key(s, k) by {
            if k == s.last().0 {
                assert(s[s.len() - 1].0 == k);
            } else {
                assert(map_of(s.drop_last()).contains_key(k));
                assert(seq_has_key(s.drop_last(), k));
                let i = choose|i: int| 0 <= i < s.drop_last().len() && s.drop_last()[i].0 == k;
                assert(s[i] == s.drop_last()[i]);
            }
        }
    }
}

/// Strictly sorted content has pairwise distinct keys.
pub proof fn lemma_sorted_unique(s: Pairs)
    requires
        sorted_strict(s),
    ensures
        forall|i: int, j: int| 0 <= i < j < s.len() ==> s[i].0 != s[j].0,
{
    assert forall|i: int, j: int| 0 <= i < j < s.len() implies s[i].0 != s[j].0 by {
        crate::keys::lemma_key_lt_irrefl(s[i].0);
    }
}

/// For strictly sorted content, lookup is read off the pairs themselves.
pub proof fn lemma_sorted_lookup(s: Pairs)
    requires
        sorted_strict(s),
    ensures
        forall|i: int|
            0 <= i < s.len() ==> map_of(s).contains_key(s[i].0) && map_of(s)[s[i].0] == s[i].1,
        forall|k: Seq<u8>| map_of(s).contains_key(k) ==> seq_has_key(s, k),
{
    lemma_sorted_unique(s);
    lemma_map_of_unique(s);
}

} // verus!
