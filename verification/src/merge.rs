use vstd::prelude::*;
use crate::codec::{clone_entry, Entry};
use crate::keys::{key_compare, key_lt, KeyOrder, lemma_key_lt_irrefl, lemma_key_lt_trans};
use crate::model::{entries_view, lemma_map_of_domain, map_of, seq_has_key, sorted_strict};

verus! {

/// The mapping a set of segments denotes when read together, oldest first:
/// a later (newer) segment wins on key collision.
pub open spec fn merged_map(inputs: Seq<Vec<Entry>>, upto: int) -> Map<Seq<u8>, Seq<u8>>
    decreases upto,
{
    if upto <= 0 {
        Map::empty()
    } else {
        merged_map(inputs, upto - 1).union_prefer_right(
            map_of(entries_view(inputs[upto - 1]@)),
        )
    }
}

/// Merge two sorted runs; on a key collision the right run wins.
pub fn merge_two(a: &Vec<Entry>, b: &Vec<Entry>) -> (out: Vec<Entry>)
    requires
        sorted_strict(entries_view(a@)),
        sorted_strict(entries_view(b@)),
    ensures
        sorted_strict(entries_view(out@)),
        map_of(entries_view(out@)) == map_of(entries_view(a@)).union_prefer_right(
            map_of(entries_view(b@)),
        ),
{
    let ghost av = entries_view(a@);
    let ghost bv = entries_view(b@);
    let mut out: Vec<Entry> = Vec::new();
    let mut i: usize = 0;
    let mut j: usize = 0;
    proof {
        assert(av.take(0) =~= Seq::<(Seq<u8>, Seq<u8>)>::empty());
        assert(bv.take(0) =~= Seq::<(Seq<u8>, Seq<u8>)>::empty());
        assert(entries_view(out@) =~= Seq::<(Seq<u8>, Seq<u8>)>::empty());
        assert(map_of(entries_view(out@)) =~= map_of(av.take(0)).union_prefer_right(
            map_of(bv.take(0)),
        ));
    }
    while i < a.len() || j < b.len()
        invariant
            av == entries_view(a@),
            bv == entries_view(b@),
            0 <= i <= av.len(),
            0 <= j <= bv.len(),
            sorted_strict(av),
            sorted_strict(bv),
            sorted_strict(entries_view(out@)),
            map_of(entries_view(out@)) == map_of(av.take(i as int)).union_prefer_right(
                map_of(bv.take(j as int)),
            ),
            entries_view(out@).len() > 0 ==> forall|p: int|
                i <= p < av.len() ==> key_lt(
                    entries_view(out@).last().0,
                    #[trigger] av[p].0,
                ),
            entries_view(out@).len() > 0 ==> forall|q: int|
                j <= q < bv.len() ==> key_lt(
                    entries_view(out@).last().0,
                    #[trigger] bv[q].0,
                ),
            forall|p: int, q: int|
                0 <= p < i && j <= q < bv.len() ==> key_lt(#[trigger] av[p].0, #[trigger] bv[q].0),
            forall|q: int, p: int|
                0 <= q < j && i <= p < av.len() ==> key_lt(#[trigger] bv[q].0, #[trigger] av[p].0),
        decreases av.len() + bv.len() - i - j,
    {
        let ghost ov = entries_view(out@);
        let ghost ma = map_of(av.take(i as int));
        let ghost mb = map_of(bv.take(j as int));
        let mut from_a = false;
        let mut from_b = false;
        if i < a.len() && j < b.len() {
            match key_compare(a[i].key.as_slice(), b[j].key.as_slice()) {
                KeyOrder::Less => {
                    from_a = true;
                },
                KeyOrder::Equal => {
                    from_a = true;
                    from_b = true;
                },
                KeyOrder::Greater => {
                    from_b = true;
                },
            }
        } else if i < a.len() {
            from_a = true;
        } else {
            from_b = true;
        }
        let e = if from_b {
            clone_entry(&b[j])
        } else {
            clone_entry(&a[i])
        };
        let ghost k = e.key@;
        let ghost v = e.value@;
        proof {
            if from_b {
                assert(bv[j as int].0 == k);
            } else {
                assert(av[i as int].0 == k);
            }
            // The emitted key is strictly above everything already out.
            if ov.len() > 0 {
                assert(key_lt(ov.last().0, k));
                assert forall|p: int| 0 <= p < ov.len() implies key_lt(ov[p].0, k) by {
                    if p < ov.len() - 1 {
                        lemma_key_lt_trans(ov[p].0, ov.last().0, k);
                    }
                }
            }
            assert(entries_view(out@.push(e)) =~= ov.push((k, v)));
            assert(ov.push((k, v)).drop_last() =~= ov);
            assert(sorted_strict(ov.push((k, v))));
        }
        out.push(e);
        if from_a {
            proof {
                assert(av.take(i + 1).drop_last() =~= av.take(i as int));
                assert(av.take(i + 1).last() == av[i as int]);
            }
            i = i + 1;
        }
        if from_b {
            proof {
                assert(bv.take(j + 1).drop_last() =~= bv.take(j as int));
                assert(bv.take(j + 1).last() == bv[j as int]);
            }
            j = j + 1;
        }
        proof {
            let ov2 = entries_view(out@);
            assert(ov2 == ov.push((k, v)));
            assert(map_of(ov2) == map_of(ov).insert(k, v));
            lemma_map_of_domain(av.take(i as int), k);
            lemma_map_of_domain(bv.take(j as int), k);
            assert(map_of(ov2) =~= map_of(av.take(i as int)).union_prefer_right(
                map_of(bv.take(j as int)),
            )) by {
                if from_a && from_b {
                    assert(map_of(av.take(i as int)) == ma.insert(k, av[i - 1].1));
                    assert(map_of(bv.take(j as int)) == mb.insert(k, v));
                } else if from_a {
                    assert(map_of(av.take(i as int)) == ma.insert(k, v));
                    // k is not a key of b's consumed prefix.
                    assert(!mb.contains_key(k)) by {
                        lemma_map_of_domain(bv.take(j as int), k);
                        if seq_has_key(bv.take(j as int), k) {
                            let q = choose|q: int|
                                0 <= q < j && #[trigger] bv.take(j as int)[q].0 == k;
                            assert(bv[q].0 == k);
                            assert(key_lt(bv[q].0, av[(i - 1) as int].0));
                            lemma_key_lt_irrefl(k);
                        }
                    }
                } else {
                    assert(map_of(bv.take(j as int)) == mb.insert(k, v));
                }
            }
            // The frontier and cross-run order facts for the next round.
            assert(ov2.last().0 == k);
            assert forall|p: int| i <= p < av.len() implies key_lt(ov2.last().0, #[trigger] av[p].0) by {
                if from_a {
                    assert(av[(i - 1) as int].0 == k);
                } else {
                    // k came from b and is strictly below a's current key.
                    assert(key_lt(k, av[i as int].0));
                    if p > i {
                        lemma_key_lt_trans(k, av[i as int].0, av[p].0);
                    }
                }
            }
            assert forall|q: int| j <= q < bv.len() implies key_lt(ov2.last().0, #[trigger] bv[q].0) by {
                if from_b {
                    assert(bv[(j - 1) as int].0 == k);
                } else {
                    assert(key_lt(k, bv[j as int].0));
                    if q > j {
                        lemma_key_lt_trans(k, bv[j as int].0, bv[q].0);
                    }
                }
            }
            assert forall|p: int, q: int| 0 <= p < i && j <= q < bv.len() implies key_lt(
                #[trigger] av[p].0,
                #[trigger] bv[q].0,
            ) by {
                if from_a && p == i - 1 {
                    assert(av[p].0 == k);
                    if from_b {
                        assert(bv[(j - 1) as int].0 == k);
                    } else {
                        assert(key_lt(k, bv[j as int].0));
                        if q > j {
                            lemma_key_lt_trans(k, bv[j as int].0, bv[q].0);
                        }
                    }
                }
            }
            assert forall|q: int, p: int| 0 <= q < j && i <= p < av.len() implies key_lt(
                #[trigger] bv[q].0,
                #[trigger] av[p].0,
            ) by {
                if from_b && q == j - 1 {
                    assert(bv[q].0 == k);
                    if from_a {
                        assert(av[(i - 1) as int].0 == k);
                    } else {
                        assert(key_lt(k, av[i as int].0));
                        if p > i {
                            lemma_key_lt_trans(k, av[i as int].0, av[p].0);
                        }
                    }
                }
            }
        }
    }
    proof {
        assert(av.take(i as int) =~= av);
        assert(bv.take(j as int) =~= bv);
    }
    out
}

/// Merge any number of sorted runs, given oldest first; the newest run
/// holding a key supplies its value.
pub fn merge_runs(inputs: &Vec<Vec<Entry>>) -> (out: Vec<Entry>)
    requires
        forall|i: int|
            0 <= i < inputs@.len() ==> sorted_strict(entries_view(#[trigger] inputs@[i]@)),
    ensures
        sorted_strict(entries_view(out@)),
        map_of(entries_view(out@)) == merged_map(inputs@, inputs@.len() as int),
{
    let mut out: Vec<Entry> = Vec::new();
    proof {
        assert(entries_view(out@) =~= Seq::<(Seq<u8>, Seq<u8>)>::empty());
    }
    let n = inputs.len();
    let mut i: usize = 0;
    while i < n
        invariant
            0 <= i <= n,
            n == inputs@.len(),
            forall|p: int|
                0 <= p < inputs@.len() ==> sorted_strict(entries_view(#[trigger] inputs@[p]@)),
            sorted_strict(entries_view(out@)),
            map_of(entries_view(out@)) == merged_map(inputs@, i as int),
        decreases n - i,
    {
        out = merge_two(&out, &inputs[i]);
        i = i + 1;
    }
    out
}

} // verus!
