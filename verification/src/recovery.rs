use vstd::prelude::*;
use crate::codec::{CompactionAction, StoreError};
use crate::manifest::{paths_view, renames_view};
use crate::paths::{pad_digits, parse_name};

verus! {

/// A directory as the engine sees it: file name to file content.
pub type DirModel = Map<Seq<u8>, Seq<u8>>;

/// Deleting listed paths, in order; a path that is absent is skipped, which
/// the model's total `remove` already expresses.
pub open spec fn apply_deletes(dir: DirModel, dels: Seq<Seq<u8>>) -> DirModel
    decreases dels.len(),
{
    if dels.len() == 0 {
        dir
    } else {
        apply_deletes(dir.remove(dels.first()), dels.drop_first())
    }
}

/// Renaming listed pairs, in order; a rename whose source is absent is
/// skipped.
pub open spec fn apply_renames(dir: DirModel, rens: Seq<(Seq<u8>, Seq<u8>)>) -> DirModel
    decreases rens.len(),
{
    if rens.len() == 0 {
        dir
    } else {
        let src = rens.first().0;
        let dst = rens.first().1;
        let step = if dir.contains_key(src) {
            dir.remove(src).insert(dst, dir[src])
        } else {
            dir
        };
        apply_renames(step, rens.drop_first())
    }
}

/// What replaying one manifest does to a directory: deletes, then renames,
/// as recovery performs them.
pub open spec fn apply_action_model(dir: DirModel, rens: Seq<(Seq<u8>, Seq<u8>)>, dels: Seq<
    Seq<u8>,
>) -> DirModel {
    apply_renames(apply_deletes(dir, dels), rens)
}

/// The manifests the engine writes touch distinct files: no rename lands on
/// a source or a deleted path, and nothing renames a file onto itself.
pub open spec fn action_wf(rens: Seq<(Seq<u8>, Seq<u8>)>, dels: Seq<Seq<u8>>) -> bool {
    &&& forall|i: int, j: int|
        0 <= i < rens.len() && 0 <= j < rens.len() ==> (#[trigger] rens[i].1) != (
        #[trigger] rens[j].0)
    &&& forall|i: int, j: int|
        0 <= i < rens.len() && 0 <= j < dels.len() ==> (#[trigger] rens[i].0) != (
        #[trigger] dels[j]) && rens[i].1 != dels[j]
}

proof fn lemma_deletes_remove_keys(dir: DirModel, dels: Seq<Seq<u8>>)
    ensures
        apply_deletes(dir, dels) == dir.remove_keys(dels.to_set()),
    decreases dels.len(),
{
    if dels.len() == 0 {
        assert(dir.remove_keys(dels.to_set()) =~= dir);
    } else {
        lemma_deletes_remove_keys(dir.remove(dels.first()), dels.drop_first());
        assert(dels.drop_first().to_set().insert(dels.first()) =~= dels.to_set()) by {
            assert forall|x: Seq<u8>| dels.to_set().contains(x) implies dels.drop_first(
            ).to_set().contains(x) || x == dels.first() by {
                let i = choose|i: int| 0 <= i < dels.len() && dels[i] == x;
                if i > 0 {
                    assert(dels.drop_first()[i - 1] == x);
                }
            }
            assert forall|x: Seq<u8>| dels.drop_first().to_set().contains(x) implies
                dels.to_set().contains(x) by {
                let i = choose|i: int| 0 <= i < dels.drop_first().len() && dels.drop_first()[i]
                    == x;
                assert(dels[i + 1] == x);
            }
        }
        assert(dir.remove(dels.first()).remove_keys(dels.drop_first().to_set())
            =~= dir.remove_keys(dels.to_set()));
    }
}

/// A key that is absent and is no rename destination stays absent.
proof fn lemma_renames_keep_absent(dir: DirModel, rens: Seq<(Seq<u8>, Seq<u8>)>, k: Seq<u8>)
    requires
        !dir.contains_key(k),
        forall|i: int| 0 <= i < rens.len() ==> (#[trigger] rens[i].1) != k,
    ensures
        !apply_renames(dir, rens).contains_key(k),
    decreases rens.len(),
{
    if rens.len() > 0 {
        assert(rens[0].1 != k);
        let step = if dir.contains_key(rens.first().0) {
            dir.remove(rens.first().0).insert(rens.first().1, dir[rens.first().0])
        } else {
            dir
        };
        assert(forall|i: int|
            0 <= i < rens.drop_first().len() ==> (#[trigger] rens.drop_first()[i].1) == rens[i
                + 1].1);
        lemma_renames_keep_absent(step, rens.drop_first(), k);
    }
}

/// Renames with no live source change nothing.
proof fn lemma_renames_noop(dir: DirModel, rens: Seq<(Seq<u8>, Seq<u8>)>)
    requires
        forall|i: int| 0 <= i < rens.len() ==> !dir.contains_key(#[trigger] rens[i].0),
    ensures
        apply_renames(dir, rens) == dir,
    decreases rens.len(),
{
    if rens.len() > 0 {
        assert(!dir.contains_key(rens[0].0));
        assert(forall|i: int|
            0 <= i < rens.drop_first().len() ==> (#[trigger] rens.drop_first()[i]) == rens[i + 1]);
        lemma_renames_noop(dir, rens.drop_first());
    }
}

/// After applying the renames, no source is present, provided no rename
/// lands on a source.
proof fn lemma_renames_clear_sources(dir: DirModel, rens: Seq<(Seq<u8>, Seq<u8>)>)
    requires
        forall|i: int, j: int|
            0 <= i < rens.len() && 0 <= j < rens.len() ==> (#[trigger] rens[i].1) != (
            #[trigger] rens[j].0),
    ensures
        forall|j: int|
            0 <= j < rens.len() ==> !apply_renames(dir, rens).contains_key(#[trigger] rens[j].0),
    decreases rens.len(),
{
    if rens.len() > 0 {
        let src = rens.first().0;
        let step = if dir.contains_key(src) {
            dir.remove(src).insert(rens.first().1, dir[src])
        } else {
            dir
        };
        assert(forall|i: int|
            0 <= i < rens.drop_first().len() ==> (#[trigger] rens.drop_first()[i]) == rens[i + 1]);
        lemma_renames_clear_sources(step, rens.drop_first());
        assert(!step.contains_key(src)) by {
            assert(rens[0].1 != rens[0].0);
        }
        assert forall|i: int| 0 <= i < rens.drop_first().len() implies (
        #[trigger] rens.drop_first()[i].1) != src by {
            assert(rens[i + 1].1 != rens[0].0);
        }
        lemma_renames_keep_absent(step, rens.drop_first(), src);
        assert forall|j: int| 0 <= j < rens.len() implies !apply_renames(dir, rens).contains_key(
            #[trigger] rens[j].0,
        ) by {
            if j > 0 {
                assert(rens.drop_first()[j - 1].0 == rens[j].0);
            }
        }
    }
}

/// Applying a manifest twice leaves the directory exactly as applying it
/// once: skipped renames and skipped deletes make replay safe at any point.
pub proof fn lemma_apply_action_idempotent(dir: DirModel, rens: Seq<(Seq<u8>, Seq<u8>)>, dels: Seq<
    Seq<u8>,
>)
    requires
        action_wf(rens, dels),
    ensures
        apply_action_model(apply_action_model(dir, rens, dels), rens, dels) == apply_action_model(
            dir,
            rens,
            dels,
        ),
{
    let once = apply_action_model(dir, rens, dels);
    let d1 = apply_deletes(dir, dels);
    // No deleted path survives the first application.
    assert forall|j: int| 0 <= j < dels.len() implies !once.contains_key(#[trigger] dels[j]) by {
        lemma_deletes_remove_keys(dir, dels);
        assert(!d1.contains_key(dels[j]));
        assert forall|i: int| 0 <= i < rens.len() implies (#[trigger] rens[i].1) != dels[j] by {
            assert(rens[i].0 == rens[i].0);
        }
        lemma_renames_keep_absent(d1, rens, dels[j]);
    }
    // So the second round of deletes is a no-op ...
    lemma_deletes_remove_keys(once, dels);
    assert(apply_deletes(once, dels) =~= once) by {
        assert forall|k: Seq<u8>| once.contains_key(k) implies !dels.to_set().contains(k) by {
            if dels.to_set().contains(k) {
                let j = choose|j: int| 0 <= j < dels.len() && dels[j] == k;
            }
        }
    }
    // ... and so is the second round of renames: every source is gone.
    lemma_renames_clear_sources(d1, rens);
    lemma_renames_noop(once, rens);
}

/// What recovery decides to do. The manifest indices come from the listing
/// as given; the segment and WAL fields describe the directory after the
/// named manifests have been replayed.
pub struct RecoveryPlan {
    /// Indices of manifest files to replay and remove, ascending.
    pub manifest_indices: Vec<u64>,
    /// Indices of the live segments, ascending.
    pub segment_indices: Vec<u64>,
    /// The next segment index a flush will use.
    pub write_sstable_index: u64,
    /// Index of a WAL whose flush never finished, to be flushed now.
    pub stale_wal_index: Option<u64>,
    /// Index of the WAL to reopen or create, the engine's memtable index.
    pub wal_index: u64,
    /// All WAL indices seen at open, ascending; at most two.
    pub wal_indices: Vec<u64>,
}

pub open spec fn name_is(n: Seq<u8>, i: u64, ext: Seq<u8>) -> bool {
    n == pad_digits(i as int, 20) + ext
}

/// Sorted, duplicate-free indices of the listing's names with extension
/// `ext`; exactly the names of that shape are counted.
pub open spec fn indices_of(listing: Seq<Seq<u8>>, r: Seq<u64>, ext: Seq<u8>) -> bool {
    &&& forall|a: int, b: int| 0 <= a < b < r.len() ==> r[a] < r[b]
    &&& forall|a: int|
        0 <= a < r.len() ==> listing.contains(pad_digits((#[trigger] r[a]) as int, 20) + ext)
    &&& forall|n: int, i: u64|
        0 <= n < listing.len() && #[trigger] name_is(listing[n], i, ext) ==> r.contains(i)
}

/// Collect, sort and deduplicate the indices of names `{i:020}<ext>`.
pub fn collect_indices(listing: &Vec<Vec<u8>>, ext: &[u8]) -> (r: Vec<u64>)
    ensures
        indices_of(crate::manifest::paths_view(listing@), r@, ext@),
{
    let ghost lv = crate::manifest::paths_view(listing@);
    let mut r: Vec<u64> = Vec::new();
    let mut n: usize = 0;
    while n < listing.len()
        invariant
            0 <= n <= listing@.len(),
            lv == crate::manifest::paths_view(listing@),
            lv.len() == listing@.len(),
            forall|a: int, b: int| 0 <= a < b < r@.len() ==> r@[a] < r@[b],
            forall|a: int|
                0 <= a < r@.len() ==> lv.contains(pad_digits((#[trigger] r@[a]) as int, 20) + ext@),
            forall|m: int, i: u64|
                0 <= m < n && #[trigger] name_is(lv[m], i, ext@) ==> r@.contains(i),
        decreases listing@.len() - n,
    {
        match parse_name(listing[n].as_slice(), ext) {
            Some(i) => {
                let ghost old_r = r@;
                let mut pos: usize = 0;
                let mut dup = false;
                while pos < r.len()
                    invariant
                        0 <= pos <= r@.len(),
                        r@ == old_r,
                        dup == (exists|a: int| 0 <= a < pos && r@[a] == i),
                    decreases r@.len() - pos,
                {
                    if r[pos] == i {
                        dup = true;
                        proof {
                            assert(r@[pos as int] == i);
                        }
                    }
                    pos = pos + 1;
                }
                let mut at: usize = 0;
                if !dup {
                    // Insert in sorted position.
                    while at < r.len() && r[at] < i
                        invariant
                            0 <= at <= r@.len(),
                            r@ == old_r,
                            forall|a: int, b: int| 0 <= a < b < r@.len() ==> r@[a] < r@[b],
                            forall|a: int| 0 <= a < at ==> r@[a] < i,
                        decreases r@.len() - at,
                    {
                        at = at + 1;
                    }
                    proof {
                        if at < r@.len() {
                            assert(!(r@[at as int] < i));
                            assert(!(exists|a: int| 0 <= a < r@.len() && r@[a] == i));
                            assert(r@[at as int] != i);
                        }
                    }
                    r.insert(at, i);
                    proof {
                        assert forall|a: int, b: int| 0 <= a < b < r@.len() implies r@[a]
                            < r@[b] by {
                            if a < at && b == at {
                            } else if a == at && b > at {
                                assert(r@[b] == old_r[b - 1]);
                            } else if a < at && b > at {
                                assert(r@[b] == old_r[b - 1]);
                            } else if a > at && b > at {
                                assert(r@[a] == old_r[a - 1]);
                                assert(r@[b] == old_r[b - 1]);
                            }
                        }
                    }
                }
                proof {
                    assert(r@.contains(i)) by {
                        if dup {
                            let a = choose|a: int| 0 <= a < old_r.len() && old_r[a] == i;
                            assert(r@[a] == i);
                        } else {
                            assert(r@[at as int] == i);
                        }
                    }
                    assert forall|m: int, x: u64|
                        0 <= m < n + 1 && #[trigger] name_is(lv[m], x, ext@) implies r@.contains(
                        x,
                    ) by {
                        if m < n {
                            let a = choose|a: int| 0 <= a < old_r.len() && old_r[a] == x;
                            if !dup {
                                if a < at {
                                    assert(r@[a] == x);
                                } else {
                                    assert(r@[a + 1] == x);
                                }
                            }
                        } else {
                            assert(lv[m] == pad_digits(i as int, 20) + ext@);
                            crate::paths::lemma_name_num_inj(i, x, ext@);
                        }
                    }
                    assert forall|a: int| 0 <= a < r@.len() implies lv.contains(
                        pad_digits((#[trigger] r@[a]) as int, 20) + ext@,
                    ) by {
                        if r@[a] == i {
                            assert(lv[n as int] == pad_digits(i as int, 20) + ext@);
                        } else {
                            let aa: int = if !dup && a >= at {
                                a - 1
                            } else {
                                a
                            };
                            assert(0 <= aa < old_r.len() && old_r[aa] == r@[a]);
                        }
                    }
                }
            },
            None => {
                proof {
                    assert forall|m: int, x: u64|
                        0 <= m < n + 1 && #[trigger] name_is(lv[m], x, ext@) implies r@.contains(
                        x,
                    ) by {}
                }
            },
        }
        n = n + 1;
    }
    r
}



/// A directory listing with one name removed; removing an absent name
/// changes nothing.
pub open spec fn remove_name(names: Seq<Seq<u8>>, n: Seq<u8>) -> Seq<Seq<u8>> {
    names.filter(|x: Seq<u8>| x != n)
}

/// One rename on a listing: when the source is present it leaves and the
/// destination is present afterwards (a rename overwrites); when the source
/// is absent the rename is skipped.
pub open spec fn rename_name(names: Seq<Seq<u8>>, src: Seq<u8>, dst: Seq<u8>) -> Seq<Seq<u8>> {
    if names.contains(src) {
        remove_name(remove_name(names, src), dst).push(dst)
    } else {
        names
    }
}

pub open spec fn apply_deletes_listing(names: Seq<Seq<u8>>, dels: Seq<Seq<u8>>) -> Seq<Seq<u8>>
    decreases dels.len(),
{
    if dels.len() == 0 {
        names
    } else {
        apply_deletes_listing(remove_name(names, dels.first()), dels.drop_first())
    }
}

pub open spec fn apply_renames_listing(names: Seq<Seq<u8>>, rens: Seq<(Seq<u8>, Seq<u8>)>) -> Seq<
    Seq<u8>,
>
    decreases rens.len(),
{
    if rens.len() == 0 {
        names
    } else {
        apply_renames_listing(
            rename_name(names, rens.first().0, rens.first().1),
            rens.drop_first(),
        )
    }
}

/// What replaying one manifest leaves in the directory listing: deletes,
/// then renames, as recovery performs them.
pub open spec fn apply_action_listing(names: Seq<Seq<u8>>, rens: Seq<(Seq<u8>, Seq<u8>)>, dels: Seq<
    Seq<u8>,
>) -> Seq<Seq<u8>> {
    apply_renames_listing(apply_deletes_listing(names, dels), rens)
}

/// The listing after every given manifest has been replayed, in order.
pub open spec fn apply_actions_listing(names: Seq<Seq<u8>>, actions: Seq<CompactionAction>) -> Seq<
    Seq<u8>,
>
    decreases actions.len(),
{
    if actions.len() == 0 {
        names
    } else {
        apply_actions_listing(
            apply_action_listing(
                names,
                renames_view(actions.first().renames@),
                paths_view(actions.first().deletes@),
            ),
            actions.drop_first(),
        )
    }
}

/// Is this exact name in the listing?
fn contains_name(names: &Vec<Vec<u8>>, n: &Vec<u8>) -> (r: bool)
    ensures
        r == paths_view(names@).contains(n@),
{
    let ghost lv = paths_view(names@);
    let mut k: usize = 0;
    let mut found = false;
    while k < names.len()
        invariant
            0 <= k <= names@.len(),
            lv == paths_view(names@),
            lv.len() == names@.len(),
            found == (exists|y: int| 0 <= y < k && lv[y] == n@),
        decreases names@.len() - k,
    {
        match crate::keys::key_compare(names[k].as_slice(), n.as_slice()) {
            crate::keys::KeyOrder::Equal => {
                found = true;
                proof {
                    assert(lv[k as int] == n@);
                }
            },
            _ => {
                proof {
                    assert(lv[k as int] != n@);
                }
            },
        }
        k = k + 1;
    }
    found
}

/// The listing without any occurrence of the given name.
fn remove_name_exec(names: &Vec<Vec<u8>>, n: &Vec<u8>) -> (r: Vec<Vec<u8>>)
    ensures
        paths_view(r@) == remove_name(paths_view(names@), n@),
{
    let ghost lv = paths_view(names@);
    let ghost pred = |x: Seq<u8>| x != n@;
    let mut r: Vec<Vec<u8>> = Vec::new();
    let mut k: usize = 0;
    proof {
        assert(lv.take(0) =~= Seq::<Seq<u8>>::empty());
        reveal(Seq::filter);
        assert(paths_view(r@) =~= lv.take(0).filter(pred));
    }
    while k < names.len()
        invariant
            0 <= k <= names@.len(),
            lv == paths_view(names@),
            lv.len() == names@.len(),
            paths_view(r@) == lv.take(k as int).filter(|x: Seq<u8>| x != n@),
        decreases names@.len() - k,
    {
        let ghost old_rv = paths_view(r@);
        let keep = match crate::keys::key_compare(names[k].as_slice(), n.as_slice()) {
            crate::keys::KeyOrder::Equal => false,
            _ => true,
        };
        if keep {
            r.push(crate::codec::clone_bytes(&names[k]));
        }
        proof {
            let pr = |x: Seq<u8>| x != n@;
            assert(lv.take(k + 1).drop_last() =~= lv.take(k as int));
            assert(lv.take(k + 1).last() == lv[k as int]);
            reveal(Seq::filter);
            if keep {
                assert(lv[k as int] != n@);
                assert(paths_view(r@) =~= old_rv.push(lv[k as int]));
                assert(lv.take(k + 1).filter(pr) =~= lv.take(k as int).filter(pr).push(
                    lv[k as int],
                ));
            } else {
                assert(lv[k as int] == n@);
                assert(lv.take(k + 1).filter(pr) =~= lv.take(k as int).filter(pr));
            }
        }
        k = k + 1;
    }
    proof {
        assert(lv.take(lv.len() as int) =~= lv);
    }
    r
}

/// Replay one manifest on a listing: remove the deleted names, then move
/// each renamed name whose source is present.
fn apply_action_exec(names: Vec<Vec<u8>>, action: &CompactionAction) -> (r: Vec<Vec<u8>>)
    ensures
        paths_view(r@) == apply_action_listing(
            paths_view(names@),
            renames_view(action.renames@),
            paths_view(action.deletes@),
        ),
{
    let ghost lv0 = paths_view(names@);
    let ghost dv = paths_view(action.deletes@);
    let ghost rv = renames_view(action.renames@);
    let mut cur = names;
    let mut k: usize = 0;
    proof {
        assert(dv.skip(0) =~= dv);
    }
    while k < action.deletes.len()
        invariant
            0 <= k <= action.deletes@.len(),
            dv == paths_view(action.deletes@),
            dv.len() == action.deletes@.len(),
            apply_deletes_listing(lv0, dv) == apply_deletes_listing(
                paths_view(cur@),
                dv.skip(k as int),
            ),
        decreases action.deletes@.len() - k,
    {
        proof {
            assert(dv.skip(k as int).first() == dv[k as int]);
            assert(dv.skip(k as int).drop_first() =~= dv.skip(k + 1));
        }
        cur = remove_name_exec(&cur, &action.deletes[k]);
        k = k + 1;
    }
    proof {
        assert(dv.skip(dv.len() as int) =~= Seq::<Seq<u8>>::empty());
        assert(apply_deletes_listing(lv0, dv) == paths_view(cur@));
    }
    let ghost mid = paths_view(cur@);
    let mut t: usize = 0;
    proof {
        assert(rv.skip(0) =~= rv);
    }
    while t < action.renames.len()
        invariant
            0 <= t <= action.renames@.len(),
            rv == renames_view(action.renames@),
            rv.len() == action.renames@.len(),
            apply_renames_listing(mid, rv) == apply_renames_listing(
                paths_view(cur@),
                rv.skip(t as int),
            ),
        decreases action.renames@.len() - t,
    {
        proof {
            assert(rv.skip(t as int).first() == rv[t as int]);
            assert(rv.skip(t as int).drop_first() =~= rv.skip(t + 1));
        }
        let ghost before = paths_view(cur@);
        if contains_name(&cur, &action.renames[t].0) {
            cur = remove_name_exec(&cur, &action.renames[t].0);
            cur = remove_name_exec(&cur, &action.renames[t].1);
            let dst = crate::codec::clone_bytes(&action.renames[t].1);
            proof {
                assert(paths_view(cur@.push(dst)) =~= paths_view(cur@).push(dst@));
            }
            cur.push(dst);
            proof {
                assert(paths_view(cur@) =~= rename_name(before, rv[t as int].0, rv[t as int].1));
            }
        } else {
            proof {
                assert(paths_view(cur@) == rename_name(before, rv[t as int].0, rv[t as int].1));
            }
        }
        t = t + 1;
    }
    proof {
        assert(rv.skip(rv.len() as int) =~= Seq::<(Seq<u8>, Seq<u8>)>::empty());
        assert(apply_renames_listing(mid, rv) == paths_view(cur@));
    }
    cur
}


proof fn lemma_remove_name_member(ns: Seq<Seq<u8>>, n: Seq<u8>, m: Seq<u8>)
    ensures
        remove_name(ns, n).contains(m) == (ns.contains(m) && m != n),
    decreases ns.len(),
{
    reveal(Seq::filter);
    let r = remove_name(ns, n);
    if ns.len() == 0 {
    } else {
        lemma_remove_name_member(ns.drop_last(), n, m);
        let rd = remove_name(ns.drop_last(), n);
        if ns.last() != n {
            assert(r == rd.push(ns.last()));
            assert(r.contains(m) == (rd.contains(m) || ns.last() == m)) by {
                if rd.contains(m) {
                    let i = choose|i: int| 0 <= i < rd.len() && rd[i] == m;
                    assert(r[i] == m);
                }
                if ns.last() == m {
                    assert(r[r.len() - 1] == m);
                }
                if r.contains(m) {
                    let i = choose|i: int| 0 <= i < r.len() && r[i] == m;
                    if i < r.len() - 1 {
                        assert(rd[i] == m);
                    }
                }
            }
        } else {
            assert(r == rd);
        }
        assert(ns.contains(m) == (ns.drop_last().contains(m) || ns.last() == m)) by {
            if ns.drop_last().contains(m) {
                let i = choose|i: int| 0 <= i < ns.drop_last().len() && ns.drop_last()[i] == m;
                assert(ns[i] == m);
            }
            if ns.last() == m {
                assert(ns[ns.len() - 1] == m);
            }
            if ns.contains(m) {
                let i = choose|i: int| 0 <= i < ns.len() && ns[i] == m;
                if i < ns.len() - 1 {
                    assert(ns.drop_last()[i] == m);
                }
            }
        }
    }
}

proof fn lemma_remove_absent_noop(ns: Seq<Seq<u8>>, n: Seq<u8>)
    requires
        !ns.contains(n),
    ensures
        remove_name(ns, n) == ns,
    decreases ns.len(),
{
    reveal(Seq::filter);
    let pred = |y: Seq<u8>| y != n;
    if ns.len() > 0 {
        assert(!ns.drop_last().contains(n)) by {
            if ns.drop_last().contains(n) {
                let i = choose|i: int| 0 <= i < ns.drop_last().len() && ns.drop_last()[i] == n;
                assert(ns[i] == n);
            }
        }
        lemma_remove_absent_noop(ns.drop_last(), n);
        assert(ns[ns.len() - 1] != n);
        assert(remove_name(ns, n) =~= ns);
    } else {
        assert(remove_name(ns, n) =~= ns);
    }
}

/// Deleting names that are all absent changes nothing.
proof fn lemma_deletes_absent_noop(ns: Seq<Seq<u8>>, dels: Seq<Seq<u8>>)
    requires
        forall|j: int| 0 <= j < dels.len() ==> !ns.contains(#[trigger] dels[j]),
    ensures
        apply_deletes_listing(ns, dels) == ns,
    decreases dels.len(),
{
    if dels.len() > 0 {
        assert(!ns.contains(dels[0]));
        lemma_remove_absent_noop(ns, dels.first());
        assert(forall|j: int|
            0 <= j < dels.drop_first().len() ==> (#[trigger] dels.drop_first()[j]) == dels[j + 1]);
        lemma_deletes_absent_noop(ns, dels.drop_first());
    }
}

/// Renames whose sources are all absent change nothing.
proof fn lemma_renames_absent_noop(ns: Seq<Seq<u8>>, rens: Seq<(Seq<u8>, Seq<u8>)>)
    requires
        forall|j: int| 0 <= j < rens.len() ==> !ns.contains((#[trigger] rens[j]).0),
    ensures
        apply_renames_listing(ns, rens) == ns,
    decreases rens.len(),
{
    if rens.len() > 0 {
        assert(!ns.contains(rens[0].0));
        assert(forall|j: int|
            0 <= j < rens.drop_first().len() ==> (#[trigger] rens.drop_first()[j]) == rens[j + 1]);
        lemma_renames_absent_noop(ns, rens.drop_first());
    }
}

/// A name that is absent stays absent through deletes.
proof fn lemma_deletes_keep_absent_listing(ns: Seq<Seq<u8>>, dels: Seq<Seq<u8>>, k: Seq<u8>)
    requires
        !ns.contains(k),
    ensures
        !apply_deletes_listing(ns, dels).contains(k),
    decreases dels.len(),
{
    if dels.len() > 0 {
        lemma_remove_name_member(ns, dels.first(), k);
        lemma_deletes_keep_absent_listing(remove_name(ns, dels.first()), dels.drop_first(), k);
    }
}

/// A deleted name is absent after the deletes run.
proof fn lemma_deletes_kill(ns: Seq<Seq<u8>>, dels: Seq<Seq<u8>>, j: int)
    requires
        0 <= j < dels.len(),
    ensures
        !apply_deletes_listing(ns, dels).contains(dels[j]),
    decreases dels.len(),
{
    if j == 0 {
        lemma_remove_name_member(ns, dels.first(), dels[0]);
        lemma_deletes_keep_absent_listing(remove_name(ns, dels.first()), dels.drop_first(), dels[0]);
    } else {
        lemma_deletes_kill(remove_name(ns, dels.first()), dels.drop_first(), j - 1);
        assert(dels.drop_first()[j - 1] == dels[j]);
    }
}

/// A name that is absent and is no rename destination stays absent through
/// renames.
proof fn lemma_renames_keep_absent_listing(ns: Seq<Seq<u8>>, rens: Seq<(Seq<u8>, Seq<u8>)>, k: Seq<
    u8,
>)
    requires
        !ns.contains(k),
        forall|j: int| 0 <= j < rens.len() ==> (#[trigger] rens[j]).1 != k,
    ensures
        !apply_renames_listing(ns, rens).contains(k),
    decreases rens.len(),
{
    if rens.len() > 0 {
        assert(rens[0].1 != k);
        let step = rename_name(ns, rens.first().0, rens.first().1);
        assert(!step.contains(k)) by {
            if ns.contains(rens.first().0) {
                lemma_remove_name_member(ns, rens.first().0, k);
                lemma_remove_name_member(remove_name(ns, rens.first().0), rens.first().1, k);
                assert(!remove_name(remove_name(ns, rens.first().0), rens.first().1).contains(k));
                if step.contains(k) {
                    let i = choose|i: int| 0 <= i < step.len() && step[i] == k;
                    if i < step.len() - 1 {
                        assert(remove_name(remove_name(ns, rens.first().0), rens.first().1)[i]
                            == k);
                    }
                }
            }
        }
        assert(forall|j: int|
            0 <= j < rens.drop_first().len() ==> (#[trigger] rens.drop_first()[j]) == rens[j + 1]);
        lemma_renames_keep_absent_listing(step, rens.drop_first(), k);
    }
}

/// After the renames run, no source is present, provided no rename lands on
/// a source.
proof fn lemma_renames_clear_sources_listing(ns: Seq<Seq<u8>>, rens: Seq<(Seq<u8>, Seq<u8>)>)
    requires
        forall|i: int, j: int|
            0 <= i < rens.len() && 0 <= j < rens.len() ==> (#[trigger] rens[i]).1 != (
            #[trigger] rens[j]).0,
    ensures
        forall|j: int|
            0 <= j < rens.len() ==> !apply_renames_listing(ns, rens).contains(
                (#[trigger] rens[j]).0,
            ),
    decreases rens.len(),
{
    if rens.len() > 0 {
        let src = rens.first().0;
        let dst = rens.first().1;
        let step = rename_name(ns, src, dst);
        assert(!step.contains(src)) by {
            assert(rens[0].1 != rens[0].0);
            if ns.contains(src) {
                lemma_remove_name_member(ns, src, src);
                lemma_remove_name_member(remove_name(ns, src), dst, src);
                if step.contains(src) {
                    let i = choose|i: int| 0 <= i < step.len() && step[i] == src;
                    if i < step.len() - 1 {
                        assert(remove_name(remove_name(ns, src), dst)[i] == src);
                    }
                }
            } else {
                assert(step == ns);
            }
        }
        assert(forall|j: int|
            0 <= j < rens.drop_first().len() ==> (#[trigger] rens.drop_first()[j]) == rens[j + 1]);
        lemma_renames_clear_sources_listing(step, rens.drop_first());
        assert forall|j: int| 0 <= j < rens.drop_first().len() implies (
        #[trigger] rens.drop_first()[j]).1 != src by {
            assert(rens[j + 1].1 != rens[0].0);
        }
        lemma_renames_keep_absent_listing(step, rens.drop_first(), src);
        assert forall|j: int| 0 <= j < rens.len() implies !apply_renames_listing(
            ns,
            rens,
        ).contains((#[trigger] rens[j]).0) by {
            if j > 0 {
                assert(rens.drop_first()[j - 1].0 == rens[j].0);
            }
        }
    }
}

/// Replaying a manifest twice leaves the directory listing exactly as
/// replaying it once: recovery interrupted between replay and manifest
/// removal settles, on the next run, on the same directory.
pub proof fn lemma_apply_listing_idempotent(ns: Seq<Seq<u8>>, rens: Seq<(Seq<u8>, Seq<u8>)>, dels: Seq<
    Seq<u8>,
>)
    requires
        action_wf(rens, dels),
    ensures
        apply_action_listing(apply_action_listing(ns, rens, dels), rens, dels)
            == apply_action_listing(ns, rens, dels),
{
    let once = apply_action_listing(ns, rens, dels);
    let d1 = apply_deletes_listing(ns, dels);
    // No deleted name survives the first replay.
    assert forall|j: int| 0 <= j < dels.len() implies !once.contains(#[trigger] dels[j]) by {
        lemma_deletes_kill(ns, dels, j);
        assert forall|i: int| 0 <= i < rens.len() implies (#[trigger] rens[i]).1 != dels[j] by {
            assert(rens[i].0 == rens[i].0);
        }
        lemma_renames_keep_absent_listing(d1, rens, dels[j]);
    }
    // So the second round of deletes is a no-op ...
    lemma_deletes_absent_noop(once, dels);
    // ... and so is the second round of renames: every source is gone.
    lemma_renames_clear_sources_listing(d1, rens);
    lemma_renames_absent_noop(once, rens);
}

/// A listing in which no name has the given shape yields the empty index
/// list: on an already-recovered directory (no pending manifest, one WAL)
/// recovery decides to do nothing, so running it again changes nothing.
pub proof fn lemma_no_matches_no_indices(lv: Seq<Seq<u8>>, r: Seq<u64>, ext: Seq<u8>)
    requires
        indices_of(lv, r, ext),
        forall|n: int, i: u64| 0 <= n < lv.len() ==> !(#[trigger] name_is(lv[n], i, ext)),
    ensures
        r.len() == 0,
{
    if r.len() > 0 {
        let x = pad_digits(r[0] as int, 20) + ext;
        assert(lv.contains(x));
        let n = choose|n: int| 0 <= n < lv.len() && lv[n] == x;
        assert(name_is(lv[n], r[0], ext));
    }
}

/// Decide recovery, as the engine does at open. The caller lists the
/// directory once, reads and decodes each pending manifest the listing
/// names, replays and removes them, and hands the decoded manifests here:
/// segments and WAL files are then discovered in the listing *as replay
/// leaves it*, so a committed-but-uninstalled compaction contributes its
/// output, not its consumed inputs. A manifest that does not decode is only
/// removed and contributes no action. The caller then flushes a stale WAL
/// if one is named, and adopts the remaining WAL index.
pub fn build_recovery_plan(listing: &Vec<Vec<u8>>, actions: &Vec<CompactionAction>) -> (r: Result<
    RecoveryPlan,
    StoreError,
>)
    ensures
        match r {
            Ok(plan) => {
                let lv = paths_view(listing@);
                let post = apply_actions_listing(lv, actions@);
                &&& indices_of(lv, plan.manifest_indices@, crate::paths::spec_ext_compact_action())
                &&& indices_of(post, plan.segment_indices@, crate::paths::spec_ext_data())
                &&& indices_of(post, plan.wal_indices@, crate::paths::spec_ext_memtable())
                &&& (plan.segment_indices@.len() == 0 ==> plan.write_sstable_index == 0)
                &&& (plan.segment_indices@.len() > 0 ==> plan.write_sstable_index
                    == plan.segment_indices@.last() + 1)
                &&& plan.wal_indices@.len() <= 2
                &&& (plan.wal_indices@.len() == 0 ==> plan.stale_wal_index is None
                    && plan.wal_index == 0)
                &&& (plan.wal_indices@.len() == 1 ==> plan.stale_wal_index is None
                    && plan.wal_index == plan.wal_indices@[0])
                &&& (plan.wal_indices@.len() == 2 ==> plan.stale_wal_index == Some(
                    plan.wal_indices@[0],
                ) && plan.wal_index == plan.wal_indices@[1])
            },
            Err(e) => e is InvariantViolation && ((exists|w: Seq<u64>|
                #[trigger] indices_of(
                    apply_actions_listing(paths_view(listing@), actions@),
                    w,
                    crate::paths::spec_ext_memtable(),
                ) && w.len() > 2) || (exists|sg: Seq<u64>|
                #[trigger] indices_of(
                    apply_actions_listing(paths_view(listing@), actions@),
                    sg,
                    crate::paths::spec_ext_data(),
                ) && sg.len() > 0 && sg.last() == u64::MAX)),
        },
{
    let ghost lv0 = paths_view(listing@);
    let ext_a = crate::paths::ext_compact_action();
    let manifest_indices = collect_indices(listing, ext_a.as_slice());
    // Replay the decoded manifests on the listing, in order, to see the
    // directory as recovery leaves it.
    let mut names: Vec<Vec<u8>> = Vec::new();
    let mut c: usize = 0;
    proof {
        assert(paths_view(names@) =~= lv0.take(0));
    }
    while c < listing.len()
        invariant
            0 <= c <= listing@.len(),
            lv0 == paths_view(listing@),
            lv0.len() == listing@.len(),
            paths_view(names@) == lv0.take(c as int),
        decreases listing@.len() - c,
    {
        let ghost old_nv = paths_view(names@);
        names.push(crate::codec::clone_bytes(&listing[c]));
        proof {
            assert(paths_view(names@) =~= old_nv.push(lv0[c as int]));
            assert(lv0.take(c + 1) =~= lv0.take(c as int).push(lv0[c as int]));
        }
        c = c + 1;
    }
    proof {
        assert(lv0.take(lv0.len() as int) =~= lv0);
        assert(actions@.skip(0) =~= actions@);
    }
    let mut t: usize = 0;
    while t < actions.len()
        invariant
            0 <= t <= actions@.len(),
            apply_actions_listing(lv0, actions@) == apply_actions_listing(
                paths_view(names@),
                actions@.skip(t as int),
            ),
        decreases actions@.len() - t,
    {
        proof {
            assert(actions@.skip(t as int).first() == actions@[t as int]);
            assert(actions@.skip(t as int).drop_first() =~= actions@.skip(t + 1));
        }
        names = apply_action_exec(names, &actions[t]);
        t = t + 1;
    }
    proof {
        assert(actions@.skip(actions@.len() as int) =~= Seq::<CompactionAction>::empty());
        assert(apply_actions_listing(lv0, actions@) == paths_view(names@));
    }
    let ext_d = crate::paths::ext_data();
    let segment_indices = collect_indices(&names, ext_d.as_slice());
    let ext_m = crate::paths::ext_memtable();
    let wal_indices = collect_indices(&names, ext_m.as_slice());
    let write_sstable_index: u64 = if segment_indices.len() == 0 {
        0
    } else {
        let m = segment_indices[segment_indices.len() - 1];
        if m == u64::MAX {
            proof {
                assert(indices_of(
                    apply_actions_listing(paths_view(listing@), actions@),
                    segment_indices@,
                    crate::paths::spec_ext_data(),
                ) && segment_indices@.len() > 0 && segment_indices@.last() == u64::MAX);
            }
            return Err(StoreError::InvariantViolation);
        }
        m + 1
    };
    let (stale_wal_index, wal_index): (Option<u64>, u64) = if wal_indices.len() == 0 {
        (None, 0)
    } else if wal_indices.len() == 1 {
        (None, wal_indices[0])
    } else if wal_indices.len() == 2 {
        // The older WAL belongs to a flush that never finished.
        (Some(wal_indices[0]), wal_indices[1])
    } else {
        proof {
            assert(indices_of(
                apply_actions_listing(paths_view(listing@), actions@),
                wal_indices@,
                crate::paths::spec_ext_memtable(),
            ) && wal_indices@.len() > 2);
        }
        return Err(StoreError::InvariantViolation);
    };
    Ok(
        RecoveryPlan {
            manifest_indices,
            segment_indices,
            write_sstable_index,
            stale_wal_index,
            wal_index,
            wal_indices,
        },
    )
}

} // verus!
