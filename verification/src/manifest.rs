use vstd::prelude::*;
use vstd::bytes::{spec_u64_to_le_bytes, u64_to_le_bytes, u64_from_le_bytes,
    lemma_auto_spec_u64_to_from_le_bytes, spec_u64_from_le_bytes};
use vstd::slice::slice_subrange;
use crate::codec::{decode_bytes_at, spec_decode_bytes, spec_encode_bytes,
    lemma_decode_encode_bytes, CompactionAction, StoreError};

verus! {

pub open spec fn renames_view(v: Seq<(Vec<u8>, Vec<u8>)>) -> Seq<(Seq<u8>, Seq<u8>)> {
    v.map(|i: int, p: (Vec<u8>, Vec<u8>)| (p.0@, p.1@))
}

pub open spec fn paths_view(v: Seq<Vec<u8>>) -> Seq<Seq<u8>> {
    v.map(|i: int, p: Vec<u8>| p@)
}

/// Encoding of a run of length-prefixed paths.
pub open spec fn spec_encode_paths(s: Seq<Seq<u8>>) -> Seq<u8>
    decreases s.len(),
{
    if s.len() == 0 {
        Seq::empty()
    } else {
        spec_encode_bytes(s.first()) + spec_encode_paths(s.drop_first())
    }
}

/// Encoding of a run of rename pairs, source path then destination path.
pub open spec fn spec_encode_renames(s: Seq<(Seq<u8>, Seq<u8>)>) -> Seq<u8>
    decreases s.len(),
{
    if s.len() == 0 {
        Seq::empty()
    } else {
        spec_encode_bytes(s.first().0) + spec_encode_bytes(s.first().1) + spec_encode_renames(
            s.drop_first(),
        )
    }
}

/// The manifest wire format: a count of renames, the rename pairs, a count
/// of deletes, the delete paths.
pub open spec fn spec_encode_action(r: Seq<(Seq<u8>, Seq<u8>)>, d: Seq<Seq<u8>>) -> Seq<u8> {
    spec_u64_to_le_bytes(r.len() as u64) + spec_encode_renames(r) + spec_u64_to_le_bytes(
        d.len() as u64,
    ) + spec_encode_paths(d)
}

proof fn lemma_encode_paths_take(s: Seq<Seq<u8>>, i: int)
    requires
        0 <= i < s.len(),
    ensures
        spec_encode_paths(s.take(i + 1)) == spec_encode_paths(s.take(i)) + spec_encode_bytes(s[i]),
    decreases i,
{
    if i == 0 {
        assert(s.take(1).drop_first() =~= s.take(0));
        assert(s.take(1).first() == s[0]);
        assert(spec_encode_paths(s.take(0)) =~= Seq::<u8>::empty());
        assert(spec_encode_paths(s.take(1)) =~= spec_encode_bytes(s[0]));
        assert(spec_encode_paths(s.take(0)) + spec_encode_bytes(s[0]) =~= spec_encode_bytes(s[0]));
    } else {
        lemma_encode_paths_take(s.drop_first(), i - 1);
        assert(s.take(i + 1).drop_first() =~= s.drop_first().take(i));
        assert(s.take(i).drop_first() =~= s.drop_first().take(i - 1));
        assert(s.take(i + 1).first() == s.first());
        assert(s.take(i).first() == s.first());
        assert(s.drop_first()[i - 1] == s[i]);
        assert(spec_encode_bytes(s.first()) + (spec_encode_paths(s.drop_first().take(i - 1))
            + spec_encode_bytes(s[i])) =~= (spec_encode_bytes(s.first()) + spec_encode_paths(
            s.drop_first().take(i - 1),
        )) + spec_encode_bytes(s[i]));
    }
}

proof fn lemma_encode_renames_take(s: Seq<(Seq<u8>, Seq<u8>)>, i: int)
    requires
        0 <= i < s.len(),
    ensures
        spec_encode_renames(s.take(i + 1)) == spec_encode_renames(s.take(i)) + spec_encode_bytes(
            s[i].0,
        ) + spec_encode_bytes(s[i].1),
    decreases i,
{
    if i == 0 {
        assert(s.take(1).drop_first() =~= s.take(0));
        assert(s.take(1).first() == s[0]);
        assert(spec_encode_renames(s.take(0)) =~= Seq::<u8>::empty());
        assert(spec_encode_renames(s.take(1)) =~= spec_encode_bytes(s[0].0) + spec_encode_bytes(
            s[0].1,
        ));
        assert(spec_encode_renames(s.take(0)) + spec_encode_bytes(s[0].0) + spec_encode_bytes(
            s[0].1,
        ) =~= spec_encode_bytes(s[0].0) + spec_encode_bytes(s[0].1));
    } else {
        lemma_encode_renames_take(s.drop_first(), i - 1);
        assert(s.take(i + 1).drop_first() =~= s.drop_first().take(i));
        assert(s.take(i).drop_first() =~= s.drop_first().take(i - 1));
        assert(s.take(i + 1).first() == s.first());
        assert(s.take(i).first() == s.first());
        assert(s.drop_first()[i - 1] == s[i]);
        let head = spec_encode_bytes(s.first().0) + spec_encode_bytes(s.first().1);
        assert(head + (spec_encode_renames(s.drop_first().take(i - 1)) + spec_encode_bytes(s[i].0)
            + spec_encode_bytes(s[i].1)) =~= ((head + spec_encode_renames(
            s.drop_first().take(i - 1),
        )) + spec_encode_bytes(s[i].0)) + spec_encode_bytes(s[i].1));
    }
}


/// Greedy decode of `count` length-prefixed paths starting at `pos`.
pub open spec fn spec_decode_paths(b: Seq<u8>, pos: int, count: int) -> Option<(Seq<Seq<u8>>, int)>
    decreases count,
{
    if count <= 0 {
        Some((Seq::empty(), pos))
    } else {
        match spec_decode_bytes(b, pos) {
            Some((p, next)) => match spec_decode_paths(b, next, count - 1) {
                Some((rest, end)) => Some((seq![p] + rest, end)),
                None => None,
            },
            None => None,
        }
    }
}

/// Greedy decode of `count` rename pairs starting at `pos`.
pub open spec fn spec_decode_renames(b: Seq<u8>, pos: int, count: int) -> Option<
    (Seq<(Seq<u8>, Seq<u8>)>, int),
>
    decreases count,
{
    if count <= 0 {
        Some((Seq::empty(), pos))
    } else {
        match spec_decode_bytes(b, pos) {
            Some((src, p1)) => match spec_decode_bytes(b, p1) {
                Some((dst, p2)) => match spec_decode_renames(b, p2, count - 1) {
                    Some((rest, end)) => Some((seq![(src, dst)] + rest, end)),
                    None => None,
                },
                None => None,
            },
            None => None,
        }
    }
}

/// What a whole manifest buffer denotes; trailing bytes make it malformed.
pub open spec fn spec_decode_action(b: Seq<u8>) -> Option<
    (Seq<(Seq<u8>, Seq<u8>)>, Seq<Seq<u8>>),
> {
    if b.len() >= 8 {
        let n = spec_u64_from_le_bytes(b.subrange(0, 8)) as int;
        match spec_decode_renames(b, 8, n) {
            Some((rens, pos)) => if pos + 8 <= b.len() {
                let m = spec_u64_from_le_bytes(b.subrange(pos, pos + 8)) as int;
                match spec_decode_paths(b, pos + 8, m) {
                    Some((dels, end)) => if end == b.len() {
                        Some((rens, dels))
                    } else {
                        None
                    },
                    None => None,
                }
            } else {
                None
            },
            None => None,
        }
    } else {
        None
    }
}

proof fn lemma_decode_encode_renames(b: Seq<u8>, pos: int, r: Seq<(Seq<u8>, Seq<u8>)>)
    requires
        0 <= pos,
        forall|i: int|
            0 <= i < r.len() ==> (#[trigger] r[i]).0.len() <= u64::MAX && r[i].1.len() <= u64::MAX,
        pos + spec_encode_renames(r).len() <= b.len(),
        b.subrange(pos, pos + spec_encode_renames(r).len() as int) == spec_encode_renames(r),
    ensures
        spec_decode_renames(b, pos, r.len() as int) == Some(
            (r, pos + spec_encode_renames(r).len()),
        ),
    decreases r.len(),
{
    lemma_auto_spec_u64_to_from_le_bytes();
    if r.len() > 0 {
        assert forall|i: int| 0 <= i < r.drop_first().len() implies (
        #[trigger] r.drop_first()[i]).0.len() <= u64::MAX && r.drop_first()[i].1.len()
            <= u64::MAX by {
            assert(r[i + 1] == r.drop_first()[i]);
        }
        let e0 = spec_encode_bytes(r.first().0);
        let e1 = spec_encode_bytes(r.first().1);
        let rest = spec_encode_renames(r.drop_first());
        let enc = spec_encode_renames(r);
        assert(enc =~= e0 + e1 + rest);
        assert(b.subrange(pos, pos + e0.len() as int) =~= enc.subrange(0, e0.len() as int));
        assert(enc.subrange(0, e0.len() as int) =~= e0);
        lemma_decode_encode_bytes(b, pos, r.first().0);
        let p1 = pos + e0.len();
        assert(b.subrange(p1, p1 + e1.len() as int) =~= enc.subrange(
            e0.len() as int,
            e0.len() + e1.len() as int,
        ));
        assert(enc.subrange(e0.len() as int, e0.len() + e1.len() as int) =~= e1);
        lemma_decode_encode_bytes(b, p1, r.first().1);
        let p2 = p1 + e1.len();
        assert(b.subrange(p2, p2 + rest.len() as int) =~= enc.subrange(
            e0.len() + e1.len() as int,
            enc.len() as int,
        ));
        assert(enc.subrange(e0.len() + e1.len() as int, enc.len() as int) =~= rest);
        lemma_decode_encode_renames(b, p2, r.drop_first());
        assert(seq![(r.first().0, r.first().1)] + r.drop_first() =~= r);
    }
}

proof fn lemma_decode_encode_paths(b: Seq<u8>, pos: int, d: Seq<Seq<u8>>)
    requires
        0 <= pos,
        forall|i: int| 0 <= i < d.len() ==> (#[trigger] d[i]).len() <= u64::MAX,
        pos + spec_encode_paths(d).len() <= b.len(),
        b.subrange(pos, pos + spec_encode_paths(d).len() as int) == spec_encode_paths(d),
    ensures
        spec_decode_paths(b, pos, d.len() as int) == Some((d, pos + spec_encode_paths(d).len())),
    decreases d.len(),
{
    lemma_auto_spec_u64_to_from_le_bytes();
    if d.len() > 0 {
        assert forall|i: int| 0 <= i < d.drop_first().len() implies (
        #[trigger] d.drop_first()[i]).len() <= u64::MAX by {
            assert(d[i + 1] == d.drop_first()[i]);
        }
        let e0 = spec_encode_bytes(d.first());
        let rest = spec_encode_paths(d.drop_first());
        let enc = spec_encode_paths(d);
        assert(enc =~= e0 + rest);
        assert(b.subrange(pos, pos + e0.len() as int) =~= enc.subrange(0, e0.len() as int));
        assert(enc.subrange(0, e0.len() as int) =~= e0);
        lemma_decode_encode_bytes(b, pos, d.first());
        let p1 = pos + e0.len();
        assert(b.subrange(p1, p1 + rest.len() as int) =~= enc.subrange(
            e0.len() as int,
            enc.len() as int,
        ));
        assert(enc.subrange(e0.len() as int, enc.len() as int) =~= rest);
        lemma_decode_encode_paths(b, p1, d.drop_first());
        assert(seq![d.first()] + d.drop_first() =~= d);
    }
}

/// A manifest read back from its own encoding is the manifest that was
/// written: recovery replays exactly what compaction committed.
pub proof fn lemma_action_round_trip(r: Seq<(Seq<u8>, Seq<u8>)>, d: Seq<Seq<u8>>)
    requires
        r.len() <= u64::MAX,
        d.len() <= u64::MAX,
        forall|i: int|
            0 <= i < r.len() ==> (#[trigger] r[i]).0.len() <= u64::MAX && r[i].1.len() <= u64::MAX,
        forall|i: int| 0 <= i < d.len() ==> (#[trigger] d[i]).len() <= u64::MAX,
    ensures
        spec_decode_action(spec_encode_action(r, d)) == Some((r, d)),
{
    lemma_auto_spec_u64_to_from_le_bytes();
    let b = spec_encode_action(r, d);
    let er = spec_encode_renames(r);
    let ed = spec_encode_paths(d);
    let h1 = spec_u64_to_le_bytes(r.len() as u64);
    let h2 = spec_u64_to_le_bytes(d.len() as u64);
    assert(b =~= h1 + er + h2 + ed);
    assert(b.subrange(0, 8) =~= h1);
    assert(b.subrange(8, 8 + er.len() as int) =~= er);
    lemma_decode_encode_renames(b, 8, r);
    let pos = 8 + er.len() as int;
    assert(b.subrange(pos, pos + 8) =~= h2);
    assert(b.subrange(pos + 8, pos + 8 + ed.len() as int) =~= ed);
    lemma_decode_encode_paths(b, pos + 8, d);
}

/// Encode a compaction manifest.
pub fn encode_action(a: &CompactionAction) -> (out: Vec<u8>)
    ensures
        out@ == spec_encode_action(renames_view(a.renames@), paths_view(a.deletes@)),
{
    let ghost rv = renames_view(a.renames@);
    let ghost dv = paths_view(a.deletes@);
    let mut out: Vec<u8> = Vec::new();
    let mut n = u64_to_le_bytes(a.renames.len() as u64);
    out.append(&mut n);
    let mut i: usize = 0;
    proof {
        assert(rv.take(0) =~= Seq::<(Seq<u8>, Seq<u8>)>::empty());
        assert(out@ =~= spec_u64_to_le_bytes(rv.len() as u64) + spec_encode_renames(rv.take(0)));
    }
    while i < a.renames.len()
        invariant
            0 <= i <= a.renames@.len(),
            rv == renames_view(a.renames@),
            rv.len() == a.renames@.len(),
            out@ == spec_u64_to_le_bytes(rv.len() as u64) + spec_encode_renames(rv.take(i as int)),
        decreases a.renames@.len() - i,
    {
        let ghost old_out = out@;
        let mut src = u64_to_le_bytes(a.renames[i].0.len() as u64);
        out.append(&mut src);
        out.extend_from_slice(a.renames[i].0.as_slice());
        let mut dst = u64_to_le_bytes(a.renames[i].1.len() as u64);
        out.append(&mut dst);
        out.extend_from_slice(a.renames[i].1.as_slice());
        proof {
            lemma_encode_renames_take(rv, i as int);
            assert(rv[i as int] == (a.renames@[i as int].0@, a.renames@[i as int].1@));
            assert(out@ =~= old_out + spec_encode_bytes(rv[i as int].0) + spec_encode_bytes(
                rv[i as int].1,
            ));
            assert(out@ =~= spec_u64_to_le_bytes(rv.len() as u64) + spec_encode_renames(
                rv.take(i + 1),
            ));
        }
        i = i + 1;
    }
    proof {
        assert(rv.take(rv.len() as int) =~= rv);
    }
    let mut m = u64_to_le_bytes(a.deletes.len() as u64);
    out.append(&mut m);
    let ghost mid = out@;
    let mut j: usize = 0;
    proof {
        assert(dv.take(0) =~= Seq::<Seq<u8>>::empty());
        assert(out@ =~= mid + spec_encode_paths(dv.take(0)));
    }
    while j < a.deletes.len()
        invariant
            0 <= j <= a.deletes@.len(),
            dv == paths_view(a.deletes@),
            dv.len() == a.deletes@.len(),
            out@ == mid + spec_encode_paths(dv.take(j as int)),
        decreases a.deletes@.len() - j,
    {
        let ghost old_out = out@;
        let mut len_bytes = u64_to_le_bytes(a.deletes[j].len() as u64);
        out.append(&mut len_bytes);
        out.extend_from_slice(a.deletes[j].as_slice());
        proof {
            lemma_encode_paths_take(dv, j as int);
            assert(dv[j as int] == a.deletes@[j as int]@);
            assert(out@ =~= old_out + spec_encode_bytes(dv[j as int]));
            assert(out@ =~= mid + spec_encode_paths(dv.take(j + 1)));
        }
        j = j + 1;
    }
    proof {
        assert(dv.take(dv.len() as int) =~= dv);
        assert(out@ =~= spec_encode_action(rv, dv));
    }
    out
}

/// Decode a manifest; trailing bytes or any short field reject the record.
/// What is returned is precisely a manifest whose encoding is the input, and
/// a buffer is rejected exactly when it decodes as no manifest.
pub fn decode_action(b: &[u8]) -> (r: Result<CompactionAction, StoreError>)
    ensures
        match r {
            Ok(a) => b@ == spec_encode_action(renames_view(a.renames@), paths_view(a.deletes@))
                && spec_decode_action(b@) == Some(
                (renames_view(a.renames@), paths_view(a.deletes@)),
            ) && renames_view(a.renames@).len() <= u64::MAX && paths_view(a.deletes@).len()
                <= u64::MAX,
            Err(_) => spec_decode_action(b@) is None,
        },
{
    proof {
        lemma_auto_spec_u64_to_from_le_bytes();
    }
    if b.len() < 8 {
        return Err(StoreError::CorruptRecord);
    }
    let n_renames = u64_from_le_bytes(slice_subrange(b, 0, 8));
    let mut pos: usize = 8;
    let mut renames: Vec<(Vec<u8>, Vec<u8>)> = Vec::new();
    let ghost rv0 = renames_view(renames@);
    proof {
        assert(rv0.take(0) =~= Seq::<(Seq<u8>, Seq<u8>)>::empty());
        assert(b@.subrange(0, 8) =~= b@.take(8));
        assert(b@.take(pos as int) =~= spec_u64_to_le_bytes(n_renames) + spec_encode_renames(
            renames_view(renames@).take(0),
        ));
    }
    let mut i: u64 = 0;
    while i < n_renames
        invariant
            0 <= pos <= b@.len(),
            8 <= b@.len(),
            n_renames == spec_u64_from_le_bytes(b@.subrange(0, 8)),
            i <= n_renames,
            renames_view(renames@).len() == i,
            b@.take(pos as int) == spec_u64_to_le_bytes(n_renames) + spec_encode_renames(
                renames_view(renames@),
            ),
            spec_decode_renames(b@, 8, n_renames as int) == (match spec_decode_renames(
                b@,
                pos as int,
                n_renames - i,
            ) {
                Some(t) => Some((renames_view(renames@) + t.0, t.1)),
                None => None,
            }),
        decreases n_renames - i,
    {
        let ghost old_rv = renames_view(renames@);
        let ghost old_pos = pos as int;
        let (src, p1) = match decode_bytes_at(b, pos) {
            Ok(x) => x,
            Err(e) => {
                proof {
                    assert(spec_decode_renames(b@, old_pos, n_renames - i) is None);
                    assert(spec_decode_action(b@) is None);
                }
                return Err(e);
            },
        };
        let (dst, p2) = match decode_bytes_at(b, p1) {
            Ok(x) => x,
            Err(e) => {
                proof {
                    assert(spec_decode_renames(b@, old_pos, n_renames - i) is None);
                    assert(spec_decode_action(b@) is None);
                }
                return Err(e);
            },
        };
        proof {
            lemma_auto_spec_u64_to_from_le_bytes();
            assert(b@.subrange(old_pos, old_pos + 8).len() == 8);
            assert(src@.len() == spec_u64_from_le_bytes(b@.subrange(old_pos, old_pos + 8)) as int);
            assert(spec_u64_to_le_bytes(src@.len() as u64) == b@.subrange(old_pos, old_pos + 8));
            assert(b@.subrange(old_pos + 8, old_pos + 8 + src@.len() as int) == src@);
            assert(b@.subrange(old_pos, p1 as int) =~= b@.subrange(old_pos, old_pos + 8)
                + b@.subrange(old_pos + 8, p1 as int));
            assert(b@.subrange(old_pos, p1 as int) =~= spec_encode_bytes(src@));
            assert(b@.subrange(p1 as int, p1 as int + 8).len() == 8);
            assert(dst@.len() == spec_u64_from_le_bytes(b@.subrange(p1 as int, p1 as int + 8)) as int);
            assert(spec_u64_to_le_bytes(dst@.len() as u64) == b@.subrange(p1 as int, p1 as int + 8));
            assert(b@.subrange(p1 as int, p2 as int) =~= b@.subrange(p1 as int, p1 as int + 8)
                + b@.subrange(p1 as int + 8, p2 as int));
            assert(b@.subrange(p1 as int, p2 as int) =~= spec_encode_bytes(dst@));
        }
        renames.push((src, dst));
        pos = p2;
        proof {
            let rv = renames_view(renames@);
            assert(rv =~= old_rv.push((rv[i as int].0, rv[i as int].1)));
            assert(rv.take(i as int) =~= old_rv);
            lemma_encode_renames_take(rv, i as int);
            assert(rv.take(i + 1) =~= rv);
            assert(b@.take(pos as int) =~= b@.take(old_pos) + spec_encode_bytes(rv[i as int].0)
                + spec_encode_bytes(rv[i as int].1));
            // One decoded pair moves the remaining spec decode one step on.
            match spec_decode_renames(b@, p2 as int, n_renames - i - 1) {
                Some(t) => {
                    assert(old_rv + (seq![(src@, dst@)] + t.0) =~= rv + t.0);
                },
                None => {},
            }
        }
        i = i + 1;
    }
    let ghost rv_done = renames_view(renames@);
    proof {
        assert(spec_decode_renames(b@, pos as int, 0) == Some(
            (Seq::<(Seq<u8>, Seq<u8>)>::empty(), pos as int),
        ));
        assert(rv_done + Seq::<(Seq<u8>, Seq<u8>)>::empty() =~= rv_done);
        assert(spec_decode_renames(b@, 8, n_renames as int) == Some((rv_done, pos as int)));
    }
    if b.len() < 8 || pos > b.len() - 8 {
        proof {
            assert(spec_decode_action(b@) is None);
        }
        return Err(StoreError::CorruptRecord);
    }
    let ghost rpos = pos as int;
    let n_deletes = u64_from_le_bytes(slice_subrange(b, pos, pos + 8));
    let ghost head = b@.take(pos as int) + spec_u64_to_le_bytes(n_deletes);
    pos = pos + 8;
    proof {
        assert(b@.take(pos as int) =~= head);
    }
    let mut deletes: Vec<Vec<u8>> = Vec::new();
    proof {
        assert(paths_view(deletes@).take(0) =~= Seq::<Seq<u8>>::empty());
        assert(b@.take(pos as int) =~= head + spec_encode_paths(paths_view(deletes@)));
    }
    let mut j: u64 = 0;
    while j < n_deletes
        invariant
            0 <= pos <= b@.len(),
            8 <= b@.len(),
            rpos + 8 <= b@.len(),
            n_renames == spec_u64_from_le_bytes(b@.subrange(0, 8)),
            spec_decode_renames(b@, 8, n_renames as int) == Some((rv_done, rpos)),
            n_deletes == spec_u64_from_le_bytes(b@.subrange(rpos, rpos + 8)),
            j <= n_deletes,
            paths_view(deletes@).len() == j,
            b@.take(pos as int) == head + spec_encode_paths(paths_view(deletes@)),
            spec_decode_paths(b@, rpos + 8, n_deletes as int) == (match spec_decode_paths(
                b@,
                pos as int,
                n_deletes - j,
            ) {
                Some(t) => Some((paths_view(deletes@) + t.0, t.1)),
                None => None,
            }),
        decreases n_deletes - j,
    {
        let ghost old_dv = paths_view(deletes@);
        let ghost old_pos = pos as int;
        let (path, p1) = match decode_bytes_at(b, pos) {
            Ok(x) => x,
            Err(e) => {
                proof {
                    assert(spec_decode_paths(b@, old_pos, n_deletes - j) is None);
                    assert(spec_decode_action(b@) is None);
                }
                return Err(e);
            },
        };
        proof {
            lemma_auto_spec_u64_to_from_le_bytes();
            assert(b@.subrange(old_pos, old_pos + 8).len() == 8);
            assert(path@.len() == spec_u64_from_le_bytes(b@.subrange(old_pos, old_pos + 8)) as int);
            assert(spec_u64_to_le_bytes(path@.len() as u64) == b@.subrange(old_pos, old_pos + 8));
            assert(b@.subrange(old_pos + 8, p1 as int) == path@);
            assert(b@.subrange(old_pos, p1 as int) =~= b@.subrange(old_pos, old_pos + 8)
                + b@.subrange(old_pos + 8, p1 as int));
            assert(b@.subrange(old_pos, p1 as int) =~= spec_encode_bytes(path@));
        }
        deletes.push(path);
        pos = p1;
        proof {
            let dv = paths_view(deletes@);
            assert(dv =~= old_dv.push(dv[j as int]));
            assert(dv.take(j as int) =~= old_dv);
            lemma_encode_paths_take(dv, j as int);
            assert(dv.take(j + 1) =~= dv);
            assert(b@.take(pos as int) =~= b@.take(old_pos) + spec_encode_bytes(dv[j as int]));
            match spec_decode_paths(b@, p1 as int, n_deletes - j - 1) {
                Some(t) => {
                    assert(old_dv + (seq![path@] + t.0) =~= dv + t.0);
                },
                None => {},
            }
        }
        j = j + 1;
    }
    proof {
        let dv = paths_view(deletes@);
        assert(spec_decode_paths(b@, pos as int, 0) == Some((Seq::<Seq<u8>>::empty(), pos as int)));
        assert(dv + Seq::<Seq<u8>>::empty() =~= dv);
        assert(spec_decode_paths(b@, rpos + 8, n_deletes as int) == Some((dv, pos as int)));
    }
    if pos != b.len() {
        proof {
            assert(spec_decode_action(b@) is None);
        }
        return Err(StoreError::CorruptRecord);
    }
    let a = CompactionAction { renames, deletes };
    proof {
        assert(b@.take(pos as int) =~= b@);
        assert(b@ =~= spec_encode_action(renames_view(a.renames@), paths_view(a.deletes@)));
    }
    Ok(a)
}

} // verus!
