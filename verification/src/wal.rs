use vstd::prelude::*;
use crate::codec::{decode_entry_at, encode_entry, Entry, spec_decode_entry, spec_encode_entry,
    lemma_decode_encode_entry};
use crate::memtable::Memtable;
use crate::model::{map_of, Pairs};

verus! {

/// The writes a WAL image holds, in write order: records are decoded one
/// after the other until the bytes run out or stop decoding.
pub open spec fn wal_pairs(b: Seq<u8>, pos: int) -> Pairs
    decreases b.len() - pos when 0 <= pos <= b.len()
{
    match spec_decode_entry(b, pos) {
        Some((k, v, end)) => if pos < end <= b.len() {
            seq![(k, v)] + wal_pairs(b, end)
        } else {
            Seq::empty()
        },
        None => Seq::empty(),
    }
}

/// A decoded record always advances the position and stays in bounds.
pub proof fn lemma_decode_advances(b: Seq<u8>, pos: int)
    requires
        0 <= pos <= b.len(),
        spec_decode_entry(b, pos) is Some,
    ensures
        pos < spec_decode_entry(b, pos).unwrap().2 <= b.len(),
{
}

/// Rebuild a memtable from a WAL image: decode records until the bytes stop
/// decoding, and apply each in order, the later write to a key winning.
pub fn replay_wal(bytes: &Vec<u8>, capacity: usize) -> (mt: Memtable)
    ensures
        mt.wf(),
        mt.spec_capacity() == capacity,
        map_of(mt@) == map_of(wal_pairs(bytes@, 0)),
{
    let mut mt = Memtable::new(capacity);
    let mut pos: usize = 0;
    let ghost done: Pairs = Seq::empty();
    proof {
        assert(map_of(mt@) =~= map_of(done));
    }
    let mut more = true;
    while more
        invariant
            0 <= pos <= bytes@.len(),
            mt.wf(),
            mt.spec_capacity() == capacity,
            map_of(mt@) == map_of(done),
            wal_pairs(bytes@, 0) == done + wal_pairs(bytes@, pos as int),
            !more ==> wal_pairs(bytes@, pos as int) == Seq::<(Seq<u8>, Seq<u8>)>::empty(),
        decreases bytes@.len() - pos, (if more { 1int } else { 0int }),
    {
        match decode_entry_at(bytes.as_slice(), pos) {
            Ok((e, next)) => {
                proof {
                    lemma_decode_advances(bytes@, pos as int);
                    let tail = wal_pairs(bytes@, pos as int);
                    assert(tail == seq![(e.key@, e.value@)] + wal_pairs(bytes@, next as int));
                    assert(done + tail =~= (done + seq![(e.key@, e.value@)]) + wal_pairs(
                        bytes@,
                        next as int,
                    ));
                    assert((done + seq![(e.key@, e.value@)]).drop_last() =~= done);
                }
                let ghost new_done = done + seq![(e.key@, e.value@)];
                mt.set(e.key, e.value);
                proof {
                    assert(map_of(new_done) == map_of(done).insert(
                        new_done.last().0,
                        new_done.last().1,
                    ));
                }
                pos = next;
                proof {
                    done = new_done;
                }
            },
            Err(_) => {
                more = false;
            },
        }
    }
    proof {
        assert(done + wal_pairs(bytes@, pos as int) =~= done);
    }
    mt
}


/// Decode a whole run of consecutive entries, as compaction reads a data
/// file back; decoding stops where the bytes do.
pub fn decode_run(bytes: &Vec<u8>) -> (r: Vec<Entry>)
    ensures
        crate::model::entries_view(r@) == wal_pairs(bytes@, 0),
{
    let mut out: Vec<Entry> = Vec::new();
    let mut pos: usize = 0;
    proof {
        assert(crate::model::entries_view(out@) =~= Seq::<(Seq<u8>, Seq<u8>)>::empty());
    }
    let mut more = true;
    while more
        invariant
            0 <= pos <= bytes@.len(),
            wal_pairs(bytes@, 0) == crate::model::entries_view(out@) + wal_pairs(
                bytes@,
                pos as int,
            ),
            !more ==> wal_pairs(bytes@, pos as int) == Seq::<(Seq<u8>, Seq<u8>)>::empty(),
        decreases bytes@.len() - pos, (if more {
            1int
        } else {
            0int
        }),
    {
        match decode_entry_at(bytes.as_slice(), pos) {
            Ok((e, next)) => {
                proof {
                    lemma_decode_advances(bytes@, pos as int);
                    let done = crate::model::entries_view(out@);
                    let tail = wal_pairs(bytes@, pos as int);
                    assert(tail == seq![(e.key@, e.value@)] + wal_pairs(bytes@, next as int));
                    assert(done + tail =~= (done + seq![(e.key@, e.value@)]) + wal_pairs(
                        bytes@,
                        next as int,
                    ));
                    assert(crate::model::entries_view(out@.push(e)) =~= done + seq![
                        (e.key@, e.value@)]);
                }
                out.push(e);
                pos = next;
            },
            Err(_) => {
                more = false;
            },
        }
    }
    proof {
        assert(crate::model::entries_view(out@) + wal_pairs(bytes@, pos as int)
            =~= crate::model::entries_view(out@));
    }
    out
}

/// Encode one write as it is appended to the WAL.
pub fn encode_wal_record(e: &Entry) -> (out: Vec<u8>)
    ensures
        out@ == spec_encode_entry(e.key@, e.value@),
{
    encode_entry(e)
}

/// The image of a whole WAL file after a run of writes: the concatenation of
/// the encoded records in write order.
pub open spec fn encode_wal(ps: Pairs) -> Seq<u8>
    decreases ps.len(),
{
    if ps.len() == 0 {
        Seq::empty()
    } else {
        spec_encode_entry(ps.first().0, ps.first().1) + encode_wal(ps.drop_first())
    }
}

proof fn lemma_decode_entry_shift(x: Seq<u8>, y: Seq<u8>, pos: int)
    requires
        0 <= pos <= y.len(),
    ensures
        spec_decode_entry(x + y, x.len() + pos) == match spec_decode_entry(y, pos) {
            Some((k, v, end)) => Some((k, v, x.len() + end)),
            None => None,
        },
{
    let b = x + y;
    let n = x.len() as int;
    assert forall|a: int, c: int| pos <= a <= c <= y.len() implies b.subrange(n + a, n + c)
        =~= y.subrange(a, c) by {}
}

proof fn lemma_wal_pairs_shift(x: Seq<u8>, y: Seq<u8>, pos: int)
    requires
        0 <= pos <= y.len(),
    ensures
        wal_pairs(x + y, x.len() + pos) == wal_pairs(y, pos),
    decreases y.len() - pos,
{
    lemma_decode_entry_shift(x, y, pos);
    match spec_decode_entry(y, pos) {
        Some((k, v, end)) => {
            lemma_decode_advances(y, pos);
            lemma_wal_pairs_shift(x, y, end);
            assert(wal_pairs(x + y, x.len() + pos) =~= wal_pairs(y, pos));
        },
        None => {},
    }
}

/// A WAL written as a run of encoded records reads back as exactly that run:
/// every acknowledged write is recovered, in order.
pub proof fn lemma_replay_encoded(ps: Pairs)
    requires
        forall|i: int| 0 <= i < ps.len() ==> ps[i].0.len() <= u64::MAX && ps[i].1.len() <= u64::MAX,
    ensures
        wal_pairs(encode_wal(ps), 0) == ps,
    decreases ps.len(),
{
    if ps.len() == 0 {
        assert(spec_decode_entry(encode_wal(ps), 0) is None);
        assert(wal_pairs(encode_wal(ps), 0) =~= ps);
    } else {
        let k = ps.first().0;
        let v = ps.first().1;
        let head = spec_encode_entry(k, v);
        let rest = encode_wal(ps.drop_first());
        let b = head + rest;
        assert(b.subrange(0, head.len() as int) =~= head);
        lemma_decode_encode_entry(b, 0, k, v);
        assert(forall|i: int|
            0 <= i < ps.drop_first().len() ==> ps.drop_first()[i].0.len() <= u64::MAX
                && ps.drop_first()[i].1.len() <= u64::MAX);
        lemma_replay_encoded(ps.drop_first());
        lemma_wal_pairs_shift(head, rest, 0);
        assert(wal_pairs(b, 0) =~= seq![(k, v)] + wal_pairs(b, head.len() as int));
        assert(seq![(k, v)] + ps.drop_first() =~= ps);
    }
}


/// Durability: replaying a WAL that holds a run of acknowledged writes
/// rebuilds exactly the mapping those writes left, the most recent write to
/// each key winning.
pub proof fn lemma_wal_durability(ps: Pairs)
    requires
        forall|i: int| 0 <= i < ps.len() ==> ps[i].0.len() <= u64::MAX && ps[i].1.len() <= u64::MAX,
    ensures
        map_of(wal_pairs(encode_wal(ps), 0)) == map_of(ps),
{
    lemma_replay_encoded(ps);
}


/// Appending one entry extends the image by that entry's encoding.
pub proof fn lemma_encode_wal_take(ps: Pairs, i: int)
    requires
        0 <= i < ps.len(),
    ensures
        encode_wal(ps.take(i + 1)) == encode_wal(ps.take(i)) + spec_encode_entry(
            ps[i].0,
            ps[i].1,
        ),
    decreases i,
{
    if i == 0 {
        assert(ps.take(1).drop_first() =~= ps.take(0));
        assert(ps.take(1).first() == ps[0]);
        assert(encode_wal(ps.take(0)) =~= Seq::<u8>::empty());
        assert(encode_wal(ps.take(1)) =~= spec_encode_entry(ps[0].0, ps[0].1));
        assert(encode_wal(ps.take(0)) + spec_encode_entry(ps[0].0, ps[0].1) =~= spec_encode_entry(
            ps[0].0,
            ps[0].1,
        ));
    } else {
        lemma_encode_wal_take(ps.drop_first(), i - 1);
        assert(ps.take(i + 1).drop_first() =~= ps.drop_first().take(i));
        assert(ps.take(i).drop_first() =~= ps.drop_first().take(i - 1));
        assert(ps.take(i + 1).first() == ps.first());
        assert(ps.take(i).first() == ps.first());
        assert(ps.drop_first()[i - 1] == ps[i]);
        let head = spec_encode_entry(ps.first().0, ps.first().1);
        assert(head + (encode_wal(ps.drop_first().take(i - 1)) + spec_encode_entry(
            ps[i].0,
            ps[i].1,
        )) =~= (head + encode_wal(ps.drop_first().take(i - 1))) + spec_encode_entry(
            ps[i].0,
            ps[i].1,
        ));
    }
}

} // verus!
