use vstd::prelude::*;
use crate::codec::{decode_entry, decode_offset_at, encode_entry, encode_offset, Entry,
    EntryOffset, StoreError, lemma_decode_encode_entry, lemma_decode_encode_offset,
    spec_decode_entry, spec_decode_offset, spec_encode_entry};
use crate::keys::{key_compare, key_lt, KeyOrder, lemma_key_lt_asym, lemma_key_lt_irrefl,
    lemma_key_lt_trans};
use crate::model::{entries_view, lemma_map_of_domain, lemma_sorted_lookup, lookup, map_of,
    seq_has_key, sorted_strict, Pairs};
use crate::wal::{encode_wal, lemma_encode_wal_take, lemma_replay_encoded, wal_pairs};
use vstd::slice::slice_subrange;

verus! {

/// Number of index records a segment index file holds.
pub open spec fn index_count(ib: Seq<u8>) -> int {
    ib.len() as int / 16
}

/// The entry that index record `i` points at, if the two files agree there:
/// the record must decode, point inside the data file, and the data bytes it
/// selects must decode to exactly one entry.
pub open spec fn entry_at(db: Seq<u8>, ib: Seq<u8>, i: int) -> Option<(Seq<u8>, Seq<u8>)> {
    match spec_decode_offset(ib, 16 * i) {
        Some((off, size)) => if off + size <= db.len() {
            match spec_decode_entry(db.subrange(off as int, off + size), 0) {
                Some((k, v, end)) => if end == size {
                    Some((k, v))
                } else {
                    None
                },
                None => None,
            }
        } else {
            None
        },
        None => None,
    }
}

/// A well-formed segment: the index is whole 16-byte records, every record
/// points at a decodable entry, and keys ascend strictly.
pub open spec fn segment_wf(db: Seq<u8>, ib: Seq<u8>) -> bool {
    &&& ib.len() % 16 == 0
    &&& forall|i: int| 0 <= i < index_count(ib) ==> entry_at(db, ib, i) is Some
    &&& forall|i: int, j: int|
        0 <= i < j < index_count(ib) ==> key_lt(
            entry_at(db, ib, i).unwrap().0,
            entry_at(db, ib, j).unwrap().0,
        )
}

/// The content a well-formed segment denotes.
pub open spec fn segment_pairs(db: Seq<u8>, ib: Seq<u8>) -> Pairs {
    Seq::new(index_count(ib) as nat, |i: int| entry_at(db, ib, i).unwrap())
}

pub proof fn lemma_segment_sorted(db: Seq<u8>, ib: Seq<u8>)
    requires
        segment_wf(db, ib),
    ensures
        sorted_strict(segment_pairs(db, ib)),
        segment_pairs(db, ib).len() == index_count(ib),
{
}

/// Stream a run of sorted entries into the paired (data, index) images.
/// The index gets one 16-byte record per entry; the data file is the
/// concatenation of the encoded entries at the recorded offsets.
pub fn build_segment(entries: &Vec<Entry>) -> (r: (Vec<u8>, Vec<u8>))
    requires
        sorted_strict(entries_view(entries@)),
    ensures
        segment_wf(r.0@, r.1@),
        segment_pairs(r.0@, r.1@) == entries_view(entries@),
        r.1@.len() == 16 * entries@.len(),
        r.0@ == encode_wal(entries_view(entries@)),
        // Record j holds the running offset, the prefix sum of the encoded
        // sizes before it, and the encoded size of entry j.
        forall|j: int|
            0 <= j < entries@.len() ==> spec_decode_offset(r.1@, 16 * j) is Some
                && spec_decode_offset(r.1@, 16 * j).unwrap().0 == encode_wal(
                entries_view(entries@).take(j),
            ).len() && spec_decode_offset(r.1@, 16 * j).unwrap().1 == spec_encode_entry(
                entries_view(entries@)[j].0,
                entries_view(entries@)[j].1,
            ).len(),
{
    let mut data: Vec<u8> = Vec::new();
    let mut index: Vec<u8> = Vec::new();
    let n = entries.len();
    let mut i: usize = 0;
    proof {
        assert(entries_view(entries@).take(0) =~= Seq::<(Seq<u8>, Seq<u8>)>::empty());
        assert(data@ =~= encode_wal(entries_view(entries@).take(0)));
    }
    while i < n
        invariant
            0 <= i <= n,
            n == entries@.len(),
            sorted_strict(entries_view(entries@)),
            index@.len() == 16 * i,
            data@ == encode_wal(entries_view(entries@).take(i as int)),
            forall|j: int| 0 <= j < i ==> entry_at(data@, index@, j) == Some(entries_view(entries@)[j]),
            forall|j: int|
                0 <= j < i ==> spec_decode_offset(index@, 16 * j) is Some
                    && spec_decode_offset(index@, 16 * j).unwrap().0 == encode_wal(
                    entries_view(entries@).take(j),
                ).len() && spec_decode_offset(index@, 16 * j).unwrap().1 == spec_encode_entry(
                    entries_view(entries@)[j].0,
                    entries_view(entries@)[j].1,
                ).len(),
        decreases n - i,
    {
        let ghost old_data = data@;
        let ghost old_index = index@;
        let e = &entries[i];
        let enc = encode_entry(e);
        let off: usize = data.len();
        let size: usize = enc.len();
        data.extend_from_slice(enc.as_slice());
        let rec = encode_offset(
            &EntryOffset { entry_offset: off as u64, entry_size: size as u64 },
        );
        index.extend_from_slice(rec.as_slice());
        proof {
            assert(data@ =~= old_data + enc@);
            assert(index@ =~= old_index + rec@);
            assert(index@.len() == 16 * (i + 1));
            // Old records and old data bytes are untouched by the appends.
            assert forall|j: int| 0 <= j < i implies entry_at(data@, index@, j) == Some(
                entries_view(entries@)[j],
            ) by {
                assert(entry_at(old_data, old_index, j) == Some(entries_view(entries@)[j]));
                assert(index@.subrange(16 * j, 16 * j + 8) =~= old_index.subrange(
                    16 * j,
                    16 * j + 8,
                ));
                assert(index@.subrange(16 * j + 8, 16 * j + 16) =~= old_index.subrange(
                    16 * j + 8,
                    16 * j + 16,
                ));
                assert(spec_decode_offset(index@, 16 * j) == spec_decode_offset(old_index, 16 * j));
                let (o, s) = spec_decode_offset(old_index, 16 * j).unwrap();
                assert(o + s <= old_data.len());
                assert(data@.subrange(o as int, o + s) =~= old_data.subrange(o as int, o + s));
            }
            assert forall|j: int| 0 <= j < i implies (#[trigger] spec_decode_offset(
                index@,
                16 * j,
            )) is Some && spec_decode_offset(index@, 16 * j).unwrap().0 == encode_wal(
                entries_view(entries@).take(j),
            ).len() && spec_decode_offset(index@, 16 * j).unwrap().1 == spec_encode_entry(
                entries_view(entries@)[j].0,
                entries_view(entries@)[j].1,
            ).len() by {
                assert(spec_decode_offset(old_index, 16 * j) is Some);
                assert(index@.subrange(16 * j, 16 * j + 8) =~= old_index.subrange(
                    16 * j,
                    16 * j + 8,
                ));
                assert(index@.subrange(16 * j + 8, 16 * j + 16) =~= old_index.subrange(
                    16 * j + 8,
                    16 * j + 16,
                ));
                assert(spec_decode_offset(index@, 16 * j) == spec_decode_offset(old_index, 16 * j));
            }
            // The new record decodes to (off, size) ...
            assert(index@.subrange(16 * i, 16 * i + 16) =~= rec@);
            lemma_decode_encode_offset(index@, 16 * i, off as u64, size as u64);
            assert(off == encode_wal(entries_view(entries@).take(i as int)).len());
            assert(size == spec_encode_entry(
                entries_view(entries@)[i as int].0,
                entries_view(entries@)[i as int].1,
            ).len());
            assert(spec_decode_offset(index@, 16 * (i as int)) == Some(
                (off as u64, size as u64),
            ));
            // ... and the new data bytes decode back to the entry.
            assert(data@.subrange(off as int, off + size) =~= enc@);
            let sub = data@.subrange(off as int, off + size);
            assert(sub.subrange(0, spec_encode_entry(e.key@, e.value@).len() as int) =~= sub);
            lemma_decode_encode_entry(sub, 0, e.key@, e.value@);
            assert(entry_at(data@, index@, i as int) == Some((e.key@, e.value@)));
            assert(entries_view(entries@)[i as int] == (e.key@, e.value@));
            lemma_encode_wal_take(entries_view(entries@), i as int);
            assert(data@ =~= encode_wal(entries_view(entries@).take(i + 1)));
        }
        i = i + 1;
    }
    proof {
        let db = data@;
        let ib = index@;
        assert(index_count(ib) == n);
        assert forall|a: int, b: int| 0 <= a < b < index_count(ib) implies key_lt(
            entry_at(db, ib, a).unwrap().0,
            entry_at(db, ib, b).unwrap().0,
        ) by {
            assert(entry_at(db, ib, a) == Some(entries_view(entries@)[a]));
            assert(entry_at(db, ib, b) == Some(entries_view(entries@)[b]));
        }
        assert(segment_wf(db, ib));
        assert(segment_pairs(db, ib) =~= entries_view(entries@));
        assert(entries_view(entries@).take(n as int) =~= entries_view(entries@));
    }
    (data, index)
}

/// Point lookup by binary search over the index file image. An empty index
/// answers at once; a malformed segment is reported, never misread.
pub fn segment_search(db: &Vec<u8>, ib: &Vec<u8>, key: &Vec<u8>) -> (r: Result<
    Option<Vec<u8>>,
    StoreError,
>)
    ensures
        segment_wf(db@, ib@) ==> match r {
            Ok(Some(v)) => lookup(segment_pairs(db@, ib@), key@) == Some(v@),
            Ok(None) => lookup(segment_pairs(db@, ib@), key@) is None,
            Err(_) => false,
        },
        ib@.len() < 16 ==> r == Ok::<Option<Vec<u8>>, StoreError>(None),
{
    let ghost pairs = segment_pairs(db@, ib@);
    proof {
        if segment_wf(db@, ib@) {
            lemma_segment_sorted(db@, ib@);
            lemma_sorted_lookup(pairs);
            lemma_map_of_domain(pairs, key@);
        }
    }
    let n: usize = ib.len() / 16;
    if n == 0 {
        proof {
            if segment_wf(db@, ib@) {
                lemma_map_of_domain(pairs, key@);
                assert(!seq_has_key(pairs, key@));
            }
        }
        return Ok(None);
    }
    let mut lo: usize = 0;
    let mut hi: usize = n;
    while lo < hi
        invariant
            0 <= lo <= hi <= n,
            n == index_count(ib@),
            16 * n <= ib@.len(),
            ib@.len() <= usize::MAX,
            pairs == segment_pairs(db@, ib@),
            segment_wf(db@, ib@) ==> pairs.len() == n && sorted_strict(pairs),
            segment_wf(db@, ib@) ==> forall|j: int|
                0 <= j < n && (#[trigger] segment_pairs(db@, ib@)[j]).0 == key@ ==> lo <= j < hi,
        decreases hi - lo,
    {
        let mid: usize = lo + (hi - lo) / 2;
        assert(lo <= mid < hi);
        assert(16 * mid + 16 <= ib@.len());
        let rec = match decode_offset_at(ib.as_slice(), 16 * mid) {
            Ok(o) => o,
            Err(e) => {
                proof {
                    if segment_wf(db@, ib@) {
                        assert(entry_at(db@, ib@, mid as int) is Some);
                    }
                }
                return Err(e);
            },
        };
        let dlen = db.len();
        if rec.entry_offset >= dlen as u64 || rec.entry_size > dlen as u64 - rec.entry_offset {
            proof {
                if segment_wf(db@, ib@) {
                    assert(entry_at(db@, ib@, mid as int) is Some);
                }
            }
            return Err(StoreError::CorruptRecord);
        }
        let off: usize = rec.entry_offset as usize;
        let size: usize = rec.entry_size as usize;
        let eslice = slice_subrange(db.as_slice(), off, off + size);
        let entry = match decode_entry(eslice) {
            Ok(e) => e,
            Err(e) => {
                proof {
                    if segment_wf(db@, ib@) {
                        assert(entry_at(db@, ib@, mid as int) is Some);
                    }
                }
                return Err(e);
            },
        };
        proof {
            if segment_wf(db@, ib@) {
                assert(entry_at(db@, ib@, mid as int) == Some((entry.key@, entry.value@)));
                assert(segment_pairs(db@, ib@)[mid as int] == (entry.key@, entry.value@));
            }
        }
        match key_compare(entry.key.as_slice(), key.as_slice()) {
            KeyOrder::Equal => {
                proof {
                    if segment_wf(db@, ib@) {
                        lemma_sorted_lookup(pairs);
                        assert(pairs[mid as int].0 == key@);
                        assert(map_of(pairs)[key@] == pairs[mid as int].1);
                    }
                }
                return Ok(Some(entry.value));
            },
            KeyOrder::Less => {
                proof {
                    if segment_wf(db@, ib@) {
                        assert forall|j: int|
                            0 <= j < n && (#[trigger] segment_pairs(db@, ib@)[j]).0 == key@ implies
                            mid + 1 <= j < hi by {
                            if j <= mid {
                                if j < mid {
                                    lemma_key_lt_trans(key@, pairs[j].0, pairs[mid as int].0);
                                    lemma_key_lt_asym(pairs[mid as int].0, key@);
                                } else {
                                    lemma_key_lt_irrefl(key@);
                                }
                            }
                        }
                    }
                }
                lo = mid + 1;
            },
            KeyOrder::Greater => {
                proof {
                    if segment_wf(db@, ib@) {
                        assert forall|j: int|
                            0 <= j < n && (#[trigger] segment_pairs(db@, ib@)[j]).0 == key@ implies
                            lo <= j < mid by {
                            if j >= mid {
                                if j > mid {
                                    lemma_key_lt_trans(key@, pairs[mid as int].0, pairs[j].0);
                                    lemma_key_lt_irrefl(key@);
                                } else {
                                    lemma_key_lt_irrefl(key@);
                                }
                            }
                        }
                    }
                }
                hi = mid;
            },
        }
    }
    proof {
        if segment_wf(db@, ib@) {
            assert(!seq_has_key(pairs, key@));
            lemma_map_of_domain(pairs, key@);
        }
    }
    Ok(None)
}


/// The index file's size is a whole number of records and counts exactly the
/// entries that decode out of the data file, one after the other.
pub proof fn lemma_index_counts_data(ps: Pairs, db: Seq<u8>, ib: Seq<u8>)
    requires
        db == encode_wal(ps),
        ib.len() == 16 * ps.len(),
        forall|i: int| 0 <= i < ps.len() ==> ps[i].0.len() <= u64::MAX && ps[i].1.len() <= u64::MAX,
    ensures
        ib.len() % 16 == 0,
        16 * wal_pairs(db, 0).len() == ib.len(),
{
    lemma_replay_encoded(ps);
}

} // verus!
