use vstd::prelude::*;
use crate::codec::{CompactionAction, Entry, StoreError};
use crate::memtable::Memtable;
use crate::model::{lookup, map_of, Pairs};
use crate::paths::{ext_compact_data, ext_compact_index, ext_data, ext_index, ext_memtable,
    format_name, pad_digits, spec_ext_compact_data, spec_ext_compact_index, spec_ext_data,
    spec_ext_index, spec_ext_memtable, lemma_name_num_inj, lemma_pad_digits_wf};
use crate::wal::encode_wal_record;
use crate::codec::spec_encode_entry;

verus! {

pub open spec fn data_name(i: u64) -> Seq<u8> {
    pad_digits(i as int, 20) + spec_ext_data()
}

pub open spec fn index_name(i: u64) -> Seq<u8> {
    pad_digits(i as int, 20) + spec_ext_index()
}

pub open spec fn wal_name(i: u64) -> Seq<u8> {
    pad_digits(i as int, 20) + spec_ext_memtable()
}

pub open spec fn compact_data_name(i: u64) -> Seq<u8> {
    pad_digits(i as int, 20) + spec_ext_compact_data()
}

pub open spec fn compact_index_name(i: u64) -> Seq<u8> {
    pad_digits(i as int, 20) + spec_ext_compact_index()
}

/// Where a point lookup is answered from memory, or which segments to
/// search, newest first, when memory has no answer.
pub enum GetOutcome {
    Found(Vec<u8>),
    SearchSegments(Vec<u64>),
}

/// What a flush must do on disk: create the new WAL, stream the frozen
/// memtable into the segment pair, then remove the old WAL.
pub struct FlushJob {
    pub old_wal_name: Vec<u8>,
    pub new_wal_name: Vec<u8>,
    pub data_name: Vec<u8>,
    pub index_name: Vec<u8>,
    pub segment_index: u64,
}

/// The engine state that decides every operation; file handles and the
/// directory live with the caller that performs the I/O.
pub struct LSMTree {
    active_memtable: Memtable,
    flush_memtable: Option<Memtable>,
    write_sstable_index: u64,
    read_sstable_indices: Vec<u64>,
    memtable_index: u64,
}

impl LSMTree {
    pub closed spec fn active(self) -> Pairs {
        self.active_memtable@
    }

    pub closed spec fn flushing(self) -> Option<Pairs> {
        match self.flush_memtable {
            Some(mt) => Some(mt@),
            None => None,
        }
    }

    pub closed spec fn segments(self) -> Seq<u64> {
        self.read_sstable_indices@
    }

    pub closed spec fn write_index(self) -> u64 {
        self.write_sstable_index
    }

    pub closed spec fn wal_index(self) -> u64 {
        self.memtable_index
    }

    pub closed spec fn capacity(self) -> nat {
        self.active_memtable.spec_capacity()
    }

    /// Memtables are sorted maps; segment indices ascend strictly and stay
    /// below the next flush index, so lookup order is well defined and a
    /// flush never overwrites a live segment.
    pub open spec fn wf(self) -> bool {
        &&& crate::model::sorted_strict(self.active())
        &&& match self.flushing() {
            Some(fv) => crate::model::sorted_strict(fv),
            None => true,
        }
        &&& forall|a: int, b: int|
            0 <= a < b < self.segments().len() ==> self.segments()[a] < self.segments()[b]
        &&& forall|a: int| 0 <= a < self.segments().len() ==> self.segments()[a] < self.write_index()
    }

    /// What the in-memory layers answer: the active memtable first, then the
    /// one being flushed.
    pub open spec fn mem_lookup(self, k: Seq<u8>) -> Option<Seq<u8>> {
        match lookup(self.active(), k) {
            Some(v) => Some(v),
            None => match self.flushing() {
                Some(fv) => lookup(fv, k),
                None => None,
            },
        }
    }

    /// Assemble the engine after recovery: the discovered segments, the next
    /// flush index, the WAL index, and the memtable replayed from that WAL.
    pub fn new(
        active_memtable: Memtable,
        write_sstable_index: u64,
        read_sstable_indices: Vec<u64>,
        memtable_index: u64,
    ) -> (r: Result<Self, StoreError>)
        requires
            active_memtable.wf(),
        ensures
            match r {
                Ok(t) => {
                    &&& t.wf()
                    &&& t.active() == active_memtable@
                    &&& t.flushing() is None
                    &&& t.segments() == read_sstable_indices@
                    &&& t.write_index() == write_sstable_index
                    &&& t.wal_index() == memtable_index
                },
                Err(e) => e is InvariantViolation,
            },
            (r is Ok) == ((forall|x: int, y: int|
                0 <= x < y < read_sstable_indices@.len() ==> read_sstable_indices@[x]
                    < read_sstable_indices@[y]) && (forall|x: int|
                0 <= x < read_sstable_indices@.len() ==> read_sstable_indices@[x]
                    < write_sstable_index)),
    {
        let n = read_sstable_indices.len();
        let mut a: usize = 0;
        while a < n
            invariant
                0 <= a <= n,
                n == read_sstable_indices@.len(),
                forall|x: int, y: int|
                    0 <= x < y < a ==> read_sstable_indices@[x] < read_sstable_indices@[y],
                forall|x: int|
                    0 <= x < a ==> read_sstable_indices@[x] < write_sstable_index,
            decreases n - a,
        {
            if a > 0 {
                if read_sstable_indices[a - 1] >= read_sstable_indices[a] {
                    proof {
                        assert(!(read_sstable_indices@[a - 1] < read_sstable_indices@[a as int]));
                    }
                    return Err(StoreError::InvariantViolation);
                }
            }
            if read_sstable_indices[a] >= write_sstable_index {
                proof {
                    assert(!(read_sstable_indices@[a as int] < write_sstable_index));
                }
                return Err(StoreError::InvariantViolation);
            }
            proof {
                assert forall|x: int, y: int|
                    0 <= x < y < a + 1 implies read_sstable_indices@[x]
                    < read_sstable_indices@[y] by {
                    if y == a && x < a - 1 {
                        assert(read_sstable_indices@[x] < read_sstable_indices@[a - 1]);
                        assert(read_sstable_indices@[a - 1] < read_sstable_indices@[a as int]);
                    }
                }
            }
            a = a + 1;
        }
        Ok(
            LSMTree {
                active_memtable,
                flush_memtable: None,
                write_sstable_index,
                read_sstable_indices,
                memtable_index,
            },
        )
    }

    /// Answer a lookup from memory, or name the segments to search, newest
    /// first. A key in the active memtable masks every older layer.
    pub fn get(&self, key: &Vec<u8>) -> (r: GetOutcome)
        requires
            self.wf(),
        ensures
            match r {
                GetOutcome::Found(v) => self.mem_lookup(key@) == Some(v@),
                GetOutcome::SearchSegments(order) => self.mem_lookup(key@) is None && order@
                    == self.segments().reverse(),
            },
    {
        match self.active_memtable.get(key) {
            Some(v) => {
                return GetOutcome::Found(v);
            },
            None => {},
        }
        match &self.flush_memtable {
            Some(mt) => {
                match mt.get(key) {
                    Some(v) => {
                        return GetOutcome::Found(v);
                    },
                    None => {},
                }
            },
            None => {},
        }
        let n = self.read_sstable_indices.len();
        let mut order: Vec<u64> = Vec::new();
        let mut a: usize = 0;
        while a < n
            invariant
                0 <= a <= n,
                n == self.read_sstable_indices@.len(),
                order@.len() == a,
                forall|x: int|
                    0 <= x < a ==> order@[x] == self.read_sstable_indices@[n - 1 - x],
            decreases n - a,
        {
            order.push(self.read_sstable_indices[n - 1 - a]);
            a = a + 1;
        }
        proof {
            assert(order@ =~= self.segments().reverse());
        }
        GetOutcome::SearchSegments(order)
    }

    /// Record a write: update the active memtable and hand back the WAL
    /// record that must reach disk before the write is acknowledged, with
    /// the previous value and whether the memtable is now at capacity.
    pub fn set(&mut self, key: Vec<u8>, value: Vec<u8>) -> (r: (
        Option<Vec<u8>>,
        Vec<u8>,
        bool,
    ))
        requires
            old(self).wf(),
        ensures
            final(self).wf(),
            map_of(final(self).active()) == map_of(old(self).active()).insert(key@, value@),
            final(self).flushing() == old(self).flushing(),
            final(self).segments() == old(self).segments(),
            final(self).write_index() == old(self).write_index(),
            final(self).wal_index() == old(self).wal_index(),
            final(self).capacity() == old(self).capacity(),
            match r.0 {
                Some(p) => lookup(old(self).active(), key@) == Some(p@),
                None => lookup(old(self).active(), key@) is None,
            },
            r.1@ == spec_encode_entry(key@, value@),
            r.2 == (final(self).active().len() >= final(self).capacity()),
    {
        let record = encode_wal_record(&Entry { key: crate::codec::clone_bytes(&key),
            value: crate::codec::clone_bytes(&value) });
        let prev = self.active_memtable.set(key, value);
        let full = self.active_memtable.is_full();
        proof {
            assert(self.segments() == old(self).segments());
            assert forall|a: int, b: int|
                0 <= a < b < self.segments().len() implies self.segments()[a]
                < self.segments()[b] by {
                assert(old(self).segments()[a] < old(self).segments()[b]);
            }
            assert forall|a: int|
                0 <= a < self.segments().len() implies self.segments()[a]
                < self.write_index() by {
                assert(old(self).segments()[a] < old(self).write_index());
            }
        }
        (prev, record, full)
    }

    /// Freeze the active memtable for flushing; an empty memtable has
    /// nothing to flush and the engine is left untouched. The WAL index
    /// advances by two so the new WAL's name never collides with the one
    /// being retired.
    pub fn flush_swap(&mut self) -> (r: Result<Option<FlushJob>, StoreError>)
        requires
            old(self).wf(),
            old(self).flushing() is None,
        ensures
            match r {
                Ok(None) => old(self).active().len() == 0 && *final(self) == *old(self),
                Ok(Some(job)) => {
                    &&& old(self).active().len() > 0
                    &&& final(self).wf()
                    &&& final(self).active() == Seq::<(Seq<u8>, Seq<u8>)>::empty()
                    &&& final(self).flushing() == Some(old(self).active())
                    &&& final(self).segments() == old(self).segments()
                    &&& final(self).write_index() == old(self).write_index()
                    &&& final(self).wal_index() == old(self).wal_index() + 2
                    &&& final(self).capacity() == old(self).capacity()
                    &&& job.old_wal_name@ == wal_name(old(self).wal_index())
                    &&& job.new_wal_name@ == wal_name(final(self).wal_index())
                    &&& job.data_name@ == data_name(old(self).write_index())
                    &&& job.index_name@ == index_name(old(self).write_index())
                    &&& job.segment_index == old(self).write_index()
                },
                Err(e) => e is InvariantViolation && *final(self) == *old(self),
            },
            (r is Err) == (old(self).active().len() > 0 && old(self).wal_index() > u64::MAX - 2),
    {
        if self.active_memtable.is_empty() {
            return Ok(None);
        }
        if self.memtable_index > u64::MAX - 2 {
            return Err(StoreError::InvariantViolation);
        }
        let e_m = ext_memtable();
        let old_wal_name = format_name(self.memtable_index, e_m.as_slice());
        self.memtable_index = self.memtable_index + 2;
        let new_wal_name = format_name(self.memtable_index, e_m.as_slice());
        let e_d = ext_data();
        let e_i = ext_index();
        let dn = format_name(self.write_sstable_index, e_d.as_slice());
        let inn = format_name(self.write_sstable_index, e_i.as_slice());
        let capacity = self.active_memtable.capacity();
        let mut frozen = Memtable::new(capacity);
        core::mem::swap(&mut frozen, &mut self.active_memtable);
        self.flush_memtable = Some(frozen);
        proof {
            assert(self.segments() == old(self).segments());
            assert forall|a: int, b: int|
                0 <= a < b < self.segments().len() implies self.segments()[a]
                < self.segments()[b] by {
                assert(old(self).segments()[a] < old(self).segments()[b]);
            }
            assert forall|a: int|
                0 <= a < self.segments().len() implies self.segments()[a]
                < self.write_index() by {
                assert(old(self).segments()[a] < old(self).write_index());
            }
        }
        Ok(
            Some(
                FlushJob {
                    old_wal_name,
                    new_wal_name,
                    data_name: dn,
                    index_name: inn,
                    segment_index: self.write_sstable_index,
                },
            ),
        )
    }

    /// The frozen memtable a flush is streaming out, still visible to reads.
    pub fn flushing_entries(&self) -> (r: Option<&Vec<Entry>>)
        ensures
            match r {
                Some(v) => self.flushing() == Some(crate::model::entries_view(v@)),
                None => self.flushing() is None,
            },
    {
        match &self.flush_memtable {
            Some(mt) => Some(mt.entries()),
            None => None,
        }
    }

    /// The flushed memtable became segment `write_index()`: expose it to
    /// reads and retire the flushing slot. The flush index advances by two.
    pub fn flush_finish(&mut self) -> (r: Result<(), StoreError>)
        requires
            old(self).wf(),
            old(self).flushing() is Some,
        ensures
            match r {
                Ok(()) => {
                    &&& final(self).wf()
                    &&& final(self).active() == old(self).active()
                    &&& final(self).flushing() is None
                    &&& final(self).segments() == old(self).segments().push(
                        old(self).write_index(),
                    )
                    &&& final(self).write_index() == old(self).write_index() + 2
                    &&& final(self).wal_index() == old(self).wal_index()
                    &&& final(self).capacity() == old(self).capacity()
                },
                Err(e) => e is InvariantViolation && *final(self) == *old(self),
            },
            (r is Err) == (old(self).write_index() > u64::MAX - 2),
    {
        if self.write_sstable_index > u64::MAX - 2 {
            return Err(StoreError::InvariantViolation);
        }
        self.flush_memtable = None;
        let ghost old_segments = self.read_sstable_indices@;
        self.read_sstable_indices.push(self.write_sstable_index);
        self.write_sstable_index = self.write_sstable_index + 2;
        proof {
            assert forall|a: int, b: int|
                0 <= a < b < self.read_sstable_indices@.len() implies self.read_sstable_indices@[a]
                < self.read_sstable_indices@[b] by {
                if b == old_segments.len() as int {
                    assert(self.read_sstable_indices@[a] == old_segments[a]);
                    assert(old(self).segments()[a] < old(self).write_index());
                } else {
                    assert(old(self).segments()[a] < old(self).segments()[b]);
                }
            }
            assert forall|a: int|
                0 <= a < self.read_sstable_indices@.len() implies self.read_sstable_indices@[a]
                < self.write_sstable_index by {
                if a < old_segments.len() as int {
                    assert(old(self).segments()[a] < old(self).write_index());
                }
            }
        }
        Ok(())
    }

    /// The manifest a compaction of `inputs` into `output_index` commits:
    /// rename the two temporary files over the segment names, then delete
    /// the inputs. All paths named are distinct files, so replaying the
    /// manifest any number of times settles on the same directory.
    #[verifier::rlimit(100)]
    #[verifier::spinoff_prover]
    pub fn compaction_action(&self, inputs: &Vec<u64>, output_index: u64) -> (r: CompactionAction)
        requires
            !inputs@.contains(output_index),
        ensures
            crate::manifest::renames_view(r.renames@) == seq![
                (compact_data_name(output_index), data_name(output_index)),
                (compact_index_name(output_index), index_name(output_index)),
            ],
            crate::manifest::paths_view(r.deletes@).len() == 2 * inputs@.len(),
            forall|x: int|
                0 <= x < inputs@.len() ==> crate::manifest::paths_view(r.deletes@)[2 * x]
                    == data_name(#[trigger] inputs@[x]) && crate::manifest::paths_view(
                    r.deletes@,
                )[2 * x + 1] == index_name(inputs@[x]),
            crate::recovery::action_wf(
                crate::manifest::renames_view(r.renames@),
                crate::manifest::paths_view(r.deletes@),
            ),
    {
        let e_d = ext_data();
        let e_i = ext_index();
        let e_cd = ext_compact_data();
        let e_ci = ext_compact_index();
        let mut renames: Vec<(Vec<u8>, Vec<u8>)> = Vec::new();
        renames.push(
            (format_name(output_index, e_cd.as_slice()), format_name(output_index, e_d.as_slice())),
        );
        renames.push(
            (format_name(output_index, e_ci.as_slice()), format_name(output_index, e_i.as_slice())),
        );
        let mut deletes: Vec<Vec<u8>> = Vec::new();
        let n = inputs.len();
        let mut x: usize = 0;
        while x < n
            invariant
                0 <= x <= n,
                n == inputs@.len(),
                e_d@ == spec_ext_data(),
                e_i@ == spec_ext_index(),
                crate::manifest::paths_view(deletes@).len() == 2 * x,
                forall|y: int|
                    0 <= y < x ==> crate::manifest::paths_view(deletes@)[2 * y] == data_name(
                        #[trigger] inputs@[y],
                    ) && crate::manifest::paths_view(deletes@)[2 * y + 1] == index_name(
                        inputs@[y],
                    ),
            decreases n - x,
        {
            let ghost old_dv = crate::manifest::paths_view(deletes@);
            let nd = format_name(inputs[x], e_d.as_slice());
            let ni = format_name(inputs[x], e_i.as_slice());
            let ghost g1 = nd@;
            let ghost g2 = ni@;
            deletes.push(nd);
            deletes.push(ni);
            proof {
                let dv = crate::manifest::paths_view(deletes@);
                assert(dv =~= old_dv.push(g1).push(g2));
                assert forall|y: int| 0 <= y < x + 1 implies dv[2 * y] == data_name(
                    #[trigger] inputs@[y],
                ) && dv[2 * y + 1] == index_name(inputs@[y]) by {
                    if y < x {
                        assert(dv[2 * y] == old_dv[2 * y]);
                        assert(dv[2 * y + 1] == old_dv[2 * y + 1]);
                    } else {
                        assert(dv[2 * y] == g1);
                        assert(dv[2 * y + 1] == g2);
                    }
                }
            }
            x = x + 1;
        }
        let r = CompactionAction { renames, deletes };
        proof {
            let rv = crate::manifest::renames_view(r.renames@);
            let dv = crate::manifest::paths_view(r.deletes@);
            assert(rv =~= seq![
                (compact_data_name(output_index), data_name(output_index)),
                (compact_index_name(output_index), index_name(output_index)),
            ]);
            lemma_compaction_action_wf(rv, dv, inputs@, output_index);
        }
        r
    }

    /// Adopt the result of a compaction: the inputs leave the read set and
    /// the output joins it as the newest segment. Refused if the output
    /// index does not dominate the surviving segments or collides with the
    /// flush sequence.
    pub fn compact_install(&mut self, inputs: &Vec<u64>, output_index: u64) -> (r: Result<
        (),
        StoreError,
    >)
        requires
            old(self).wf(),
        ensures
            match r {
                Ok(()) => {
                    &&& final(self).wf()
                    &&& final(self).segments() == old(self).segments().filter(
                        |s: u64| !inputs@.contains(s),
                    ).push(output_index)
                    &&& final(self).active() == old(self).active()
                    &&& final(self).flushing() == old(self).flushing()
                    &&& final(self).write_index() == old(self).write_index()
                    &&& final(self).wal_index() == old(self).wal_index()
                },
                Err(e) => e is InvariantViolation && *final(self) == *old(self),
            },
            (r is Err) == (output_index >= old(self).write_index() || exists|a: int|
                0 <= a < old(self).segments().len() && !inputs@.contains(
                    #[trigger] old(self).segments()[a],
                ) && old(self).segments()[a] >= output_index),
    {
        if output_index >= self.write_sstable_index {
            return Err(StoreError::InvariantViolation);
        }
        let ghost old_segments = self.read_sstable_indices@;
        let mut kept: Vec<u64> = Vec::new();
        let n = self.read_sstable_indices.len();
        let mut a: usize = 0;
        while a < n
            invariant
                0 <= a <= n,
                n == self.read_sstable_indices@.len(),
                self.read_sstable_indices@ == old_segments,
                kept@ == old_segments.take(a as int).filter(|s: u64| !inputs@.contains(s)),
            decreases n - a,
        {
            let ghost old_kept = kept@;
            let v = self.read_sstable_indices[a];
            let mut found = false;
            let m = inputs.len();
            let mut b: usize = 0;
            while b < m
                invariant
                    0 <= b <= m,
                    m == inputs@.len(),
                    found == (exists|y: int| 0 <= y < b && inputs@[y] == v),
                decreases m - b,
            {
                if inputs[b] == v {
                    found = true;
                    proof {
                        assert(inputs@[b as int] == v);
                    }
                }
                b = b + 1;
            }
            proof {
                assert(found == inputs@.contains(v));
            }
            if !found {
                kept.push(v);
            }
            proof {
                assert(old_segments.take(a + 1).drop_last() =~= old_segments.take(a as int));
                assert(old_segments.take(a + 1).last() == v);
                reveal(Seq::filter);
                assert(old_segments.take(a + 1).filter(|s: u64| !inputs@.contains(s))
                    =~= if !inputs@.contains(v) {
                    old_kept.push(v)
                } else {
                    old_kept
                });
            }
            a = a + 1;
        }
        proof {
            assert(old_segments.take(n as int) =~= old_segments);
        }
        // The output must be newer than everything it did not replace.
        let kn = kept.len();
        let mut c: usize = 0;
        while c < kn
            invariant
                0 <= c <= kn,
                kn == kept@.len(),
                old_segments == old(self).segments(),
                kept@ == old_segments.filter(|x: u64| !inputs@.contains(x)),
                forall|x: int| 0 <= x < c ==> kept@[x] < output_index,
            decreases kn - c,
        {
            if kept[c] >= output_index {
                proof {
                    let pred = |x: u64| !inputs@.contains(x);
                    old_segments.lemma_filter_pred(pred, c as int);
                    lemma_filter_member(old_segments, inputs@, c as int);
                    let a = choose|a: int|
                        0 <= a < old_segments.len() && old_segments[a] == kept@[c as int];
                    assert(!inputs@.contains(old(self).segments()[a]) && old(self).segments()[a]
                        >= output_index);
                }
                return Err(StoreError::InvariantViolation);
            }
            c = c + 1;
        }
        proof {
            let pred = |x: u64| !inputs@.contains(x);
            assert forall|a: int|
                0 <= a < old(self).segments().len() && !inputs@.contains(
                    #[trigger] old(self).segments()[a],
                ) implies old(self).segments()[a] < output_index by {
                old_segments.lemma_filter_contains(pred, a);
                let c = choose|c: int|
                    0 <= c < kept@.len() && kept@[c] == old_segments[a];
                assert(kept@[c] < output_index);
            }
            assert forall|x: int, y: int|
                0 <= x < y < old_segments.len() implies old_segments[x] < old_segments[y] by {
                assert(old(self).segments()[x] < old(self).segments()[y]);
            }
            assert forall|x: int|
                0 <= x < old_segments.len() implies old_segments[x]
                < self.write_sstable_index by {
                assert(old(self).segments()[x] < old(self).write_index());
            }
            // The kept list inherits order and bounds from the read set.
            lemma_filter_sorted(old_segments, inputs@, self.write_sstable_index, kept@);
        }
        kept.push(output_index);
        self.read_sstable_indices = kept;
        Ok(())
    }
}


/// The files a compaction manifest names are pairwise distinct: distinct
/// extensions give names of distinct lengths, and with equal extensions the
/// indices differ, the output being none of the inputs.
proof fn lemma_compaction_action_wf(
    rv: Seq<(Seq<u8>, Seq<u8>)>,
    dv: Seq<Seq<u8>>,
    inputs: Seq<u64>,
    output_index: u64,
)
    requires
        !inputs.contains(output_index),
        rv == seq![
            (compact_data_name(output_index), data_name(output_index)),
            (compact_index_name(output_index), index_name(output_index)),
        ],
        dv.len() == 2 * inputs.len(),
        forall|x: int|
            0 <= x < inputs.len() ==> dv[2 * x] == data_name(#[trigger] inputs[x]) && dv[2 * x + 1]
                == index_name(inputs[x]),
    ensures
        crate::recovery::action_wf(rv, dv),
{
    // Distinct extensions give names of distinct lengths; equal
    // extensions with distinct indices differ by injectivity.
    assert forall|i: int, j: int| 0 <= i < rv.len() && 0 <= j < rv.len() implies (
    #[trigger] rv[i].1) != (#[trigger] rv[j].0) by {
        lemma_pad_digits_wf(output_index as int, 20);
        assert(data_name(output_index).len() == 25);
        assert(index_name(output_index).len() == 26);
        assert(compact_data_name(output_index).len() == 33);
        assert(compact_index_name(output_index).len() == 34);
        if i == 0 {
            assert(rv[i].1 == data_name(output_index));
        } else {
            assert(rv[i].1 == index_name(output_index));
        }
        if j == 0 {
            assert(rv[j].0 == compact_data_name(output_index));
        } else {
            assert(rv[j].0 == compact_index_name(output_index));
        }
    }
    assert forall|i: int, j: int| 0 <= i < rv.len() && 0 <= j < dv.len() implies (
    #[trigger] rv[i].0) != (#[trigger] dv[j]) && rv[i].1 != dv[j] by {
        let y = j / 2;
        assert(0 <= y < inputs.len());
        if j % 2 == 0 {
            assert(dv[j] == data_name(inputs[y]));
        } else {
            assert(dv[j] == index_name(inputs[y]));
        }
        lemma_pad_digits_wf(output_index as int, 20);
        lemma_pad_digits_wf(inputs[y] as int, 20);
        assert(data_name(inputs[y]).len() == 25);
        assert(index_name(inputs[y]).len() == 26);
        assert(data_name(output_index).len() == 25);
        assert(index_name(output_index).len() == 26);
        assert(compact_data_name(output_index).len() == 33);
        assert(compact_index_name(output_index).len() == 34);
        if i == 0 {
            assert(rv[i].0 == compact_data_name(output_index));
            assert(rv[i].1 == data_name(output_index));
        } else {
            assert(rv[i].0 == compact_index_name(output_index));
            assert(rv[i].1 == index_name(output_index));
        }
        if rv[i].1 == dv[j] {
            if i == 0 && j % 2 == 0 {
                lemma_name_num_inj(output_index, inputs[y], spec_ext_data());
                assert(inputs.contains(output_index));
            } else if i == 1 && j % 2 != 0 {
                lemma_name_num_inj(output_index, inputs[y], spec_ext_index());
                assert(inputs.contains(output_index));
            }
        }
    }
}

/// A filtered sorted list is sorted and keeps its bound.
pub proof fn lemma_filter_sorted(s: Seq<u64>, drop: Seq<u64>, bound: u64, f: Seq<u64>)
    requires
        f == s.filter(|x: u64| !drop.contains(x)),
        forall|a: int, b: int| 0 <= a < b < s.len() ==> s[a] < s[b],
        forall|a: int| 0 <= a < s.len() ==> s[a] < bound,
    ensures
        forall|a: int, b: int| 0 <= a < b < f.len() ==> f[a] < f[b],
        forall|a: int| 0 <= a < f.len() ==> f[a] < bound,
    decreases s.len(),
{
    let pred = |x: u64| !drop.contains(x);
    reveal(Seq::filter);
    if s.len() > 0 {
        lemma_filter_sorted(s.drop_last(), drop, bound, s.drop_last().filter(pred));
        assert forall|a: int| 0 <= a < f.len() implies f[a] < bound by {
            lemma_filter_member(s, drop, a);
            let v = f[a];
            let i = choose|i: int| 0 <= i < s.len() && s[i] == v;
        }
        assert forall|a: int, b: int| 0 <= a < b < f.len() implies f[a] < f[b] by {
            if pred(s.last()) {
                assert(f == s.drop_last().filter(pred).push(s.last()));
                if b < f.len() - 1 {
                } else {
                    lemma_filter_member(s.drop_last(), drop, a);
                    let v = f[a];
                    let i = choose|i: int|
                        0 <= i < s.drop_last().len() && s.drop_last()[i] == v;
                    assert(s[i] == v);
                    assert(s[i] < s[s.len() - 1]);
                }
            } else {
                assert(f == s.drop_last().filter(pred));
            }
        }
    }
}

/// Every element of the filtered list is an element of the list it came from.
pub proof fn lemma_filter_member(s: Seq<u64>, drop: Seq<u64>, a: int)
    requires
        0 <= a < s.filter(|x: u64| !drop.contains(x)).len(),
    ensures
        s.contains(s.filter(|x: u64| !drop.contains(x))[a]),
    decreases s.len(),
{
    reveal(Seq::filter);
    let pred = |x: u64| !drop.contains(x);
    if s.len() > 0 {
        if a < s.drop_last().filter(pred).len() {
            lemma_filter_member(s.drop_last(), drop, a);
            let v = s.drop_last().filter(pred)[a];
            let i = choose|i: int| 0 <= i < s.drop_last().len() && s.drop_last()[i] == v;
            assert(s[i] == v);
        } else {
            assert(s[s.len() - 1] == s.filter(pred)[a]);
        }
    }
}

/// Content layers, newest first: the value of the first layer holding the
/// key is the answer.
pub open spec fn layers_lookup(layers: Seq<Pairs>, k: Seq<u8>) -> Option<Seq<u8>>
    decreases layers.len(),
{
    if layers.len() == 0 {
        None
    } else {
        match lookup(layers.first(), k) {
            Some(v) => Some(v),
            None => layers_lookup(layers.drop_first(), k),
        }
    }
}

/// The one map the layers denote together: a newer layer wins on collision.
pub open spec fn layers_map(layers: Seq<Pairs>) -> Map<Seq<u8>, Seq<u8>>
    decreases layers.len(),
{
    if layers.len() == 0 {
        Map::empty()
    } else {
        layers_map(layers.drop_first()).union_prefer_right(map_of(layers.first()))
    }
}

/// First-hit search over newest-first layers answers exactly as the merged
/// map: the engine's read path agrees with the one-map oracle.
pub proof fn lemma_layers_lookup_is_map(layers: Seq<Pairs>, k: Seq<u8>)
    ensures
        layers_lookup(layers, k) == (if layers_map(layers).contains_key(k) {
            Some(layers_map(layers)[k])
        } else {
            None::<Seq<u8>>
        }),
    decreases layers.len(),
{
    if layers.len() > 0 {
        lemma_layers_lookup_is_map(layers.drop_first(), k);
    }
}


/// All content layers of an engine, newest first: the active memtable, the
/// memtable being flushed if any, then the given segment contents.
pub open spec fn engine_layers(t: LSMTree, segs: Seq<Pairs>) -> Seq<Pairs> {
    match t.flushing() {
        Some(fv) => seq![t.active(), fv] + segs,
        None => seq![t.active()] + segs,
    }
}

/// Flush equivalence: the engine's actual read path, memory first and then
/// segments newest first, answers exactly as a first-hit search over all
/// layers, and so, with `lemma_layers_lookup_is_map`, as one oracle map.
pub proof fn lemma_engine_oracle(t: LSMTree, segs: Seq<Pairs>, k: Seq<u8>)
    ensures
        (match t.mem_lookup(k) {
            Some(v) => Some(v),
            None => layers_lookup(segs, k),
        }) == layers_lookup(engine_layers(t, segs), k),
{
    let layers = engine_layers(t, segs);
    match t.flushing() {
        Some(fv) => {
            assert(layers.first() == t.active());
            assert(layers.drop_first() =~= seq![fv] + segs);
            assert((seq![fv] + segs).drop_first() =~= segs);
        },
        None => {
            assert(layers.first() == t.active());
            assert(layers.drop_first() =~= segs);
        },
    }
}

/// A key in the active memtable masks every older layer, wherever it also
/// appears below.
pub proof fn lemma_active_masks(t: LSMTree, segs: Seq<Pairs>, k: Seq<u8>)
    requires
        map_of(t.active()).contains_key(k),
    ensures
        layers_lookup(engine_layers(t, segs), k) == Some(map_of(t.active())[k]),
{
    lemma_engine_oracle(t, segs, k);
}

/// A lookup on an engine with nothing in memory and no segments misses.
pub proof fn lemma_empty_lookup(t: LSMTree, k: Seq<u8>)
    requires
        t.active().len() == 0,
        t.flushing() is None,
    ensures
        t.mem_lookup(k) is None,
{
    crate::model::lemma_map_of_domain(t.active(), k);
}

} // verus!
