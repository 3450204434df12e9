use vstd::prelude::*;
use crate::codec::{clone_bytes, Entry};
use crate::keys::{key_compare, key_lt, KeyOrder, lemma_key_lt_trans};
use crate::model::{entries_view, lemma_map_of_domain, lemma_sorted_lookup, lookup, map_of,
    seq_has_key, sorted_strict, Pairs};

verus! {

/// The in-memory write buffer: an ordered key-value map. `capacity` is the
/// fill level at which the engine flushes it to disk.
pub struct Memtable {
    entries: Vec<Entry>,
    capacity: usize,
}

impl View for Memtable {
    type V = Pairs;

    closed spec fn view(&self) -> Pairs {
        entries_view(self.entries@)
    }
}

impl Memtable {
    pub closed spec fn spec_capacity(self) -> nat {
        self.capacity as nat
    }

    /// Entries stand in strictly ascending key order, so keys are unique.
    pub open spec fn wf(self) -> bool {
        sorted_strict(self@)
    }

    pub fn new(capacity: usize) -> (r: Self)
        ensures
            r@ == Seq::<(Seq<u8>, Seq<u8>)>::empty(),
            r.wf(),
            r.spec_capacity() == capacity,
    {
        let r = Memtable { entries: Vec::new(), capacity };
        proof {
            assert(r@ =~= Seq::<(Seq<u8>, Seq<u8>)>::empty());
        }
        r
    }

    pub fn len(&self) -> (r: usize)
        ensures
            r == self@.len(),
    {
        self.entries.len()
    }

    pub fn capacity(&self) -> (r: usize)
        ensures
            r == self.spec_capacity(),
    {
        self.capacity
    }

    /// Full means the next flush is due.
    pub fn is_full(&self) -> (r: bool)
        ensures
            r == (self@.len() >= self.spec_capacity()),
    {
        self.entries.len() >= self.capacity
    }

    pub fn is_empty(&self) -> (r: bool)
        ensures
            r == (self@.len() == 0),
    {
        self.entries.len() == 0
    }

    /// The entries in ascending key order, for streaming to a segment.
    pub fn entries(&self) -> (r: &Vec<Entry>)
        ensures
            entries_view(r@) == self@,
    {
        &self.entries
    }

    pub fn get(&self, key: &Vec<u8>) -> (r: Option<Vec<u8>>)
        requires
            self.wf(),
        ensures
            match r {
                Some(v) => lookup(self@, key@) == Some(v@),
                None => lookup(self@, key@) is None,
            },
    {
        proof {
            lemma_sorted_lookup(self@);
            lemma_map_of_domain(self@, key@);
        }
        let n = self.entries.len();
        let mut i: usize = 0;
        while i < n
            invariant
                0 <= i <= n,
                n == self@.len(),
                self.wf(),
                forall|j: int| 0 <= j < i ==> self@[j].0 != key@,
            decreases n - i,
        {
            match key_compare(self.entries[i].key.as_slice(), key.as_slice()) {
                KeyOrder::Equal => {
                    proof {
                        lemma_sorted_lookup(self@);
                        assert(self@[i as int].0 == key@);
                        assert(map_of(self@)[key@] == self@[i as int].1);
                    }
                    return Some(clone_bytes(&self.entries[i].value));
                },
                _ => {},
            }
            proof {
                assert(self@[i as int].0 != key@);
            }
            i = i + 1;
        }
        proof {
            assert(!seq_has_key(self@, key@));
            lemma_map_of_domain(self@, key@);
        }
        None
    }

    fn key_at_less(entries: &Vec<Entry>, i: usize, key: &Vec<u8>) -> (r: bool)
        requires
            i < entries@.len(),
        ensures
            r == key_lt(entries@[i as int].key@, key@),
    {
        match key_compare(entries[i].key.as_slice(), key.as_slice()) {
            KeyOrder::Less => true,
            _ => false,
        }
    }

    /// Insert or overwrite; returns the previous value of the key, if any.
    pub fn set(&mut self, key: Vec<u8>, value: Vec<u8>) -> (prev: Option<Vec<u8>>)
        requires
            old(self).wf(),
        ensures
            final(self).wf(),
            final(self).spec_capacity() == old(self).spec_capacity(),
            map_of(final(self)@) == map_of(old(self)@).insert(key@, value@),
            match prev {
                Some(p) => lookup(old(self)@, key@) == Some(p@),
                None => lookup(old(self)@, key@) is None,
            },
            final(self)@.len() == old(self)@.len() + (if seq_has_key(old(self)@, key@) {
                0int
            } else {
                1int
            }),
    {
        proof {
            lemma_sorted_lookup(self@);
            lemma_map_of_domain(self@, key@);
        }
        let ghost old_view = self@;
        let n = self.entries.len();
        let mut i: usize = 0;
        while i < n && Self::key_at_less(&self.entries, i, &key)
            invariant
                0 <= i <= n,
                n == self@.len(),
                self.wf(),
                self@ == old_view,
                forall|j: int| 0 <= j < i ==> key_lt(self@[j].0, key@),
            decreases n - i,
        {
            i = i + 1;
        }
        let at_equal: bool = if i < n {
            match key_compare(self.entries[i].key.as_slice(), key.as_slice()) {
                KeyOrder::Less => false,
                KeyOrder::Equal => true,
                KeyOrder::Greater => false,
            }
        } else {
            false
        };
        if at_equal {
            // Overwrite in place, keeping the position and the key.
            let prev_entry = self.entries.remove(i);
            self.entries.insert(i, Entry { key, value });
                    proof {
                        let new_view = self@;
                        assert(new_view =~= old_view.update(i as int, (old_view[i as int].0, value@)));
                        assert(forall|j: int| 0 <= j < new_view.len() ==> new_view[j].0 == old_view[j].0);
                        assert(sorted_strict(new_view));
                        lemma_sorted_lookup(new_view);
                        lemma_sorted_lookup(old_view);
                        assert forall|k: Seq<u8>|
                            map_of(new_view).contains_key(k) == map_of(old_view).insert(
                                key@,
                                value@,
                            ).contains_key(k) by {
                            lemma_map_of_domain(new_view, k);
                            lemma_map_of_domain(old_view, k);
                            if seq_has_key(new_view, k) {
                                let j = choose|j: int|
                                    0 <= j < new_view.len() && new_view[j].0 == k;
                                assert(old_view[j].0 == k);
                            }
                            if seq_has_key(old_view, k) {
                                let j = choose|j: int|
                                    0 <= j < old_view.len() && old_view[j].0 == k;
                                assert(new_view[j].0 == k);
                            }
                        }
                        assert forall|k: Seq<u8>| map_of(new_view).contains_key(k) implies map_of(
                            new_view,
                        )[k] == map_of(old_view).insert(key@, value@)[k] by {
                            lemma_map_of_domain(new_view, k);
                            let j = choose|j: int| 0 <= j < new_view.len() && new_view[j].0 == k;
                            assert(map_of(new_view)[k] == new_view[j].1);
                            if k != key@ {
                                assert(j != i);
                                assert(new_view[j] == old_view[j]);
                                assert(map_of(old_view)[k] == old_view[j].1);
                            } else {
                                assert(j == i) by {
                                    if j != i {
                                        crate::keys::lemma_key_lt_irrefl(new_view[j].0);
                                    }
                                }
                            }
                        }
                        assert(map_of(new_view) =~= map_of(old_view).insert(key@, value@));
                        assert(map_of(old_view)[key@] == old_view[i as int].1);
            }
            return Some(prev_entry.value);
        }
        proof {
            // The slot key, if any, is strictly greater than the new key.
            if i < old_view.len() {
                crate::keys::lemma_key_lt_trichotomy(key@, old_view[i as int].0);
            }
        }
        self.entries.insert(i, Entry { key, value });
        proof {
            let new_view = self@;
            assert(new_view =~= old_view.insert(i as int, (key@, value@)));
            assert(forall|j: int| 0 <= j < i ==> new_view[j] == old_view[j]);
            assert(forall|j: int| i < j < new_view.len() ==> new_view[j] == old_view[j - 1]);
            assert(new_view[i as int] == (key@, value@));
            // The new key is larger than everything before it and, by
            // transitivity, smaller than everything after it.
            assert forall|p: int, q: int| 0 <= p < q < new_view.len() implies key_lt(
                new_view[p].0,
                new_view[q].0,
            ) by {
                if p < i && q == i {
                } else if p == i && q > i {
                    if i < old_view.len() {
                        lemma_key_lt_trans(key@, old_view[i as int].0, old_view[q - 1].0);
                    }
                } else if p < i && q > i {
                    lemma_key_lt_trans(old_view[p].0, key@, new_view[q].0);
                    if i < old_view.len() {
                        lemma_key_lt_trans(key@, old_view[i as int].0, old_view[q - 1].0);
                    }
                }
            }
            assert(sorted_strict(new_view));
            assert(!seq_has_key(old_view, key@)) by {
                if seq_has_key(old_view, key@) {
                    let j = choose|j: int| 0 <= j < old_view.len() && old_view[j].0 == key@;
                    if j < i {
                        crate::keys::lemma_key_lt_irrefl(key@);
                    } else if j == i {
                        crate::keys::lemma_key_lt_irrefl(key@);
                    } else {
                        lemma_key_lt_trans(key@, old_view[i as int].0, old_view[j].0);
                        crate::keys::lemma_key_lt_irrefl(key@);
                    }
                }
            }
            lemma_map_of_domain(old_view, key@);
            lemma_sorted_lookup(new_view);
            lemma_sorted_lookup(old_view);
            assert forall|k: Seq<u8>|
                map_of(new_view).contains_key(k) == map_of(old_view).insert(
                    key@,
                    value@,
                ).contains_key(k) by {
                lemma_map_of_domain(new_view, k);
                lemma_map_of_domain(old_view, k);
                if seq_has_key(new_view, k) {
                    let j = choose|j: int| 0 <= j < new_view.len() && new_view[j].0 == k;
                    if j < i {
                        assert(old_view[j].0 == k);
                    } else if j > i {
                        assert(old_view[j - 1].0 == k);
                    }
                }
                if seq_has_key(old_view, k) {
                    let j = choose|j: int| 0 <= j < old_view.len() && old_view[j].0 == k;
                    if j < i {
                        assert(new_view[j].0 == k);
                    } else {
                        assert(new_view[j + 1].0 == k);
                    }
                }
            }
            assert forall|k: Seq<u8>| map_of(new_view).contains_key(k) implies map_of(new_view)[k]
                == map_of(old_view).insert(key@, value@)[k] by {
                lemma_map_of_domain(new_view, k);
                let j = choose|j: int| 0 <= j < new_view.len() && new_view[j].0 == k;
                assert(map_of(new_view)[k] == new_view[j].1);
                if k == key@ {
                    assert(j == i) by {
                        if j < i {
                            crate::keys::lemma_key_lt_irrefl(key@);
                        } else if j > i {
                            crate::keys::lemma_key_lt_irrefl(key@);
                        }
                    }
                } else {
                    assert(j != i);
                    if j < i {
                        assert(old_view[j] == new_view[j]);
                        assert(map_of(old_view)[k] == old_view[j].1);
                    } else {
                        assert(old_view[j - 1] == new_view[j]);
                        assert(map_of(old_view)[k] == old_view[j - 1].1);
                    }
                }
            }
            assert(map_of(new_view) =~= map_of(old_view).insert(key@, value@));
        }
        None
    }
}

} // verus!
