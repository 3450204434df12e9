use lsm_tree::codec::{decode_entry, decode_entry_at, decode_offset, encode_entry, encode_offset,
    CompactionAction, Entry, EntryOffset};
use lsm_tree::engine::{GetOutcome, LSMTree};
use lsm_tree::index_record_size;
use lsm_tree::manifest::{decode_action, encode_action};
use lsm_tree::memtable::Memtable;
use lsm_tree::merge::{merge_runs, merge_two};
use lsm_tree::paths::{ext_compact_action, ext_data, ext_index, ext_memtable, format_name,
    parse_name};
use lsm_tree::recovery::build_recovery_plan;
use lsm_tree::segment::{build_segment, segment_search};
use lsm_tree::wal::replay_wal;

use bincode::Options;

fn entry(k: &str, v: &str) -> Entry {
    Entry { key: k.as_bytes().to_vec(), value: v.as_bytes().to_vec() }
}

#[test]
fn entry_codec_round_trip() {
    let e = entry("alpha", "one");
    let bytes = encode_entry(&e);
    let back = decode_entry(bytes.as_slice()).unwrap();
    assert_eq!(back.key, b"alpha".to_vec());
    assert_eq!(back.value, b"one".to_vec());
}

#[test]
fn entry_codec_matches_reference_wire_format() {
    // The on-disk format is what fixed-width little-endian serialization of
    // a (key, value) string struct produces.
    let e = entry("key", "value");
    let mine = encode_entry(&e);
    let reference = bincode::DefaultOptions::new()
        .with_fixint_encoding()
        .serialize(&("key".to_string(), "value".to_string()))
        .unwrap();
    assert_eq!(mine, reference);
}

#[test]
fn offset_codec_matches_reference_wire_format() {
    let o = EntryOffset { entry_offset: 513, entry_size: 77 };
    let mine = encode_offset(&o);
    let reference = bincode::DefaultOptions::new()
        .with_fixint_encoding()
        .serialize(&(513u64, 77u64))
        .unwrap();
    assert_eq!(mine, reference);
    assert_eq!(mine.len(), index_record_size());
}

#[test]
fn entry_codec_rejects_trailing_bytes() {
    let mut bytes = encode_entry(&entry("a", "b"));
    bytes.push(0);
    assert!(decode_entry(bytes.as_slice()).is_err());
}

#[test]
fn entry_codec_rejects_truncation() {
    let bytes = encode_entry(&entry("abc", "def"));
    let cut = bytes[..bytes.len() - 1].to_vec();
    assert!(decode_entry(cut.as_slice()).is_err());
    assert!(decode_entry_at(&[1, 2, 3], 0).is_err());
}

#[test]
fn offset_codec_round_trip() {
    let o = EntryOffset { entry_offset: 42, entry_size: 16 };
    let bytes = encode_offset(&o);
    let back = decode_offset(bytes.as_slice()).unwrap();
    assert_eq!(back.entry_offset, 42);
    assert_eq!(back.entry_size, 16);
    assert!(decode_offset(&bytes[..15]).is_err());
}

#[test]
fn memtable_overwrite() {
    let mut mt = Memtable::new(16);
    assert_eq!(mt.set(b"k".to_vec(), b"v1".to_vec()), None);
    assert_eq!(mt.set(b"k".to_vec(), b"v2".to_vec()), Some(b"v1".to_vec()));
    assert_eq!(mt.get(&b"k".to_vec()), Some(b"v2".to_vec()));
    assert_eq!(mt.len(), 1);
}

#[test]
fn memtable_iterates_in_key_order() {
    let mut mt = Memtable::new(16);
    mt.set(b"pear".to_vec(), b"3".to_vec());
    mt.set(b"apple".to_vec(), b"1".to_vec());
    mt.set(b"mango".to_vec(), b"2".to_vec());
    let keys: Vec<Vec<u8>> = mt.entries().iter().map(|e| e.key.clone()).collect();
    assert_eq!(keys, vec![b"apple".to_vec(), b"mango".to_vec(), b"pear".to_vec()]);
}

#[test]
fn segment_index_is_aligned_and_counts_entries() {
    let entries = vec![entry("a", "1"), entry("b", "2"), entry("c", "3")];
    let (data, index) = build_segment(&entries);
    assert_eq!(index.len() % index_record_size(), 0);
    assert_eq!(index.len() / index_record_size(), entries.len());
    // Every entry in the data file decodes in key order.
    let mut pos = 0;
    let mut keys = Vec::new();
    while pos < data.len() {
        let (e, next) = decode_entry_at(data.as_slice(), pos).unwrap();
        keys.push(e.key);
        pos = next;
    }
    assert_eq!(keys, vec![b"a".to_vec(), b"b".to_vec(), b"c".to_vec()]);
}

#[test]
fn segment_search_finds_every_key() {
    let entries = vec![entry("apple", "1"), entry("mango", "2"), entry("pear", "3")];
    let (data, index) = build_segment(&entries);
    for e in &entries {
        let got = segment_search(&data, &index, &e.key).unwrap();
        assert_eq!(got, Some(e.value.clone()));
    }
    assert_eq!(segment_search(&data, &index, &b"zzz".to_vec()).unwrap(), None);
    assert_eq!(segment_search(&data, &index, &b"".to_vec()).unwrap(), None);
}

#[test]
fn empty_index_answers_not_found() {
    let data: Vec<u8> = Vec::new();
    let index: Vec<u8> = Vec::new();
    assert_eq!(segment_search(&data, &index, &b"k".to_vec()).unwrap(), None);
}

#[test]
fn corrupt_index_is_reported() {
    let entries = vec![entry("a", "1")];
    let (data, mut index) = build_segment(&entries);
    // Point the record far outside the data file.
    index[0] = 0xff;
    index[7] = 0xff;
    assert!(segment_search(&data, &index, &b"a".to_vec()).is_err());
}

#[test]
fn wal_replay_applies_writes_in_order() {
    let mut wal: Vec<u8> = Vec::new();
    wal.extend_from_slice(&encode_entry(&entry("k", "old")));
    wal.extend_from_slice(&encode_entry(&entry("other", "x")));
    wal.extend_from_slice(&encode_entry(&entry("k", "new")));
    let mt = replay_wal(&wal, 1024);
    assert_eq!(mt.get(&b"k".to_vec()), Some(b"new".to_vec()));
    assert_eq!(mt.get(&b"other".to_vec()), Some(b"x".to_vec()));
    assert_eq!(mt.len(), 2);
}

#[test]
fn wal_replay_stops_at_torn_record() {
    let mut wal: Vec<u8> = Vec::new();
    wal.extend_from_slice(&encode_entry(&entry("a", "1")));
    let torn = encode_entry(&entry("b", "2"));
    wal.extend_from_slice(&torn[..torn.len() - 1]);
    let mt = replay_wal(&wal, 1024);
    assert_eq!(mt.get(&b"a".to_vec()), Some(b"1".to_vec()));
    assert_eq!(mt.get(&b"b".to_vec()), None);
}

#[test]
fn merge_keeps_last_writer() {
    let oldest = vec![entry("k", "old"), entry("x", "1")];
    let mid = vec![entry("k", "mid")];
    let newest = vec![entry("k", "new"), entry("z", "9")];
    let merged = merge_runs(&vec![oldest, mid, newest]);
    let keys: Vec<Vec<u8>> = merged.iter().map(|e| e.key.clone()).collect();
    assert_eq!(keys, vec![b"k".to_vec(), b"x".to_vec(), b"z".to_vec()]);
    assert_eq!(merged[0].value, b"new".to_vec());
    // The compacted segment answers with the newest value.
    let (data, index) = build_segment(&merged);
    assert_eq!(segment_search(&data, &index, &b"k".to_vec()).unwrap(), Some(b"new".to_vec()));
}

#[test]
fn merge_two_prefers_right_run() {
    let a = vec![entry("a", "1"), entry("b", "2")];
    let b = vec![entry("b", "20"), entry("c", "30")];
    let m = merge_two(&a, &b);
    let pairs: Vec<(Vec<u8>, Vec<u8>)> = m.iter().map(|e| (e.key.clone(), e.value.clone())).collect();
    assert_eq!(
        pairs,
        vec![
            (b"a".to_vec(), b"1".to_vec()),
            (b"b".to_vec(), b"20".to_vec()),
            (b"c".to_vec(), b"30".to_vec()),
        ]
    );
}

#[test]
fn manifest_round_trip() {
    let action = CompactionAction {
        renames: vec![(b"x.compact_data".to_vec(), b"x.data".to_vec())],
        deletes: vec![b"a.data".to_vec(), b"a.index".to_vec()],
    };
    let bytes = encode_action(&action);
    let back = decode_action(bytes.as_slice()).unwrap();
    assert_eq!(back.renames, action.renames);
    assert_eq!(back.deletes, action.deletes);
}

#[test]
fn manifest_rejects_trailing_bytes() {
    let action = CompactionAction { renames: vec![], deletes: vec![] };
    let mut bytes = encode_action(&action);
    bytes.push(7);
    assert!(decode_action(bytes.as_slice()).is_err());
}

#[test]
fn names_format_and_parse() {
    let ext = ext_data();
    let name = format_name(7, ext.as_slice());
    assert_eq!(name, b"00000000000000000007.data".to_vec());
    assert_eq!(parse_name(name.as_slice(), ext.as_slice()), Some(7));
    assert_eq!(parse_name(b"0000000000000000000x.data", ext.as_slice()), None);
    assert_eq!(parse_name(b"00000000000000000007.index", ext.as_slice()), None);
    assert_eq!(parse_name(b"7.data", ext.as_slice()), None);
    // One above u64::MAX does not parse.
    assert_eq!(parse_name(b"18446744073709551616.data", ext.as_slice()), None);
    assert_eq!(
        parse_name(b"18446744073709551615.data", ext.as_slice()),
        Some(u64::MAX)
    );
}

#[test]
fn recovery_plan_discovers_state() {
    // An undecodable manifest is only removed; it contributes no action,
    // so discovery sees the listing as it stands.
    let listing: Vec<Vec<u8>> = vec![
        b"00000000000000000000.data".to_vec(),
        b"00000000000000000000.index".to_vec(),
        b"00000000000000000002.data".to_vec(),
        b"00000000000000000002.index".to_vec(),
        b"00000000000000000004.memtable".to_vec(),
        b"00000000000000000003.compact_action".to_vec(),
        b"notes.txt".to_vec(),
    ];
    let plan = build_recovery_plan(&listing, &vec![]).unwrap();
    assert_eq!(plan.segment_indices, vec![0, 2]);
    assert_eq!(plan.write_sstable_index, 3);
    assert_eq!(plan.manifest_indices, vec![3]);
    assert_eq!(plan.stale_wal_index, None);
    assert_eq!(plan.wal_index, 4);
}

#[test]
fn recovery_plan_sees_directory_after_manifest_replay() {
    // A compaction of segments 0, 2, 4 into 5 committed its manifest and
    // crashed before any rename: discovery must name segment 5, none of the
    // consumed inputs, and place the next flush above the output.
    let listing: Vec<Vec<u8>> = vec![
        b"00000000000000000000.data".to_vec(),
        b"00000000000000000000.index".to_vec(),
        b"00000000000000000002.data".to_vec(),
        b"00000000000000000002.index".to_vec(),
        b"00000000000000000004.data".to_vec(),
        b"00000000000000000004.index".to_vec(),
        b"00000000000000000005.compact_data".to_vec(),
        b"00000000000000000005.compact_index".to_vec(),
        b"00000000000000000005.compact_action".to_vec(),
        b"00000000000000000006.memtable".to_vec(),
    ];
    let action = CompactionAction {
        renames: vec![
            (
                b"00000000000000000005.compact_data".to_vec(),
                b"00000000000000000005.data".to_vec(),
            ),
            (
                b"00000000000000000005.compact_index".to_vec(),
                b"00000000000000000005.index".to_vec(),
            ),
        ],
        deletes: vec![
            b"00000000000000000000.data".to_vec(),
            b"00000000000000000000.index".to_vec(),
            b"00000000000000000002.data".to_vec(),
            b"00000000000000000002.index".to_vec(),
            b"00000000000000000004.data".to_vec(),
            b"00000000000000000004.index".to_vec(),
        ],
    };
    let plan = build_recovery_plan(&listing, &vec![action]).unwrap();
    assert_eq!(plan.manifest_indices, vec![5]);
    assert_eq!(plan.segment_indices, vec![5]);
    assert_eq!(plan.write_sstable_index, 6);
    assert_eq!(plan.stale_wal_index, None);
    assert_eq!(plan.wal_index, 6);
}

#[test]
fn recovery_plan_replays_manifest_twice_the_same() {
    // Replaying the same manifest again (a crash between replay and manifest
    // removal) leaves discovery unchanged: renames without a source and
    // deletes without a file are skipped.
    let listing: Vec<Vec<u8>> = vec![
        b"00000000000000000000.data".to_vec(),
        b"00000000000000000000.index".to_vec(),
        b"00000000000000000003.compact_data".to_vec(),
        b"00000000000000000003.compact_index".to_vec(),
        b"00000000000000000003.compact_action".to_vec(),
    ];
    let action = || CompactionAction {
        renames: vec![
            (
                b"00000000000000000003.compact_data".to_vec(),
                b"00000000000000000003.data".to_vec(),
            ),
            (
                b"00000000000000000003.compact_index".to_vec(),
                b"00000000000000000003.index".to_vec(),
            ),
        ],
        deletes: vec![
            b"00000000000000000000.data".to_vec(),
            b"00000000000000000000.index".to_vec(),
        ],
    };
    let once = build_recovery_plan(&listing, &vec![action()]).unwrap();
    let twice = build_recovery_plan(&listing, &vec![action(), action()]).unwrap();
    assert_eq!(once.segment_indices, vec![3]);
    assert_eq!(twice.segment_indices, once.segment_indices);
    assert_eq!(twice.write_sstable_index, once.write_sstable_index);
}

#[test]
fn recovery_plan_flushes_stale_wal() {
    let listing: Vec<Vec<u8>> = vec![
        b"00000000000000000000.memtable".to_vec(),
        b"00000000000000000002.memtable".to_vec(),
    ];
    let plan = build_recovery_plan(&listing, &vec![]).unwrap();
    assert_eq!(plan.stale_wal_index, Some(0));
    assert_eq!(plan.wal_index, 2);
    assert_eq!(plan.write_sstable_index, 0);
    assert!(plan.segment_indices.is_empty());
}

#[test]
fn recovery_rejects_three_wals() {
    let listing: Vec<Vec<u8>> = vec![
        b"00000000000000000000.memtable".to_vec(),
        b"00000000000000000002.memtable".to_vec(),
        b"00000000000000000004.memtable".to_vec(),
    ];
    assert!(build_recovery_plan(&listing, &vec![]).is_err());
}

#[test]
fn recovery_plan_on_recovered_directory_is_empty() {
    // Second recovery in a row decides to do nothing: no manifest, one WAL.
    let listing: Vec<Vec<u8>> = vec![
        b"00000000000000000000.data".to_vec(),
        b"00000000000000000000.index".to_vec(),
        b"00000000000000000002.memtable".to_vec(),
    ];
    let plan = build_recovery_plan(&listing, &vec![]).unwrap();
    assert!(plan.manifest_indices.is_empty());
    assert_eq!(plan.stale_wal_index, None);
    assert_eq!(plan.wal_index, 2);
}

#[test]
fn engine_empty_lookup_misses() {
    let t = LSMTree::new(Memtable::new(1024), 0, Vec::new(), 0).unwrap();
    match t.get(&b"anything".to_vec()) {
        GetOutcome::Found(_) => panic!("empty engine answered a lookup"),
        GetOutcome::SearchSegments(order) => assert!(order.is_empty()),
    }
}

#[test]
fn engine_set_then_get_overwrites() {
    let mut t = LSMTree::new(Memtable::new(1024), 0, Vec::new(), 0).unwrap();
    let (prev, record, full) = t.set(b"k".to_vec(), b"v1".to_vec());
    assert_eq!(prev, None);
    assert_eq!(record, encode_entry(&entry("k", "v1")));
    assert!(!full);
    let (prev, _, _) = t.set(b"k".to_vec(), b"v2".to_vec());
    assert_eq!(prev, Some(b"v1".to_vec()));
    match t.get(&b"k".to_vec()) {
        GetOutcome::Found(v) => assert_eq!(v, b"v2".to_vec()),
        GetOutcome::SearchSegments(_) => panic!("lookup missed a memtable key"),
    }
}

#[test]
fn active_memtable_masks_older_layers() {
    // A segment holds the stale value; the active memtable masks it.
    let mut t = LSMTree::new(Memtable::new(1024), 1, vec![0], 0).unwrap();
    t.set(b"k".to_vec(), b"new".to_vec());
    match t.get(&b"k".to_vec()) {
        GetOutcome::Found(v) => assert_eq!(v, b"new".to_vec()),
        GetOutcome::SearchSegments(_) => panic!("segments consulted before memory"),
    }
}

#[test]
fn engine_searches_segments_newest_first() {
    let t = LSMTree::new(Memtable::new(1024), 7, vec![0, 2, 4], 0).unwrap();
    match t.get(&b"missing".to_vec()) {
        GetOutcome::Found(_) => panic!("nothing was written"),
        GetOutcome::SearchSegments(order) => assert_eq!(order, vec![4, 2, 0]),
    }
}

#[test]
fn flush_cycle_rotates_wal_and_exposes_segment() {
    let mut t = LSMTree::new(Memtable::new(2), 0, Vec::new(), 0).unwrap();
    let (_, _, full) = t.set(b"a".to_vec(), b"1".to_vec());
    assert!(!full);
    let (_, _, full) = t.set(b"b".to_vec(), b"2".to_vec());
    assert!(full);
    let job = t.flush_swap().unwrap().expect("a full memtable has work to flush");
    assert_eq!(job.old_wal_name, b"00000000000000000000.memtable".to_vec());
    assert_eq!(job.new_wal_name, b"00000000000000000002.memtable".to_vec());
    assert_eq!(job.data_name, b"00000000000000000000.data".to_vec());
    assert_eq!(job.index_name, b"00000000000000000000.index".to_vec());
    assert_eq!(job.segment_index, 0);
    // While flushing, the frozen entries are still visible.
    match t.get(&b"a".to_vec()) {
        GetOutcome::Found(v) => assert_eq!(v, b"1".to_vec()),
        GetOutcome::SearchSegments(_) => panic!("flushing memtable invisible"),
    }
    let frozen = t.flushing_entries().unwrap();
    let (data, index) = build_segment(frozen);
    assert_eq!(index.len() / index_record_size(), 2);
    assert_eq!(segment_search(&data, &index, &b"b".to_vec()).unwrap(), Some(b"2".to_vec()));
    t.flush_finish().unwrap();
    match t.get(&b"a".to_vec()) {
        GetOutcome::Found(_) => panic!("memtable should be empty after flush"),
        GetOutcome::SearchSegments(order) => assert_eq!(order, vec![0]),
    }
}

#[test]
fn flush_of_empty_memtable_does_nothing() {
    let mut t = LSMTree::new(Memtable::new(1024), 0, Vec::new(), 0).unwrap();
    match t.flush_swap() {
        Ok(None) => {},
        _ => panic!("an empty memtable must flush as a no-op"),
    }
}

#[test]
fn compact_updates_read_set_and_manifest() {
    let mut t = LSMTree::new(Memtable::new(1024), 6, vec![0, 2, 4], 0).unwrap();
    let inputs = vec![0u64, 2, 4];
    let action = t.compaction_action(&inputs, 5);
    assert_eq!(
        action.renames,
        vec![
            (
                b"00000000000000000005.compact_data".to_vec(),
                b"00000000000000000005.data".to_vec()
            ),
            (
                b"00000000000000000005.compact_index".to_vec(),
                b"00000000000000000005.index".to_vec()
            ),
        ]
    );
    assert_eq!(action.deletes.len(), 6);
    assert_eq!(action.deletes[0], b"00000000000000000000.data".to_vec());
    assert_eq!(action.deletes[1], b"00000000000000000000.index".to_vec());
    // The manifest survives its trip through the wire format.
    let bytes = encode_action(&action);
    let back = decode_action(bytes.as_slice()).unwrap();
    assert_eq!(back.renames, action.renames);
    assert_eq!(back.deletes, action.deletes);
    t.compact_install(&inputs, 5).unwrap();
    match t.get(&b"missing".to_vec()) {
        GetOutcome::Found(_) => panic!("nothing was written"),
        GetOutcome::SearchSegments(order) => assert_eq!(order, vec![5]),
    }
}

#[test]
fn compact_refuses_stale_output_index() {
    let mut t = LSMTree::new(Memtable::new(1024), 8, vec![0, 2, 4], 0).unwrap();
    // Output below a surviving segment would corrupt lookup order.
    assert!(t.compact_install(&vec![0], 1).is_err());
    // Output at or above the flush sequence would collide with a flush.
    assert!(t.compact_install(&vec![0, 2, 4], 8).is_err());
}
