use vstd::prelude::*;
use vstd::bytes::{spec_u64_from_le_bytes, spec_u64_to_le_bytes, u64_from_le_bytes, u64_to_le_bytes,
    lemma_auto_spec_u64_to_from_le_bytes};
use vstd::slice::slice_subrange;

verus! {

/// A key-value pair; keys order entries, values are opaque.
pub struct Entry {
    pub key: Vec<u8>,
    pub value: Vec<u8>,
}

/// Position and length of one entry inside a segment's data file.
pub struct EntryOffset {
    pub entry_offset: u64,
    pub entry_size: u64,
}

/// The record a committed compaction leaves on disk: renames to perform,
/// then files to delete, in that order of application on recovery.
pub struct CompactionAction {
    pub renames: Vec<(Vec<u8>, Vec<u8>)>,
    pub deletes: Vec<Vec<u8>>,
}

/// Why a read of an on-disk record was rejected.
#[derive(Debug, PartialEq, Eq)]
pub enum StoreError {
    CorruptRecord,
    InvariantViolation,
}

/// Encoding of a length-prefixed byte string: little-endian `u64` length,
/// then the raw bytes.
pub open spec fn spec_encode_bytes(s: Seq<u8>) -> Seq<u8> {
    spec_u64_to_le_bytes(s.len() as u64) + s
}

/// Encoding of an entry: length-prefixed key, then length-prefixed value.
pub open spec fn spec_encode_entry(key: Seq<u8>, value: Seq<u8>) -> Seq<u8> {
    spec_encode_bytes(key) + spec_encode_bytes(value)
}

/// Encoding of an index record: two little-endian `u64` fields, 16 bytes.
pub open spec fn spec_encode_offset(entry_offset: u64, entry_size: u64) -> Seq<u8> {
    spec_u64_to_le_bytes(entry_offset) + spec_u64_to_le_bytes(entry_size)
}

/// Greedy decode of a length-prefixed byte string at `pos`; yields the bytes
/// and the position just past them.
pub open spec fn spec_decode_bytes(b: Seq<u8>, pos: int) -> Option<(Seq<u8>, int)> {
    if 0 <= pos && pos + 8 <= b.len() {
        let n = spec_u64_from_le_bytes(b.subrange(pos, pos + 8)) as int;
        if pos + 8 + n <= b.len() {
            Some((b.subrange(pos + 8, pos + 8 + n), pos + 8 + n))
        } else {
            None
        }
    } else {
        None
    }
}

/// Decode of an entry at `pos`: key, value, and the position just past them.
pub open spec fn spec_decode_entry(b: Seq<u8>, pos: int) -> Option<(Seq<u8>, Seq<u8>, int)> {
    match spec_decode_bytes(b, pos) {
        Some((key, vpos)) => match spec_decode_bytes(b, vpos) {
            Some((value, end)) => Some((key, value, end)),
            None => None,
        },
        None => None,
    }
}

/// Decode of an index record at `pos`.
pub open spec fn spec_decode_offset(b: Seq<u8>, pos: int) -> Option<(u64, u64)> {
    if 0 <= pos && pos + 16 <= b.len() {
        Some(
            (
                spec_u64_from_le_bytes(b.subrange(pos, pos + 8)),
                spec_u64_from_le_bytes(b.subrange(pos + 8, pos + 16)),
            ),
        )
    } else {
        None
    }
}

/// Decoding reads back exactly what encoding wrote, wherever an encoded
/// byte string sits inside a larger buffer.
pub proof fn lemma_decode_encode_bytes(b: Seq<u8>, pos: int, s: Seq<u8>)
    requires
        0 <= pos,
        s.len() <= u64::MAX,
        pos + spec_encode_bytes(s).len() <= b.len(),
        b.subrange(pos, pos + spec_encode_bytes(s).len() as int) == spec_encode_bytes(s),
    ensures
        spec_decode_bytes(b, pos) == Some((s, pos + 8 + s.len())),
{
    lemma_auto_spec_u64_to_from_le_bytes();
    let enc = spec_encode_bytes(s);
    assert(enc.len() == 8 + s.len());
    assert(b.subrange(pos, pos + 8) =~= enc.subrange(0, 8));
    assert(enc.subrange(0, 8) =~= spec_u64_to_le_bytes(s.len() as u64));
    assert(spec_u64_from_le_bytes(b.subrange(pos, pos + 8)) == s.len() as u64);
    assert(b.subrange(pos + 8, pos + 8 + s.len() as int) =~= enc.subrange(8, enc.len() as int));
    assert(enc.subrange(8, enc.len() as int) =~= s);
}

/// Round trip for an entry encoded at `pos` inside a larger buffer.
pub proof fn lemma_decode_encode_entry(b: Seq<u8>, pos: int, key: Seq<u8>, value: Seq<u8>)
    requires
        0 <= pos,
        key.len() <= u64::MAX,
        value.len() <= u64::MAX,
        pos + spec_encode_entry(key, value).len() <= b.len(),
        b.subrange(pos, pos + spec_encode_entry(key, value).len() as int) == spec_encode_entry(
            key,
            value,
        ),
    ensures
        spec_decode_entry(b, pos) == Some(
            (key, value, pos + spec_encode_entry(key, value).len()),
        ),
{
    lemma_auto_spec_u64_to_from_le_bytes();
    let enc = spec_encode_entry(key, value);
    let ek = spec_encode_bytes(key);
    let ev = spec_encode_bytes(value);
    assert(enc.len() == ek.len() + ev.len());
    assert(b.subrange(pos, pos + ek.len() as int) =~= enc.subrange(0, ek.len() as int));
    assert(enc.subrange(0, ek.len() as int) =~= ek);
    lemma_decode_encode_bytes(b, pos, key);
    let vpos = pos + ek.len();
    assert(b.subrange(vpos, vpos + ev.len() as int) =~= enc.subrange(
        ek.len() as int,
        enc.len() as int,
    ));
    assert(enc.subrange(ek.len() as int, enc.len() as int) =~= ev);
    lemma_decode_encode_bytes(b, vpos, value);
}

/// Round trip for an index record encoded at `pos` inside a larger buffer.
pub proof fn lemma_decode_encode_offset(b: Seq<u8>, pos: int, off: u64, size: u64)
    requires
        0 <= pos,
        pos + 16 <= b.len(),
        b.subrange(pos, pos + 16) == spec_encode_offset(off, size),
    ensures
        spec_decode_offset(b, pos) == Some((off, size)),
{
    lemma_auto_spec_u64_to_from_le_bytes();
    let enc = spec_encode_offset(off, size);
    assert(b.subrange(pos, pos + 8) =~= enc.subrange(0, 8));
    assert(enc.subrange(0, 8) =~= spec_u64_to_le_bytes(off));
    assert(b.subrange(pos + 8, pos + 16) =~= enc.subrange(8, 16));
    assert(enc.subrange(8, 16) =~= spec_u64_to_le_bytes(size));
}

/// Copy of a byte vector.
pub fn clone_bytes(v: &Vec<u8>) -> (r: Vec<u8>)
    ensures
        r@ == v@,
{
    let mut r: Vec<u8> = Vec::new();
    r.extend_from_slice(v.as_slice());
    assert(r@ =~= v@);
    r
}

/// Copy of an entry.
pub fn clone_entry(e: &Entry) -> (r: Entry)
    ensures
        r.key@ == e.key@,
        r.value@ == e.value@,
{
    Entry { key: clone_bytes(&e.key), value: clone_bytes(&e.value) }
}

/// Append the length-prefixed encoding of `s` to `out`.
fn push_encoded_bytes(out: &mut Vec<u8>, s: &Vec<u8>)
    ensures
        final(out)@ == old(out)@ + spec_encode_bytes(s@),
{
    let mut len_bytes = u64_to_le_bytes(s.len() as u64);
    out.append(&mut len_bytes);
    out.extend_from_slice(s.as_slice());
    assert(out@ =~= old(out)@ + spec_encode_bytes(s@));
}

/// Encode an entry as it is laid out in data files and in the WAL.
pub fn encode_entry(e: &Entry) -> (out: Vec<u8>)
    ensures
        out@ == spec_encode_entry(e.key@, e.value@),
{
    let mut out: Vec<u8> = Vec::new();
    push_encoded_bytes(&mut out, &e.key);
    push_encoded_bytes(&mut out, &e.value);
    assert(out@ =~= spec_encode_entry(e.key@, e.value@));
    out
}

/// Encode an index record; always 16 bytes.
pub fn encode_offset(o: &EntryOffset) -> (out: Vec<u8>)
    ensures
        out@ == spec_encode_offset(o.entry_offset, o.entry_size),
        out@.len() == 16,
{
    let mut out = u64_to_le_bytes(o.entry_offset);
    let mut size_bytes = u64_to_le_bytes(o.entry_size);
    out.append(&mut size_bytes);
    out
}

/// Decode a length-prefixed byte string at `pos`.
pub fn decode_bytes_at(b: &[u8], pos: usize) -> (r: Result<(Vec<u8>, usize), StoreError>)
    ensures
        match r {
            Ok((s, next)) => spec_decode_bytes(b@, pos as int) == Some((s@, next as int))
                && pos < next <= b@.len(),
            Err(_) => spec_decode_bytes(b@, pos as int) is None,
        },
{
    if b.len() < 8 || pos > b.len() - 8 {
        return Err(StoreError::CorruptRecord);
    }
    let len_slice = slice_subrange(b, pos, pos + 8);
    let n = u64_from_le_bytes(len_slice);
    let remaining: usize = b.len() - (pos + 8);
    if n > remaining as u64 {
        return Err(StoreError::CorruptRecord);
    }
    let n_usize: usize = n as usize;
    let payload = slice_subrange(b, pos + 8, pos + 8 + n_usize);
    let mut out: Vec<u8> = Vec::new();
    out.extend_from_slice(payload);
    assert(out@ =~= b@.subrange(pos as int + 8, pos as int + 8 + n as int));
    Ok((out, pos + 8 + n_usize))
}

/// Decode an entry at `pos`; rejects records that run past the buffer.
pub fn decode_entry_at(b: &[u8], pos: usize) -> (r: Result<(Entry, usize), StoreError>)
    ensures
        match r {
            Ok((e, next)) => spec_decode_entry(b@, pos as int) == Some(
                (e.key@, e.value@, next as int),
            ) && pos < next <= b@.len(),
            Err(_) => spec_decode_entry(b@, pos as int) is None,
        },
{
    let (key, vpos) = match decode_bytes_at(b, pos) {
        Ok(x) => x,
        Err(e) => {
            return Err(e);
        },
    };
    let (value, end) = match decode_bytes_at(b, vpos) {
        Ok(x) => x,
        Err(e) => {
            return Err(e);
        },
    };
    Ok((Entry { key, value }, end))
}

/// Decode a whole buffer as a single entry; trailing bytes are rejected.
pub fn decode_entry(b: &[u8]) -> (r: Result<Entry, StoreError>)
    ensures
        match r {
            Ok(e) => spec_decode_entry(b@, 0) == Some((e.key@, e.value@, b@.len() as int)),
            Err(_) => match spec_decode_entry(b@, 0) {
                Some((k, v, end)) => end != b@.len(),
                None => true,
            },
        },
{
    match decode_entry_at(b, 0) {
        Ok((e, next)) => {
            if next == b.len() {
                Ok(e)
            } else {
                Err(StoreError::CorruptRecord)
            }
        },
        Err(e) => Err(e),
    }
}

/// Decode a whole 16-byte buffer as one index record; any other length is
/// rejected.
pub fn decode_offset(b: &[u8]) -> (r: Result<EntryOffset, StoreError>)
    ensures
        match r {
            Ok(o) => b@.len() == 16 && spec_decode_offset(b@, 0) == Some(
                (o.entry_offset, o.entry_size),
            ),
            Err(_) => b@.len() != 16,
        },
{
    if b.len() != 16 {
        return Err(StoreError::CorruptRecord);
    }
    let off_slice = slice_subrange(b, 0, 8);
    let size_slice = slice_subrange(b, 8, 16);
    let entry_offset = u64_from_le_bytes(off_slice);
    let entry_size = u64_from_le_bytes(size_slice);
    Ok(EntryOffset { entry_offset, entry_size })
}

/// Decode the index record at record position `i` of an index buffer.
pub fn decode_offset_at(b: &[u8], pos: usize) -> (r: Result<EntryOffset, StoreError>)
    ensures
        match r {
            Ok(o) => spec_decode_offset(b@, pos as int) == Some((o.entry_offset, o.entry_size)),
            Err(_) => spec_decode_offset(b@, pos as int) is None,
        },
{
    if b.len() < 16 || pos > b.len() - 16 {
        return Err(StoreError::CorruptRecord);
    }
    let off_slice = slice_subrange(b, pos, pos + 8);
    let size_slice = slice_subrange(b, pos + 8, pos + 16);
    let entry_offset = u64_from_le_bytes(off_slice);
    let entry_size = u64_from_le_bytes(size_slice);
    Ok(EntryOffset { entry_offset, entry_size })
}

} // verus!
