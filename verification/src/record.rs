//! The record codec: one mutation serialized to and from bytes.
//!
//! A record carries a kind tag (set or delete), a key and a payload, each
//! length-prefixed so that arbitrary binary content is safe.  SSTable files
//! and WAL files are both sequences of these records with different framing
//! around them; the codec itself knows nothing of sort order, tombstone
//! semantics or file-level framing.
//!
//! Layout of one record, integers little-endian:
//! `[tag: 1][key_len: 4][key bytes][payload_len: 4][payload bytes]`.

use vstd::prelude::*;
use vstd::bytes::{
    lemma_auto_spec_u32_to_from_le_bytes, spec_u32_from_le_bytes, spec_u32_to_le_bytes,
    u32_from_le_bytes, u32_to_le_bytes,
};
use vstd::slice::{slice_subrange, slice_to_vec};
use vstd::utf8::{encode_utf8, encode_utf8_valid_utf8, valid_utf8};
use crate::text::{bytes_to_string, lemma_encode_utf8_injective};
use crate::StoreError;

verus! {

/// The mathematical image of one record: kind, key text, payload bytes.
pub type RecordImage = (RecordKind, Seq<char>, Seq<u8>);

/// The kind of mutation a record carries.
#[derive(Clone, Copy, Debug, PartialEq, Eq, Structural)]
pub enum RecordKind {
    /// The key is bound to the payload.
    Put,
    /// The key is deleted; the payload is empty.
    Delete,
}

/// One record decoded from a byte stream.
#[derive(Debug, PartialEq, Eq)]
pub struct DecodedRecord {
    /// The kind tag.
    pub kind: RecordKind,
    /// The key, as text.
    pub key: String,
    /// The payload bytes (empty for a deletion).
    pub value: Vec<u8>,
}

impl View for DecodedRecord {
    type V = (RecordKind, Seq<char>, Seq<u8>);

    open spec fn view(&self) -> (RecordKind, Seq<char>, Seq<u8>) {
        (self.kind, self.key@, self.value@)
    }
}

/// The byte a kind is tagged with on disk.
pub open spec fn kind_tag(kind: RecordKind) -> u8 {
    match kind {
        RecordKind::Put => 0u8,
        RecordKind::Delete => 1u8,
    }
}

/// A key/payload pair whose lengths fit the 4-byte length fields.
pub open spec fn record_ok(key: Seq<char>, payload: Seq<u8>) -> bool {
    &&& encode_utf8(key).len() <= u32::MAX
    &&& payload.len() <= u32::MAX
}

/// The exact bytes of one encoded record.
pub open spec fn record_bytes(kind: RecordKind, key: Seq<char>, payload: Seq<u8>) -> Seq<u8> {
    let kb = encode_utf8(key);
    seq![kind_tag(kind)] + spec_u32_to_le_bytes(kb.len() as u32) + kb
        + spec_u32_to_le_bytes(payload.len() as u32) + payload
}

/// The bytes of a sequence of records, back to back.
pub open spec fn records_bytes(rs: Seq<(RecordKind, Seq<char>, Seq<u8>)>) -> Seq<u8>
    decreases rs.len(),
{
    if rs.len() == 0 {
        Seq::empty()
    } else {
        record_bytes(rs[0].0, rs[0].1, rs[0].2) + records_bytes(rs.skip(1))
    }
}

/// Every record of the sequence has lengths that fit their fields.
pub open spec fn records_ok(rs: Seq<(RecordKind, Seq<char>, Seq<u8>)>) -> bool {
    forall|i: int| 0 <= i < rs.len() ==> record_ok(#[trigger] rs[i].1, rs[i].2)
}

/// Key length field of the frame starting at `pos`, read from the bytes.
pub open spec fn frame_klen(b: Seq<u8>, pos: int) -> int {
    spec_u32_from_le_bytes(b.subrange(pos + 1, pos + 5)) as int
}

/// Payload length field of the frame starting at `pos`.
pub open spec fn frame_vlen(b: Seq<u8>, pos: int) -> int {
    spec_u32_from_le_bytes(
        b.subrange(pos + 5 + frame_klen(b, pos), pos + 9 + frame_klen(b, pos)),
    ) as int
}

/// Total length of the frame starting at `pos`.
pub open spec fn frame_len(b: Seq<u8>, pos: int) -> int {
    9 + frame_klen(b, pos) + frame_vlen(b, pos)
}

/// There is a structurally complete record frame at `pos`: the tag, both
/// length fields, and as many key and payload bytes as they declare.
pub open spec fn frame_complete(b: Seq<u8>, pos: int) -> bool {
    &&& 0 <= pos
    &&& pos + 9 <= b.len()
    &&& pos + 9 + frame_klen(b, pos) <= b.len()
    &&& pos + frame_len(b, pos) <= b.len()
}

/// The tag byte at `pos` is one a record can carry.
pub open spec fn frame_tag_ok(b: Seq<u8>, pos: int) -> bool {
    b[pos] == 0u8 || b[pos] == 1u8
}

/// The kind the tag byte at `pos` stands for.
pub open spec fn frame_kind(b: Seq<u8>, pos: int) -> RecordKind {
    if b[pos] == 0u8 {
        RecordKind::Put
    } else {
        RecordKind::Delete
    }
}

/// The key bytes of the frame starting at `pos`.
pub open spec fn frame_key_bytes(b: Seq<u8>, pos: int) -> Seq<u8> {
    b.subrange(pos + 5, pos + 5 + frame_klen(b, pos))
}

/// The payload bytes of the frame starting at `pos`.
pub open spec fn frame_payload(b: Seq<u8>, pos: int) -> Seq<u8> {
    b.subrange(pos + 9 + frame_klen(b, pos), pos + frame_len(b, pos))
}

/// Appends one self-delimiting record to `out`.
///
/// A key or payload too long for its 4-byte length field is rejected up
/// front and `out` is left untouched; silent truncation is never allowed.
pub fn write_record(out: &mut Vec<u8>, kind: RecordKind, key: &str, payload: &[u8]) -> (r: Result<
    (),
    StoreError,
>)
    ensures
        match r {
            Ok(()) => record_ok(key@, payload@) && final(out)@ == old(out)@ + record_bytes(
                kind,
                key@,
                payload@,
            ),
            Err(e) => {
                &&& e == StoreError::InvalidInput
                &&& !record_ok(key@, payload@)
                &&& final(out)@ == old(out)@
            },
        },
{
    let kb = key.as_bytes();
    if kb.len() > (u32::MAX as usize) {
        return Err(StoreError::InvalidInput);
    }
    if payload.len() > (u32::MAX as usize) {
        return Err(StoreError::InvalidInput);
    }
    let tag: u8 = match kind {
        RecordKind::Put => 0,
        RecordKind::Delete => 1,
    };
    out.push(tag);
    let mut klen_bytes = u32_to_le_bytes(kb.len() as u32);
    out.append(&mut klen_bytes);
    let mut key_bytes = slice_to_vec(kb);
    out.append(&mut key_bytes);
    let mut vlen_bytes = u32_to_le_bytes(payload.len() as u32);
    out.append(&mut vlen_bytes);
    let mut payload_bytes = slice_to_vec(payload);
    out.append(&mut payload_bytes);
    proof {
        assert(final(out)@ =~= old(out)@ + record_bytes(kind, key@, payload@));
    }
    Ok(())
}

/// Reads the next record from `bytes` at `pos`.
///
/// Returns `Ok(None)` on a clean end of stream (`pos` at the very end),
/// `Ok(Some((record, end)))` with the decoded record and the position just
/// past it, `Err(Truncated)` when the bytes end inside a record, and
/// `Err(InvalidData)` on an unknown tag or key bytes that are not UTF-8.
pub fn read_record(bytes: &[u8], pos: usize) -> (r: Result<
    Option<(DecodedRecord, usize)>,
    StoreError,
>)
    requires
        pos <= bytes@.len(),
    ensures
        match r {
            Ok(opt) => match opt {
                None => pos == bytes@.len(),
                Some((rec, end)) => {
                    &&& pos < bytes@.len()
                    &&& frame_complete(bytes@, pos as int)
                    &&& frame_tag_ok(bytes@, pos as int)
                    &&& rec.kind == frame_kind(bytes@, pos as int)
                    &&& encode_utf8(rec.key@) == frame_key_bytes(bytes@, pos as int)
                    &&& rec.value@ == frame_payload(bytes@, pos as int)
                    &&& record_ok(rec.key@, rec.value@)
                    &&& end == pos + frame_len(bytes@, pos as int)
                    &&& pos < end <= bytes@.len()
                    &&& bytes@.subrange(pos as int, end as int) == record_bytes(
                        rec.kind,
                        rec.key@,
                        rec.value@,
                    )
                },
            },
            Err(e) => {
                &&& pos < bytes@.len()
                &&& (e == StoreError::Truncated || e == StoreError::InvalidData)
                &&& (e == StoreError::Truncated <==> !frame_complete(bytes@, pos as int))
                &&& (e == StoreError::InvalidData ==> frame_complete(bytes@, pos as int) && (
                !frame_tag_ok(bytes@, pos as int) || !valid_utf8(
                    frame_key_bytes(bytes@, pos as int),
                )))
            },
        },
{
    let n = bytes.len();
    if pos == n {
        return Ok(None);
    }
    if n - pos < 9 {
        return Err(StoreError::Truncated);
    }
    let klen = u32_from_le_bytes(slice_subrange(bytes, pos + 1, pos + 5));
    let klen_us = klen as usize;
    assert(frame_klen(bytes@, pos as int) == klen_us);
    if klen_us > n - pos - 9 {
        return Err(StoreError::Truncated);
    }
    let key_start = pos + 5;
    let key_end = key_start + klen_us;
    let vlen = u32_from_le_bytes(slice_subrange(bytes, key_end, key_end + 4));
    let vlen_us = vlen as usize;
    assert(frame_vlen(bytes@, pos as int) == vlen_us);
    if vlen_us > n - key_end - 4 {
        assert(!frame_complete(bytes@, pos as int));
        return Err(StoreError::Truncated);
    }
    assert(frame_complete(bytes@, pos as int));
    let tag = *vstd::slice::slice_index_get(bytes, pos);
    if tag > 1 {
        return Err(StoreError::InvalidData);
    }
    let key_vec = slice_to_vec(slice_subrange(bytes, key_start, key_end));
    let key = match bytes_to_string(key_vec) {
        Some(s) => s,
        None => {
            return Err(StoreError::InvalidData);
        },
    };
    let val_start = key_end + 4;
    let val_end = val_start + vlen_us;
    let value = slice_to_vec(slice_subrange(bytes, val_start, val_end));
    let kind = if tag == 0 {
        RecordKind::Put
    } else {
        RecordKind::Delete
    };
    proof {
        lemma_auto_spec_u32_to_from_le_bytes();
        assert(spec_u32_to_le_bytes(klen) =~= bytes@.subrange(pos + 1, pos + 5));
        assert(spec_u32_to_le_bytes(vlen) =~= bytes@.subrange(
            key_end as int,
            key_end + 4,
        ));
        assert(bytes@.subrange(pos as int, val_end as int) =~= record_bytes(kind, key@, value@));
    }
    Ok(Some((DecodedRecord { kind, key, value }, val_end)))
}

/// The images of a sequence of decoded records.
pub open spec fn records_view(rs: Seq<DecodedRecord>) -> Seq<RecordImage> {
    rs.map(|i: int, r: DecodedRecord| r@)
}

/// Where an encoded record sits in a buffer, the frame read back from the
/// buffer recovers exactly the record's fields.
pub proof fn lemma_record_bytes_frame(
    k: RecordKind,
    c: Seq<char>,
    p: Seq<u8>,
    rest: Seq<u8>,
    b: Seq<u8>,
    pos: int,
)
    requires
        record_ok(c, p),
        0 <= pos <= b.len(),
        b.skip(pos) == record_bytes(k, c, p) + rest,
    ensures
        frame_complete(b, pos),
        frame_tag_ok(b, pos),
        frame_kind(b, pos) == k,
        frame_key_bytes(b, pos) == encode_utf8(c),
        frame_payload(b, pos) == p,
        frame_len(b, pos) == record_bytes(k, c, p).len(),
        valid_utf8(frame_key_bytes(b, pos)),
        b.len() == pos + record_bytes(k, c, p).len() + rest.len(),
        b.subrange(pos, pos + record_bytes(k, c, p).len()) == record_bytes(k, c, p),
        b.skip(pos + record_bytes(k, c, p).len()) == rest,
{
    lemma_auto_spec_u32_to_from_le_bytes();
    encode_utf8_valid_utf8(c);
    let kb = encode_utf8(c);
    let kl = kb.len() as int;
    let pl = p.len() as int;
    let rb = record_bytes(k, c, p);
    assert(rb.len() == 9 + kl + pl);
    assert(b.skip(pos).len() == b.len() - pos);
    assert(b.len() == pos + rb.len() + rest.len());
    assert forall|i: int| 0 <= i < rb.len() implies b[pos + i] == rb[i] by {
        assert(b.skip(pos)[i] == b[pos + i]);
        assert((rb + rest)[i] == rb[i]);
    }
    assert(b[pos] == rb[0]);
    assert(rb[0] == kind_tag(k));
    assert(b.subrange(pos + 1, pos + 5) =~= spec_u32_to_le_bytes(kl as u32)) by {
        assert forall|j: int| 0 <= j < 4 implies b[pos + 1 + j] == #[trigger] spec_u32_to_le_bytes(
            kl as u32,
        )[j] by {
            assert(b[pos + (1 + j)] == rb[1 + j]);
        }
    }
    assert(frame_klen(b, pos) == kl);
    assert(b.subrange(pos + 5, pos + 5 + kl) =~= kb) by {
        assert forall|j: int| 0 <= j < kl implies b[pos + 5 + j] == #[trigger] kb[j] by {
            assert(b[pos + (5 + j)] == rb[5 + j]);
        }
    }
    assert(b.subrange(pos + 5 + kl, pos + 9 + kl) =~= spec_u32_to_le_bytes(pl as u32)) by {
        assert forall|j: int| 0 <= j < 4 implies b[pos + 5 + kl + j] == #[trigger] spec_u32_to_le_bytes(
            pl as u32,
        )[j] by {
            assert(b[pos + (5 + kl + j)] == rb[5 + kl + j]);
        }
    }
    assert(frame_vlen(b, pos) == pl);
    assert(frame_len(b, pos) == 9 + kl + pl);
    assert(b.subrange(pos + 9 + kl, pos + 9 + kl + pl) =~= p) by {
        assert forall|j: int| 0 <= j < pl implies b[pos + 9 + kl + j] == #[trigger] p[j] by {
            assert(b[pos + (9 + kl + j)] == rb[9 + kl + j]);
        }
    }
    assert(frame_payload(b, pos) =~= p);
    assert(b.subrange(pos, pos + rb.len()) =~= rb);
    assert(b.skip(pos + rb.len()) =~= rest) by {
        assert forall|j: int| 0 <= j < rest.len() implies b[pos + rb.len() + j] == #[trigger] rest[j] by {
            assert(b.skip(pos)[rb.len() + j] == b[pos + (rb.len() + j)]);
            assert((rb + rest)[rb.len() + j] == rest[j]);
        }
    }
}

/// Record encodings are self-delimiting: two encodings that start the same
/// byte stream carry the same record and leave the same remainder.
pub proof fn lemma_record_eq(
    k1: RecordKind,
    c1: Seq<char>,
    p1: Seq<u8>,
    r1: Seq<u8>,
    k2: RecordKind,
    c2: Seq<char>,
    p2: Seq<u8>,
    r2: Seq<u8>,
)
    requires
        record_ok(c1, p1),
        record_ok(c2, p2),
        record_bytes(k1, c1, p1) + r1 == record_bytes(k2, c2, p2) + r2,
    ensures
        k1 == k2,
        c1 == c2,
        p1 == p2,
        r1 == r2,
{
    let b = record_bytes(k1, c1, p1) + r1;
    assert(b.skip(0) =~= b);
    lemma_record_bytes_frame(k1, c1, p1, r1, b, 0);
    lemma_record_bytes_frame(k2, c2, p2, r2, b, 0);
    lemma_encode_utf8_injective(c1, c2);
}

/// Appending a record to a sequence appends its bytes.
pub proof fn lemma_records_bytes_push(rs: Seq<RecordImage>, t: RecordImage)
    ensures
        records_bytes(rs.push(t)) == records_bytes(rs) + record_bytes(t.0, t.1, t.2),
    decreases rs.len(),
{
    if rs.len() == 0 {
        assert(rs.push(t)[0] == t);
        assert(rs.push(t).skip(1) =~= Seq::<RecordImage>::empty());
        assert(records_bytes(rs.push(t).skip(1)) == Seq::<u8>::empty());
        assert(record_bytes(t.0, t.1, t.2) + Seq::<u8>::empty() =~= record_bytes(t.0, t.1, t.2));
        assert(Seq::<u8>::empty() + record_bytes(t.0, t.1, t.2) =~= record_bytes(t.0, t.1, t.2));
        assert(records_bytes(rs.push(t)) =~= record_bytes(t.0, t.1, t.2));
        assert(records_bytes(rs) + record_bytes(t.0, t.1, t.2) =~= record_bytes(t.0, t.1, t.2));
    } else {
        assert(rs.push(t)[0] == rs[0]);
        assert(rs.push(t).skip(1) =~= rs.skip(1).push(t));
        lemma_records_bytes_push(rs.skip(1), t);
        assert(records_bytes(rs.push(t)) =~= records_bytes(rs) + record_bytes(t.0, t.1, t.2));
    }
}

/// A byte stream determines the records at its front: if two record
/// sequences lay their bytes into the same stream, the shorter is a prefix
/// of the longer, and the remainders line up.
pub proof fn lemma_records_agree(
    r1: Seq<RecordImage>,
    r2: Seq<RecordImage>,
    t1: Seq<u8>,
    t2: Seq<u8>,
)
    requires
        records_ok(r1),
        records_ok(r2),
        r1.len() <= r2.len(),
        records_bytes(r1) + t1 == records_bytes(r2) + t2,
    ensures
        r1 == r2.take(r1.len() as int),
        t1 == records_bytes(r2.skip(r1.len() as int)) + t2,
    decreases r1.len(),
{
    if r1.len() == 0 {
        assert(r1 =~= r2.take(0));
        assert(r2.skip(0) =~= r2);
        assert(records_bytes(r1) + t1 =~= t1);
    } else {
        let a = r1[0];
        let c = r2[0];
        assert(records_bytes(r1) == record_bytes(a.0, a.1, a.2) + records_bytes(r1.skip(1)));
        assert(records_bytes(r2) == record_bytes(c.0, c.1, c.2) + records_bytes(r2.skip(1)));
        assert(record_bytes(a.0, a.1, a.2) + (records_bytes(r1.skip(1)) + t1) =~= records_bytes(
            r1,
        ) + t1);
        assert(record_bytes(c.0, c.1, c.2) + (records_bytes(r2.skip(1)) + t2) =~= records_bytes(
            r2,
        ) + t2);
        assert(record_ok(a.1, a.2));
        assert(record_ok(c.1, c.2));
        lemma_record_eq(
            a.0,
            a.1,
            a.2,
            records_bytes(r1.skip(1)) + t1,
            c.0,
            c.1,
            c.2,
            records_bytes(r2.skip(1)) + t2,
        );
        assert(records_ok(r1.skip(1))) by {
            assert(forall|i: int|
                0 <= i < r1.skip(1).len() ==> r1.skip(1)[i] == r1[i + 1]);
        }
        assert(records_ok(r2.skip(1))) by {
            assert(forall|i: int|
                0 <= i < r2.skip(1).len() ==> r2.skip(1)[i] == r2[i + 1]);
        }
        lemma_records_agree(r1.skip(1), r2.skip(1), t1, t2);
        assert(r1 =~= r2.take(r1.len() as int)) by {
            assert(a == c);
            assert(forall|i: int|
                0 < i < r1.len() ==> r1[i] == r1.skip(1)[i - 1]);
            assert(forall|i: int|
                0 < i < r1.len() ==> r2.take(r1.len() as int)[i] == r2.skip(1).take(
                    r1.len() - 1,
                )[i - 1]);
        }
        assert(r2.skip(1).skip(r1.len() - 1) =~= r2.skip(r1.len() as int));
    }
}

/// Where the remaining bytes are the encodings of the records from `i` on
/// (plus a tail), a complete, well-formed frame for record `i` sits at `pos`.
pub proof fn lemma_record_at_suffix(
    rs: Seq<RecordImage>,
    i: int,
    tail: Seq<u8>,
    b: Seq<u8>,
    pos: int,
)
    requires
        records_ok(rs),
        0 <= i < rs.len(),
        0 <= pos <= b.len(),
        b.skip(pos) == records_bytes(rs.skip(i)) + tail,
    ensures
        frame_complete(b, pos),
        frame_tag_ok(b, pos),
        valid_utf8(frame_key_bytes(b, pos)),
        frame_kind(b, pos) == rs[i].0,
        frame_key_bytes(b, pos) == encode_utf8(rs[i].1),
        frame_payload(b, pos) == rs[i].2,
        frame_len(b, pos) == record_bytes(rs[i].0, rs[i].1, rs[i].2).len(),
        pos + frame_len(b, pos) <= b.len(),
        b.skip(pos + frame_len(b, pos)) == records_bytes(rs.skip(i + 1)) + tail,
{
    let t = rs[i];
    assert(rs.skip(i)[0] == t);
    assert(rs.skip(i).skip(1) =~= rs.skip(i + 1));
    assert(records_bytes(rs.skip(i)) == record_bytes(t.0, t.1, t.2) + records_bytes(
        rs.skip(i + 1),
    ));
    assert(b.skip(pos) =~= record_bytes(t.0, t.1, t.2) + (records_bytes(rs.skip(i + 1)) + tail));
    assert(record_ok(t.1, t.2));
    lemma_record_bytes_frame(t.0, t.1, t.2, records_bytes(rs.skip(i + 1)) + tail, b, pos);
}

/// Reads records back to back until a clean end of stream, as recovery of a
/// WAL file does.
///
/// On success the returned records re-encode to exactly the input bytes; on
/// failure no record sequence at all encodes to them.
pub fn read_all_records(bytes: &[u8]) -> (r: Result<Vec<DecodedRecord>, StoreError>)
    ensures
        match r {
            Ok(recs) => {
                &&& records_ok(records_view(recs@))
                &&& records_bytes(records_view(recs@)) == bytes@
            },
            Err(e) => {
                &&& (e == StoreError::Truncated || e == StoreError::InvalidData)
                &&& forall|rs: Seq<RecordImage>|
                    records_ok(rs) ==> records_bytes(rs) != bytes@
            },
        },
{
    let n = bytes.len();
    let mut recs: Vec<DecodedRecord> = Vec::new();
    let mut pos: usize = 0;
    loop
        invariant
            pos <= n,
            n == bytes@.len(),
            records_ok(records_view(recs@)),
            bytes@.take(pos as int) == records_bytes(records_view(recs@)),
        decreases n - pos,
    {
        let step = read_record(bytes, pos);
        match step {
            Ok(None) => {
                proof {
                    assert(bytes@.take(pos as int) =~= bytes@);
                }
                return Ok(recs);
            },
            Ok(Some((rec, end))) => {
                proof {
                    let done = records_view(recs@);
                    lemma_records_bytes_push(done, rec@);
                    assert(records_view(recs@.push(rec)) =~= done.push(rec@));
                    assert(bytes@.take(end as int) =~= bytes@.take(pos as int) + bytes@.subrange(
                        pos as int,
                        end as int,
                    ));
                }
                recs.push(rec);
                pos = end;
            },
            Err(e) => {
                proof {
                    let done = records_view(recs@);
                    assert forall|rs: Seq<RecordImage>|
                        records_ok(rs) implies records_bytes(rs) != bytes@ by {
                        lemma_stuck_read(done, rs, bytes@, pos as int);
                    }
                }
                return Err(e);
            },
        }
    }
}

/// A failed record read refutes every whole-stream record decomposition:
/// if the bytes before `pos` are the encodings of `done`, no record
/// sequence encodes to the whole buffer once reading is stuck at `pos`.
proof fn lemma_stuck_read(done: Seq<RecordImage>, rs: Seq<RecordImage>, b: Seq<u8>, pos: int)
    requires
        records_ok(done),
        records_ok(rs),
        0 <= pos < b.len(),
        b.take(pos) == records_bytes(done),
        !(frame_complete(b, pos) && frame_tag_ok(b, pos) && valid_utf8(frame_key_bytes(b, pos))),
    ensures
        records_bytes(rs) != b,
{
    if records_bytes(rs) == b {
        assert(records_bytes(done) + b.skip(pos) =~= b);
        assert(records_bytes(rs) + Seq::<u8>::empty() =~= b);
        if done.len() <= rs.len() {
            lemma_records_agree(done, rs, b.skip(pos), Seq::empty());
            assert(b.skip(pos) == records_bytes(rs.skip(done.len() as int)) + Seq::empty());
            assert(b.skip(pos).len() > 0);
            if rs.skip(done.len() as int).len() == 0 {
                assert(records_bytes(rs.skip(done.len() as int)).len() == 0);
                assert((records_bytes(rs.skip(done.len() as int)) + Seq::<u8>::empty()).len()
                    == 0);
            } else {
                lemma_record_at_suffix(rs, done.len() as int, Seq::empty(), b, pos);
            }
        } else {
            lemma_records_agree(rs, done, Seq::empty(), b.skip(pos));
            assert(Seq::<u8>::empty() == records_bytes(done.skip(rs.len() as int)) + b.skip(
                pos,
            ));
            assert((records_bytes(done.skip(rs.len() as int)) + b.skip(pos)).len() >= b.skip(
                pos,
            ).len());
        }
    }
}

} // verus!

