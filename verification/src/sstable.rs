//! The immutable, sorted on-disk run ("SSTable").
//!
//! A table is created once from a sorted, unique-key sequence of entries and
//! never mutated afterwards; readers may share it freely.  On disk it is a
//! 4-byte entry count, the records back to back, and a self-locating footer:
//! the minimum and maximum key, each length-prefixed, followed by the byte
//! offset of the footer itself as the final 8 bytes of the file.
//!
//! This module works on complete in-memory byte images.  The surrounding
//! application reads and writes the actual files and must make an image
//! durable (flush and fsync) before treating a creation as successful.

use vstd::prelude::*;
use vstd::bytes::{
    lemma_auto_spec_u32_to_from_le_bytes, lemma_auto_spec_u64_to_from_le_bytes,
    spec_u32_from_le_bytes, spec_u32_to_le_bytes, spec_u64_from_le_bytes, spec_u64_to_le_bytes,
    u32_from_le_bytes, u32_to_le_bytes, u64_from_le_bytes, u64_to_le_bytes,
};
use vstd::slice::{slice_subrange, slice_to_vec};
use vstd::utf8::{encode_utf8, valid_utf8};
use crate::lex::{
    bytes_eq, bytes_le, bytes_lt, lemma_lex_irreflexive, lemma_lex_transitive,
    lemma_lex_trichotomy, lex_le, lex_lt,
};
use crate::record::{
    lemma_record_at_suffix, lemma_records_agree, lemma_records_bytes_push, read_record,
    record_bytes, record_ok, records_bytes, records_ok, write_record, DecodedRecord, RecordImage,
    RecordKind,
};
use crate::text::{bytes_to_string, lemma_encode_utf8_injective};
use crate::value::Value;
use crate::StoreError;

verus! {

/// The mathematical image of one entry: key text and value, where the value
/// is `Some` payload for live data and `None` for a tombstone.
pub type EntryImage = (Seq<char>, Option<Seq<u8>>);

/// The record an entry is serialized as: live data becomes a `Put` record
/// carrying the payload, a tombstone a `Delete` record with an empty payload.
pub open spec fn entry_record(e: EntryImage) -> RecordImage {
    match e.1 {
        Some(p) => (RecordKind::Put, e.0, p),
        None => (RecordKind::Delete, e.0, Seq::empty()),
    }
}

/// The records of a sequence of entries, in order.
pub open spec fn entries_records(es: Seq<EntryImage>) -> Seq<RecordImage> {
    es.map(|i: int, e: EntryImage| entry_record(e))
}

/// The entry's key and payload fit the record format's length fields.
pub open spec fn entry_ok(e: EntryImage) -> bool {
    record_ok(entry_record(e).1, entry_record(e).2)
}

/// Every entry of the sequence fits the record format.
pub open spec fn entries_ok(es: Seq<EntryImage>) -> bool {
    forall|i: int| 0 <= i < es.len() ==> entry_ok(#[trigger] es[i])
}

/// Keys strictly ascend, compared by the bytes of their UTF-8 encodings;
/// strictness also makes them unique.
pub open spec fn entries_sorted(es: Seq<EntryImage>) -> bool {
    forall|i: int, j: int|
        0 <= i < j < es.len() ==> lex_lt(
            encode_utf8(#[trigger] es[i].0),
            encode_utf8(#[trigger] es[j].0),
        )
}

/// An entry sequence a table can be built from: non-empty (an empty flush is
/// rejected by policy), few enough entries for the 4-byte count, every entry
/// within the record format's limits, sorted with unique keys, and small
/// enough in total that the footer offset fits its 8-byte field.
pub open spec fn table_input_ok(es: Seq<EntryImage>) -> bool {
    &&& 0 < es.len() <= u32::MAX
    &&& entries_ok(es)
    &&& entries_sorted(es)
    &&& 4 + records_bytes(entries_records(es)).len() <= u64::MAX
}

/// The bytes of the footer: both boundary keys length-prefixed, then the
/// footer's own offset as the final 8 bytes.
pub open spec fn footer_bytes(min: Seq<char>, max: Seq<char>, off: u64) -> Seq<u8> {
    spec_u32_to_le_bytes(encode_utf8(min).len() as u32) + encode_utf8(min)
        + spec_u32_to_le_bytes(encode_utf8(max).len() as u32) + encode_utf8(max)
        + spec_u64_to_le_bytes(off)
}

/// The exact bytes of a whole table file.
pub open spec fn table_bytes(es: Seq<EntryImage>) -> Seq<u8> {
    let rb = records_bytes(entries_records(es));
    spec_u32_to_le_bytes(es.len() as u32) + rb + footer_bytes(
        es.first().0,
        es.last().0,
        (4 + rb.len()) as u64,
    )
}

/// What a linear scan over the entries returns for a key: the value of the
/// first entry whose key matches, or nothing.
pub open spec fn table_get(es: Seq<EntryImage>, k: Seq<char>) -> Option<Option<Seq<u8>>>
    decreases es.len(),
{
    if es.len() == 0 {
        None
    } else if es[0].0 == k {
        Some(es[0].1)
    } else {
        table_get(es.skip(1), k)
    }
}

/// One key/value pair held by a table.
#[derive(Debug)]
pub struct Entry {
    key: String,
    value: Value,
}

impl View for Entry {
    type V = EntryImage;

    closed spec fn view(&self) -> EntryImage {
        (self.key@, self.value@)
    }
}

impl Entry {
    /// The key of the entry.
    pub fn key(&self) -> (r: &String)
        ensures
            r@ == self@.0,
    {
        &self.key
    }

    /// The value of the entry.
    pub fn value(&self) -> (r: &Value)
        ensures
            r@ == self@.1,
    {
        &self.value
    }
}

/// An immutable, sorted run of entries together with its backing file's
/// path and the cached minimum and maximum key.
#[derive(Debug)]
pub struct SsTable {
    path: String,
    entries: Vec<Entry>,
    min_key: String,
    max_key: String,
}

impl View for SsTable {
    type V = Seq<EntryImage>;

    closed spec fn view(&self) -> Seq<EntryImage> {
        self.entries@.map(|i: int, e: Entry| e@)
    }
}

impl SsTable {
    /// The path the table was created at or loaded from.
    pub closed spec fn spec_path(&self) -> Seq<char> {
        self.path@
    }

    /// The cached minimum key.
    pub closed spec fn spec_min_key(&self) -> Seq<char> {
        self.min_key@
    }

    /// The cached maximum key.
    pub closed spec fn spec_max_key(&self) -> Seq<char> {
        self.max_key@
    }

    /// Every table in existence is a valid creation input with its cached
    /// boundary keys equal to the first and last entry's key.
    #[verifier::type_invariant]
    pub open spec fn wf(&self) -> bool {
        &&& table_input_ok(self@)
        &&& self.spec_min_key() == self@.first().0
        &&& self.spec_max_key() == self@.last().0
    }

    /// The path of the backing file.
    pub fn path(&self) -> (r: &String)
        ensures
            r@ == self.spec_path(),
    {
        &self.path
    }

    /// The number of entries.
    pub fn num_entries(&self) -> (n: usize)
        ensures
            n == self@.len(),
    {
        self.entries.len()
    }

    /// The entry at position `i`, in ascending key order.
    pub fn entry_at(&self, i: usize) -> (e: &Entry)
        requires
            i < self@.len(),
        ensures
            e@ == self@[i as int],
    {
        &self.entries[i]
    }

    /// The smallest key in the table.
    pub fn min_key(&self) -> (r: &String)
        ensures
            r@ == self.spec_min_key(),
    {
        &self.min_key
    }

    /// The largest key in the table.
    pub fn max_key(&self) -> (r: &String)
        ensures
            r@ == self.spec_max_key(),
    {
        &self.max_key
    }

    /// Point lookup by binary search over the sorted entries.
    ///
    /// Returns the stored value — live data or a tombstone — or `None` when
    /// the key is absent, exactly as a linear scan over the entries would.
    pub fn get(&self, key: &str) -> (r: Option<Value>)
        ensures
            match r {
                Some(v) => table_get(self@, key@) == Some(v@),
                None => table_get(self@, key@) is None,
            },
    {
        proof {
            use_type_invariant(self);
        }
        let kb = key.as_bytes();
        let n = self.entries.len();
        let mut lo: usize = 0;
        let mut hi: usize = n;
        while lo < hi
            invariant
                self.wf(),
                lo <= hi <= n,
                n == self@.len(),
                kb@ == encode_utf8(key@),
                forall|j: int|
                    0 <= j < lo ==> lex_lt(encode_utf8(#[trigger] self@[j].0), encode_utf8(key@)),
                forall|j: int|
                    hi <= j < n ==> lex_lt(encode_utf8(key@), encode_utf8(#[trigger] self@[j].0)),
            decreases hi - lo,
        {
            let mid = lo + (hi - lo) / 2;
            let eb = self.entries[mid].key.as_str().as_bytes();
            assert(eb@ == encode_utf8(self@[mid as int].0));
            if bytes_lt(eb, kb) {
                proof {
                    assert forall|j: int|
                        0 <= j < mid + 1 implies lex_lt(
                        encode_utf8(#[trigger] self@[j].0),
                        encode_utf8(key@),
                    ) by {
                        if j < mid {
                            lemma_lex_transitive(
                                encode_utf8(self@[j].0),
                                encode_utf8(self@[mid as int].0),
                                encode_utf8(key@),
                            );
                        }
                    }
                }
                lo = mid + 1;
            } else if bytes_lt(kb, eb) {
                proof {
                    assert forall|j: int|
                        mid <= j < n implies lex_lt(
                        encode_utf8(key@),
                        encode_utf8(#[trigger] self@[j].0),
                    ) by {
                        if j > mid {
                            lemma_lex_transitive(
                                encode_utf8(key@),
                                encode_utf8(self@[mid as int].0),
                                encode_utf8(self@[j].0),
                            );
                        }
                    }
                }
                hi = mid;
            } else {
                proof {
                    lemma_lex_trichotomy(eb@, kb@);
                    lemma_encode_utf8_injective(self@[mid as int].0, key@);
                    lemma_table_get_present(self@, mid as int);
                }
                return Some(self.entries[mid].value.clone());
            }
        }
        proof {
            assert forall|i: int| 0 <= i < self@.len() implies #[trigger] self@[i].0 != key@ by {
                if self@[i].0 == key@ {
                    assert(lex_lt(encode_utf8(self@[i].0), encode_utf8(key@)) || lex_lt(
                        encode_utf8(key@),
                        encode_utf8(self@[i].0),
                    ));
                    lemma_lex_irreflexive(encode_utf8(key@));
                }
            }
            lemma_table_get_absent(self@, key@);
        }
        None
    }

    /// The cheap range-exclusion test: true exactly when the key lies
    /// between the cached minimum and maximum key, compared by the bytes of
    /// the UTF-8 encodings.
    ///
    /// `false` proves the key absent; `true` says nothing, and the caller
    /// must still confirm with [`Self::get`].
    pub fn might_contain_key(&self, key: &str) -> (r: bool)
        ensures
            r == (lex_le(encode_utf8(self.spec_min_key()), encode_utf8(key@)) && lex_le(
                encode_utf8(key@),
                encode_utf8(self.spec_max_key()),
            )),
    {
        let kb = key.as_bytes();
        bytes_le(self.min_key.as_str().as_bytes(), kb) && bytes_le(kb, self.max_key.as_str().as_bytes())
    }
}

/// In a sorted table the scan finds exactly the entry that carries the key.
pub proof fn lemma_table_get_present(es: Seq<EntryImage>, i: int)
    requires
        entries_sorted(es),
        0 <= i < es.len(),
    ensures
        table_get(es, es[i].0) == Some(es[i].1),
    decreases i,
{
    if i == 0 {
    } else {
        assert(lex_lt(encode_utf8(es[0].0), encode_utf8(es[i].0)));
        if es[0].0 == es[i].0 {
            lemma_lex_irreflexive(encode_utf8(es[i].0));
        }
        assert(entries_sorted(es.skip(1))) by {
            assert forall|a: int, b: int|
                0 <= a < b < es.skip(1).len() implies lex_lt(
                encode_utf8(#[trigger] es.skip(1)[a].0),
                encode_utf8(#[trigger] es.skip(1)[b].0),
            ) by {
                assert(es.skip(1)[a] == es[a + 1]);
                assert(es.skip(1)[b] == es[b + 1]);
            }
        }
        assert(es.skip(1)[i - 1] == es[i]);
        lemma_table_get_present(es.skip(1), i - 1);
    }
}

/// A key no entry carries is not found.
pub proof fn lemma_table_get_absent(es: Seq<EntryImage>, k: Seq<char>)
    requires
        forall|i: int| 0 <= i < es.len() ==> (#[trigger] es[i].0) != k,
    ensures
        table_get(es, k) is None,
    decreases es.len(),
{
    if es.len() > 0 {
        assert(forall|i: int| 0 <= i < es.skip(1).len() ==> (#[trigger] es.skip(1)[i]) == es[
            i + 1
        ]);
        lemma_table_get_absent(es.skip(1), k);
    }
}

/// Range filter soundness: a key an entry carries always lies between the
/// first and last key (no false negatives), and a key outside that range is
/// never found (excluding a table on the filter's `false` is always safe).
pub proof fn lemma_range_filter_sound(es: Seq<EntryImage>, k: Seq<char>)
    requires
        entries_sorted(es),
        es.len() > 0,
    ensures
        (exists|i: int| 0 <= i < es.len() && (#[trigger] es[i].0) == k) ==> (lex_le(
            encode_utf8(es.first().0),
            encode_utf8(k),
        ) && lex_le(encode_utf8(k), encode_utf8(es.last().0))),
        !(lex_le(encode_utf8(es.first().0), encode_utf8(k)) && lex_le(
            encode_utf8(k),
            encode_utf8(es.last().0),
        )) ==> table_get(es, k) is None,
{
    if exists|i: int| 0 <= i < es.len() && (#[trigger] es[i].0) == k {
        let i = choose|i: int| 0 <= i < es.len() && (#[trigger] es[i].0) == k;
        assert(es[i].0 == k);
        if i > 0 {
            assert(lex_lt(encode_utf8(es[0].0), encode_utf8(es[i].0)));
        }
        if i < es.len() - 1 {
            assert(lex_lt(encode_utf8(es[i].0), encode_utf8(es[es.len() - 1].0)));
        }
    }
    if !(lex_le(encode_utf8(es.first().0), encode_utf8(k)) && lex_le(
        encode_utf8(k),
        encode_utf8(es.last().0),
    )) {
        assert forall|i: int| 0 <= i < es.len() implies (#[trigger] es[i].0) != k by {
            if es[i].0 == k {
                if i > 0 {
                    assert(lex_lt(encode_utf8(es[0].0), encode_utf8(es[i].0)));
                }
                if i < es.len() - 1 {
                    assert(lex_lt(encode_utf8(es[i].0), encode_utf8(es[es.len() - 1].0)));
                }
            }
        }
        lemma_table_get_absent(es, k);
    }
}

/// The images of the raw (key, value) pairs a flush hands to `create`.
pub open spec fn pairs_view(ps: Seq<(String, Value)>) -> Seq<EntryImage> {
    ps.map(|i: int, p: (String, Value)| (p.0@, p.1@))
}

impl SsTable {
    /// Builds a table from a drained memtable: a sequence of (key, value)
    /// pairs already sorted ascending by unique key, which is this
    /// function's documented precondition.
    ///
    /// Returns the in-memory table together with the complete byte image of
    /// its file.  The caller writes the image to the path and must flush and
    /// fsync it before treating the table as durable.  An empty sequence is
    /// rejected by policy (it has no minimum or maximum key), as is an entry
    /// count, key or payload too large for its length field; nothing is ever
    /// silently truncated.
    pub fn create(path: String, entries: Vec<(String, Value)>) -> (r: Result<
        (SsTable, Vec<u8>),
        StoreError,
    >)
        requires
            entries_sorted(pairs_view(entries@)),
        ensures
            match r {
                Ok((t, file)) => {
                    &&& t.wf()
                    &&& t@ == pairs_view(entries@)
                    &&& t.spec_path() == path@
                    &&& table_input_ok(pairs_view(entries@))
                    &&& file@ == table_bytes(pairs_view(entries@))
                },
                Err(e) => {
                    &&& e == StoreError::InvalidInput
                    &&& !table_input_ok(pairs_view(entries@))
                },
            },
    {
        let ghost pv = pairs_view(entries@);
        let n = entries.len();
        if n == 0 {
            return Err(StoreError::InvalidInput);
        }
        if n > (u32::MAX as usize) {
            return Err(StoreError::InvalidInput);
        }
        let mut file: Vec<u8> = Vec::new();
        let mut count_bytes = u32_to_le_bytes(n as u32);
        file.append(&mut count_bytes);
        let mut stored: Vec<Entry> = Vec::new();
        let empty_payload: Vec<u8> = Vec::new();
        let mut i: usize = 0;
        while i < n
            invariant
                i <= n,
                n == entries@.len(),
                0 < n <= u32::MAX,
                pv == pairs_view(entries@),
                entries_sorted(pv),
                empty_payload@.len() == 0,
                file@ == spec_u32_to_le_bytes(n as u32) + records_bytes(
                    entries_records(pv.take(i as int)),
                ),
                stored@.map(|j: int, e: Entry| e@) == pv.take(i as int),
                entries_ok(pv.take(i as int)),
            decreases n - i,
        {
            let ghost done = pv.take(i as int);
            proof {
                assert(pv[i as int] == (entries@[i as int].0@, entries@[i as int].1@));
                assert(empty_payload@ =~= Seq::<u8>::empty());
            }
            let pair = &entries[i];
            let res = match &pair.1 {
                Value::Present(bytes) => write_record(
                    &mut file,
                    RecordKind::Put,
                    pair.0.as_str(),
                    bytes.as_slice(),
                ),
                Value::Deleted => write_record(
                    &mut file,
                    RecordKind::Delete,
                    pair.0.as_str(),
                    empty_payload.as_slice(),
                ),
            };
            match res {
                Ok(()) => {},
                Err(_) => {
                    proof {
                        assert(!entry_ok(pv[i as int]));
                    }
                    return Err(StoreError::InvalidInput);
                },
            }
            let key_copy = pair.0.clone();
            let value_copy = pair.1.clone();
            stored.push(Entry { key: key_copy, value: value_copy });
            proof {
                let t = entry_record(pv[i as int]);
                lemma_records_bytes_push(entries_records(done), t);
                assert(entries_records(pv.take(i + 1)) =~= entries_records(done).push(t));
                assert(file@ =~= spec_u32_to_le_bytes(n as u32) + records_bytes(
                    entries_records(pv.take(i + 1)),
                ));
                assert(stored@.map(|j: int, e: Entry| e@) =~= pv.take(i + 1));
                assert(entries_ok(pv.take(i + 1))) by {
                    assert(forall|j: int|
                        0 <= j < i ==> pv.take(i + 1)[j] == #[trigger] pv.take(i as int)[j]);
                    assert(pv.take(i + 1)[i as int] == pv[i as int]);
                    assert(entry_ok(pv[i as int]));
                }
            }
            i = i + 1;
        }
        proof {
            assert(pv.take(n as int) =~= pv);
        }
        let min_key = entries[0].0.clone();
        let max_key = entries[n - 1].0.clone();
        let off: u64 = file.len() as u64;
        let min_b = min_key.as_str().as_bytes();
        let mut min_len_bytes = u32_to_le_bytes(min_b.len() as u32);
        file.append(&mut min_len_bytes);
        let mut min_bytes = slice_to_vec(min_b);
        file.append(&mut min_bytes);
        let max_b = max_key.as_str().as_bytes();
        let mut max_len_bytes = u32_to_le_bytes(max_b.len() as u32);
        file.append(&mut max_len_bytes);
        let mut max_bytes = slice_to_vec(max_b);
        file.append(&mut max_bytes);
        let mut off_bytes = u64_to_le_bytes(off);
        file.append(&mut off_bytes);
        proof {
            lemma_auto_spec_u32_to_from_le_bytes();
            assert(pv[0] == (entries@[0].0@, entries@[0].1@));
            assert(pv[n - 1] == (entries@[n - 1].0@, entries@[n - 1].1@));
            assert(min_key@ == pv.first().0);
            assert(max_key@ == pv.last().0);
            assert(off as int == 4 + records_bytes(entries_records(pv)).len());
            assert(file@ =~= table_bytes(pv));
        }
        let table = SsTable { path, entries: stored, min_key, max_key };
        Ok((table, file))
    }
}

/// The footer offset a table image locates itself with: its final 8 bytes,
/// read as a little-endian integer.
pub open spec fn footer_off(b: Seq<u8>) -> int {
    spec_u64_from_le_bytes(b.subrange(b.len() - 8, b.len() as int)) as int
}

/// The length field of the minimum key, at the footer offset.
pub open spec fn footer_mklen(b: Seq<u8>) -> int {
    spec_u32_from_le_bytes(b.subrange(footer_off(b), footer_off(b) + 4)) as int
}

/// The bytes of the minimum key.
pub open spec fn footer_min_bytes(b: Seq<u8>) -> Seq<u8> {
    b.subrange(footer_off(b) + 4, footer_off(b) + 4 + footer_mklen(b))
}

/// The length field of the maximum key.
pub open spec fn footer_xklen(b: Seq<u8>) -> int {
    spec_u32_from_le_bytes(
        b.subrange(footer_off(b) + 4 + footer_mklen(b), footer_off(b) + 8 + footer_mklen(b)),
    ) as int
}

/// The bytes of the maximum key.
pub open spec fn footer_max_bytes(b: Seq<u8>) -> Seq<u8> {
    b.subrange(
        footer_off(b) + 8 + footer_mklen(b),
        footer_off(b) + 8 + footer_mklen(b) + footer_xklen(b),
    )
}

/// The self-located footer is structurally sound: the offset in the final 8
/// bytes points into the image, both length-prefixed keys fit before those
/// final 8 bytes, and they fill the space up to them exactly.
pub open spec fn footer_frame_ok(b: Seq<u8>) -> bool {
    &&& b.len() >= 12
    &&& footer_off(b) + 4 <= b.len() - 8
    &&& footer_off(b) + 8 + footer_mklen(b) <= b.len() - 8
    &&& footer_off(b) + 8 + footer_mklen(b) + footer_xklen(b) == b.len() - 8
}

/// Recovers the boundary keys and the footer offset from a table image in
/// time independent of the number of entries: the offset is read from the
/// final 8 bytes and the keys decoded right where it points.
fn read_footer(bytes: &[u8]) -> (r: Result<(String, String, u64), StoreError>)
    ensures
        match r {
            Ok((mn, mx, off)) => {
                &&& footer_frame_ok(bytes@)
                &&& off as int == footer_off(bytes@)
                &&& encode_utf8(mn@) == footer_min_bytes(bytes@)
                &&& encode_utf8(mx@) == footer_max_bytes(bytes@)
            },
            Err(e) => {
                &&& (e == StoreError::Truncated || e == StoreError::InvalidData)
                &&& (e == StoreError::Truncated ==> !footer_frame_ok(bytes@))
                &&& (e == StoreError::InvalidData ==> footer_frame_ok(bytes@) && (!valid_utf8(
                    footer_min_bytes(bytes@),
                ) || !valid_utf8(footer_max_bytes(bytes@))))
            },
        },
{
    let n = bytes.len();
    if n < 12 {
        return Err(StoreError::Truncated);
    }
    let off64 = u64_from_le_bytes(slice_subrange(bytes, n - 8, n));
    if off64 > (n - 12) as u64 {
        return Err(StoreError::Truncated);
    }
    let off = off64 as usize;
    let mklen = u32_from_le_bytes(slice_subrange(bytes, off, off + 4)) as usize;
    let avail = n - 8 - off - 4;
    if mklen > avail {
        return Err(StoreError::Truncated);
    }
    if avail - mklen < 4 {
        return Err(StoreError::Truncated);
    }
    let xklen = u32_from_le_bytes(slice_subrange(bytes, off + 4 + mklen, off + 8 + mklen))
        as usize;
    let avail2 = n - 8 - off - 8 - mklen;
    if xklen != avail2 {
        return Err(StoreError::Truncated);
    }
    let min_vec = slice_to_vec(slice_subrange(bytes, off + 4, off + 4 + mklen));
    let max_vec = slice_to_vec(slice_subrange(bytes, off + 8 + mklen, off + 8 + mklen + xklen));
    let mn = match bytes_to_string(min_vec) {
        Some(s) => s,
        None => {
            return Err(StoreError::InvalidData);
        },
    };
    let mx = match bytes_to_string(max_vec) {
        Some(s) => s,
        None => {
            return Err(StoreError::InvalidData);
        },
    };
    Ok((mn, mx, off64))
}

/// A valid table image splits into its count field, its record region and
/// its footer.
proof fn lemma_table_decompose(es: Seq<EntryImage>, b: Seq<u8>)
    requires
        table_input_ok(es),
        table_bytes(es) == b,
    ensures
        b.len() >= 4,
        spec_u32_from_le_bytes(b.subrange(0, 4)) as int == es.len(),
        b.skip(4) == records_bytes(entries_records(es)) + footer_bytes(
            es.first().0,
            es.last().0,
            (4 + records_bytes(entries_records(es)).len()) as u64,
        ),
        records_ok(entries_records(es)),
{
    lemma_auto_spec_u32_to_from_le_bytes();
    let rb = records_bytes(entries_records(es));
    let fb = footer_bytes(es.first().0, es.last().0, (4 + rb.len()) as u64);
    assert(b.subrange(0, 4) =~= spec_u32_to_le_bytes(es.len() as u32));
    assert(b.skip(4) =~= rb + fb);
    assert forall|i: int| 0 <= i < entries_records(es).len() implies record_ok(
        #[trigger] entries_records(es)[i].1,
        entries_records(es)[i].2,
    ) by {
        assert(entries_records(es)[i] == entry_record(es[i]));
        assert(entry_ok(es[i]));
    }
}

/// The footer locates itself: whatever the entries and however long their
/// keys, a valid table image ends in exactly 8 bytes that decode to the
/// offset of the footer — the byte right after the last record — and the
/// length-prefixed keys found there are the first and last entry's key.
pub proof fn lemma_table_footer(es: Seq<EntryImage>, b: Seq<u8>)
    requires
        table_input_ok(es),
        table_bytes(es) == b,
    ensures
        footer_frame_ok(b),
        footer_off(b) == 4 + records_bytes(entries_records(es)).len(),
        footer_min_bytes(b) == encode_utf8(es.first().0),
        footer_max_bytes(b) == encode_utf8(es.last().0),
        valid_utf8(footer_min_bytes(b)),
        valid_utf8(footer_max_bytes(b)),
{
    lemma_auto_spec_u32_to_from_le_bytes();
    lemma_auto_spec_u64_to_from_le_bytes();
    vstd::utf8::encode_utf8_valid_utf8(es.first().0);
    vstd::utf8::encode_utf8_valid_utf8(es.last().0);
    let rb = records_bytes(entries_records(es));
    let off_val = 4 + rb.len() as int;
    let mkb = encode_utf8(es.first().0);
    let xkb = encode_utf8(es.last().0);
    assert(entry_ok(es.first()));
    assert(entry_ok(es.last()));
    assert(mkb.len() <= u32::MAX);
    assert(xkb.len() <= u32::MAX);
    let fb = footer_bytes(es.first().0, es.last().0, off_val as u64);
    assert(b.len() == off_val + fb.len());
    assert(fb.len() == 4 + mkb.len() + 4 + xkb.len() + 8);
    assert forall|j: int| 0 <= j < fb.len() implies b[off_val + j] == #[trigger] fb[j] by {
        assert(b == (spec_u32_to_le_bytes(es.len() as u32) + rb) + fb);
        assert((spec_u32_to_le_bytes(es.len() as u32) + rb).len() == off_val);
    }
    assert(b.subrange(b.len() - 8, b.len() as int) =~= spec_u64_to_le_bytes(off_val as u64)) by {
        assert forall|j: int| 0 <= j < 8 implies b[b.len() - 8 + j] == #[trigger] spec_u64_to_le_bytes(
            off_val as u64,
        )[j] by {
            assert(b[off_val + (fb.len() - 8 + j)] == fb[fb.len() - 8 + j]);
        }
    }
    assert(footer_off(b) == off_val);
    assert(b.subrange(off_val, off_val + 4) =~= spec_u32_to_le_bytes(mkb.len() as u32)) by {
        assert forall|j: int| 0 <= j < 4 implies b[off_val + j] == #[trigger] spec_u32_to_le_bytes(
            mkb.len() as u32,
        )[j] by {
            assert(b[off_val + j] == fb[j]);
        }
    }
    assert(footer_mklen(b) == mkb.len());
    assert(b.subrange(off_val + 4, off_val + 4 + mkb.len()) =~= mkb) by {
        assert forall|j: int| 0 <= j < mkb.len() implies b[off_val + 4 + j] == #[trigger] mkb[j] by {
            assert(b[off_val + (4 + j)] == fb[4 + j]);
        }
    }
    assert(b.subrange(off_val + 4 + mkb.len(), off_val + 8 + mkb.len()) =~= spec_u32_to_le_bytes(
        xkb.len() as u32,
    )) by {
        assert forall|j: int| 0 <= j < 4 implies b[off_val + 4 + mkb.len() + j]
            == #[trigger] spec_u32_to_le_bytes(xkb.len() as u32)[j] by {
            assert(b[off_val + (4 + mkb.len() + j)] == fb[4 + mkb.len() + j]);
        }
    }
    assert(footer_xklen(b) == xkb.len());
    assert(b.subrange(off_val + 8 + mkb.len(), off_val + 8 + mkb.len() + xkb.len()) =~= xkb) by {
        assert forall|j: int| 0 <= j < xkb.len() implies b[off_val + 8 + mkb.len() + j]
            == #[trigger] xkb[j] by {
            assert(b[off_val + (8 + mkb.len() + j)] == fb[8 + mkb.len() + j]);
        }
    }
}

/// A sound footer re-encodes to exactly the bytes from its offset to the
/// end of the image.
proof fn lemma_footer_recompose(b: Seq<u8>, mn: Seq<char>, mx: Seq<char>, off: u64)
    requires
        footer_frame_ok(b),
        off as int == footer_off(b),
        encode_utf8(mn) == footer_min_bytes(b),
        encode_utf8(mx) == footer_max_bytes(b),
    ensures
        b.skip(footer_off(b)) == footer_bytes(mn, mx, off),
{
    lemma_auto_spec_u32_to_from_le_bytes();
    lemma_auto_spec_u64_to_from_le_bytes();
    let o = footer_off(b);
    let mkl = footer_mklen(b);
    let xkl = footer_xklen(b);
    assert(spec_u32_to_le_bytes(spec_u32_from_le_bytes(b.subrange(o, o + 4))) == b.subrange(
        o,
        o + 4,
    ));
    assert(encode_utf8(mn).len() == mkl);
    assert(encode_utf8(mx).len() == xkl);
    assert(spec_u32_to_le_bytes(mkl as u32) == b.subrange(o, o + 4));
    assert(spec_u32_to_le_bytes(spec_u32_from_le_bytes(b.subrange(o + 4 + mkl, o + 8 + mkl)))
        == b.subrange(o + 4 + mkl, o + 8 + mkl));
    assert(spec_u32_to_le_bytes(xkl as u32) == b.subrange(o + 4 + mkl, o + 8 + mkl));
    assert(spec_u64_to_le_bytes(off) == b.subrange(b.len() - 8, b.len() as int));
    assert(b.skip(o) =~= footer_bytes(mn, mx, off));
}

impl SsTable {
    /// Loads a table from the complete byte image of its file: the declared
    /// number of records is decoded, then the footer is recovered from the
    /// self-locating final 8 bytes without rescanning the entries.
    ///
    /// The image is fully validated, so that no partial or inconsistent
    /// table is ever returned: missing record or footer bytes are a
    /// truncation error, and an unknown tag, non-UTF-8 key bytes, a
    /// tombstone carrying a payload, keys out of order, or a footer that
    /// contradicts the entries are invalid data.  On success the returned
    /// table re-encodes to exactly the given bytes; on failure the bytes are
    /// no table's encoding at all.
    pub fn load(path: String, bytes: &[u8]) -> (r: Result<SsTable, StoreError>)
        ensures
            match r {
                Ok(t) => {
                    &&& t.wf()
                    &&& t.spec_path() == path@
                    &&& table_input_ok(t@)
                    &&& bytes@ == table_bytes(t@)
                },
                Err(_) => forall|es: Seq<EntryImage>|
                    table_input_ok(es) ==> table_bytes(es) != bytes@,
            },
    {
        let n = bytes.len();
        let count = match read_entry_count(bytes) {
            Ok(c) => c,
            Err(e) => {
                proof {
                    assert forall|es: Seq<EntryImage>|
                        table_input_ok(es) implies table_bytes(es) != bytes@ by {
                        if table_bytes(es) == bytes@ {
                            lemma_table_decompose(es, bytes@);
                        }
                    }
                }
                return Err(e);
            },
        };
        if count == 0 {
            proof {
                assert forall|es: Seq<EntryImage>|
                    table_input_ok(es) implies table_bytes(es) != bytes@ by {
                    if table_bytes(es) == bytes@ {
                        lemma_table_decompose(es, bytes@);
                    }
                }
            }
            return Err(StoreError::InvalidData);
        }
        let count_us = count as usize;
        let mut stored: Vec<Entry> = Vec::new();
        let mut pos: usize = 4;
        let mut i: usize = 0;
        while i < count_us
            invariant
                i <= count_us,
                count_us == count as usize,
                count > 0,
                n == bytes@.len(),
                4 <= pos <= n,
                count == spec_u32_from_le_bytes(bytes@.subrange(0, 4)),
                stored@.len() == i,
                bytes@.subrange(4, pos as int) == records_bytes(
                    entries_records(stored@.map(|j: int, e: Entry| e@)),
                ),
                entries_ok(stored@.map(|j: int, e: Entry| e@)),
                entries_sorted(stored@.map(|j: int, e: Entry| e@)),
            decreases count_us - i,
        {
            let ghost done = stored@.map(|j: int, e: Entry| e@);
            let ghost fbg = |es: Seq<EntryImage>|
                footer_bytes(
                    es.first().0,
                    es.last().0,
                    (4 + records_bytes(entries_records(es)).len()) as u64,
                );
            match read_record(bytes, pos) {
                Ok(None) => {
                    proof {
                        assert forall|es: Seq<EntryImage>|
                            table_input_ok(es) implies table_bytes(es) != bytes@ by {
                            if table_bytes(es) == bytes@ {
                                lemma_table_decompose(es, bytes@);
                                lemma_load_prefix(done, es, bytes@, pos as int);
                                lemma_record_at_suffix(
                                    entries_records(es),
                                    i as int,
                                    fbg(es),
                                    bytes@,
                                    pos as int,
                                );
                            }
                        }
                    }
                    return Err(StoreError::Truncated);
                },
                Err(e) => {
                    proof {
                        assert forall|es: Seq<EntryImage>|
                            table_input_ok(es) implies table_bytes(es) != bytes@ by {
                            if table_bytes(es) == bytes@ {
                                lemma_table_decompose(es, bytes@);
                                lemma_load_prefix(done, es, bytes@, pos as int);
                                lemma_record_at_suffix(
                                    entries_records(es),
                                    i as int,
                                    fbg(es),
                                    bytes@,
                                    pos as int,
                                );
                            }
                        }
                    }
                    return Err(e);
                },
                Ok(Some((rec, end))) => {
                    let ghost rim = rec@;
                    let DecodedRecord { kind, key, value } = rec;
                    let bad_tombstone = match kind {
                        RecordKind::Delete => value.len() > 0,
                        RecordKind::Put => false,
                    };
                    if bad_tombstone {
                        proof {
                            assert forall|es: Seq<EntryImage>|
                                table_input_ok(es) implies table_bytes(es) != bytes@ by {
                                if table_bytes(es) == bytes@ {
                                    lemma_table_decompose(es, bytes@);
                                    lemma_load_prefix(done, es, bytes@, pos as int);
                                    lemma_record_at_suffix(
                                        entries_records(es),
                                        i as int,
                                        fbg(es),
                                        bytes@,
                                        pos as int,
                                    );
                                    assert(entries_records(es)[i as int] == entry_record(
                                        es[i as int],
                                    ));
                                }
                            }
                        }
                        return Err(StoreError::InvalidData);
                    }
                    if i > 0 {
                        let last_idx = stored.len() - 1;
                        let in_order = bytes_lt(
                            stored[last_idx].key.as_str().as_bytes(),
                            key.as_str().as_bytes(),
                        );
                        if !in_order {
                            proof {
                                assert forall|es: Seq<EntryImage>|
                                    table_input_ok(es) implies table_bytes(es) != bytes@ by {
                                    if table_bytes(es) == bytes@ {
                                        lemma_table_decompose(es, bytes@);
                                        lemma_load_prefix(done, es, bytes@, pos as int);
                                        lemma_record_at_suffix(
                                            entries_records(es),
                                            i as int,
                                            fbg(es),
                                            bytes@,
                                            pos as int,
                                        );
                                        assert(entries_records(es)[i as int] == entry_record(
                                            es[i as int],
                                        ));
                                        assert(done[i - 1] == es[i - 1]);
                                        assert(lex_lt(
                                            encode_utf8(es[i - 1].0),
                                            encode_utf8(es[i as int].0),
                                        ));
                                    }
                                }
                            }
                            return Err(StoreError::InvalidData);
                        }
                        proof {
                            assert(done[i - 1].0 == stored@[i - 1].key@);
                            assert(lex_lt(encode_utf8(done[i - 1].0), encode_utf8(key@)));
                        }
                    }
                    let val = match kind {
                        RecordKind::Put => Value::from_bytes(value),
                        RecordKind::Delete => Value::Deleted,
                    };
                    let ghost img = (rim.1, val@);
                    stored.push(Entry { key, value: val });
                    proof {
                        assert(entry_record(img) == rim) by {
                            if rim.0 == RecordKind::Delete {
                                assert(rim.2 =~= Seq::<u8>::empty());
                            }
                        }
                        assert(stored@.map(|j: int, e: Entry| e@) =~= done.push(img));
                        lemma_records_bytes_push(entries_records(done), rim);
                        assert(entries_records(done.push(img)) =~= entries_records(done).push(
                            entry_record(img),
                        ));
                        assert(bytes@.subrange(4, end as int) =~= bytes@.subrange(4, pos as int)
                            + bytes@.subrange(pos as int, end as int));
                        assert(entries_ok(done.push(img))) by {
                            assert(forall|j: int|
                                0 <= j < done.len() ==> done.push(img)[j] == #[trigger] done[j]);
                            assert(done.push(img)[i as int] == img);
                            assert(entry_ok(img));
                        }
                        assert(entries_sorted(done.push(img))) by {
                            assert forall|a: int, b: int|
                                0 <= a < b < done.push(img).len() implies lex_lt(
                                encode_utf8(#[trigger] done.push(img)[a].0),
                                encode_utf8(#[trigger] done.push(img)[b].0),
                            ) by {
                                if b < i {
                                    assert(done.push(img)[a] == done[a]);
                                    assert(done.push(img)[b] == done[b]);
                                } else {
                                    assert(done.push(img)[a] == done[a]);
                                    assert(done.push(img)[b] == img);
                                    assert(img.0 == key@);
                                    if a < i - 1 {
                                        crate::lex::lemma_lex_transitive(
                                            encode_utf8(done[a].0),
                                            encode_utf8(done[i - 1].0),
                                            encode_utf8(key@),
                                        );
                                    }
                                }
                            }
                        }
                    }
                    pos = end;
                    i = i + 1;
                },
            }
        }
        let ghost done = stored@.map(|j: int, e: Entry| e@);
        let footer = match read_footer(bytes) {
            Ok(f) => f,
            Err(e) => {
                proof {
                    assert forall|es: Seq<EntryImage>|
                        table_input_ok(es) implies table_bytes(es) != bytes@ by {
                        if table_bytes(es) == bytes@ {
                            lemma_table_footer(es, bytes@);
                        }
                    }
                }
                return Err(e);
            },
        };
        let (mn, mx, off64) = footer;
        if off64 != pos as u64 {
            proof {
                assert forall|es: Seq<EntryImage>|
                    table_input_ok(es) implies table_bytes(es) != bytes@ by {
                    if table_bytes(es) == bytes@ {
                        lemma_table_decompose(es, bytes@);
                        lemma_load_prefix(done, es, bytes@, pos as int);
                        lemma_table_footer(es, bytes@);
                        assert(done =~= es);
                        assert(records_bytes(entries_records(done)).len() == pos - 4);
                    }
                }
            }
            return Err(StoreError::Truncated);
        }
        let min_matches = bytes_eq(
            mn.as_str().as_bytes(),
            stored[0].key.as_str().as_bytes(),
        );
        if !min_matches {
            proof {
                assert forall|es: Seq<EntryImage>|
                    table_input_ok(es) implies table_bytes(es) != bytes@ by {
                    if table_bytes(es) == bytes@ {
                        lemma_table_decompose(es, bytes@);
                        lemma_load_prefix(done, es, bytes@, pos as int);
                        lemma_table_footer(es, bytes@);
                        assert(done =~= es);
                        assert(done[0] == es[0]);
                        assert(done[0].0 == stored@[0].key@);
                    }
                }
            }
            return Err(StoreError::InvalidData);
        }
        let last_idx = stored.len() - 1;
        let max_matches = bytes_eq(
            mx.as_str().as_bytes(),
            stored[last_idx].key.as_str().as_bytes(),
        );
        if !max_matches {
            proof {
                assert forall|es: Seq<EntryImage>|
                    table_input_ok(es) implies table_bytes(es) != bytes@ by {
                    if table_bytes(es) == bytes@ {
                        lemma_table_decompose(es, bytes@);
                        lemma_load_prefix(done, es, bytes@, pos as int);
                        lemma_table_footer(es, bytes@);
                        assert(done =~= es);
                        assert(done[done.len() - 1] == es[es.len() - 1]);
                        assert(done[done.len() - 1].0 == stored@[done.len() - 1].key@);
                    }
                }
            }
            return Err(StoreError::InvalidData);
        }
        proof {
            lemma_auto_spec_u32_to_from_le_bytes();
            lemma_auto_spec_u64_to_from_le_bytes();
            assert(done.len() == count as int);
            assert(records_bytes(entries_records(done)).len() == pos - 4);
            assert(done.first().0 == stored@[0].key@);
            assert(done.last().0 == stored@[done.len() - 1].key@);
            lemma_encode_utf8_injective(mn@, done.first().0);
            lemma_encode_utf8_injective(mx@, done.last().0);
            assert(table_input_ok(done)) by {
                assert(4 + records_bytes(entries_records(done)).len() == pos as int);
                assert(pos as u64 == off64);
            }
            assert(footer_off(bytes@) == pos as int);
            lemma_footer_recompose(bytes@, mn@, mx@, off64);
            assert(bytes@.subrange(0, 4) == spec_u32_to_le_bytes(count));
            assert(count == done.len() as u32);
            assert((4 + records_bytes(entries_records(done)).len()) as u64 == off64);
            assert(bytes@ =~= table_bytes(done)) by {
                assert(table_bytes(done) == spec_u32_to_le_bytes(count) + records_bytes(
                    entries_records(done),
                ) + footer_bytes(mn@, mx@, off64));
                assert forall|k: int| 0 <= k < bytes@.len() implies bytes@[k] == #[trigger] table_bytes(
                    done,
                )[k] by {
                    if k < 4 {
                        assert(bytes@[k] == bytes@.subrange(0, 4)[k]);
                    } else if k < pos {
                        assert(bytes@[k] == bytes@.subrange(4, pos as int)[k - 4]);
                    } else {
                        assert(bytes@[k] == bytes@.skip(pos as int)[k - pos]);
                    }
                }
            }
        }
        let table = SsTable { path, entries: stored, min_key: mn, max_key: mx };
        Ok(table)
    }
}

/// An entry is determined by its record.
proof fn lemma_entry_record_injective(a: EntryImage, c: EntryImage)
    requires
        entry_record(a) == entry_record(c),
    ensures
        a == c,
{
    match a.1 {
        Some(_) => {
            assert(entry_record(a).0 == RecordKind::Put);
        },
        None => {
            assert(entry_record(a).0 == RecordKind::Delete);
        },
    }
}

/// Entries parsed off the front of a valid table image are its leading
/// entries, and the remaining bytes are the remaining records and the
/// footer.
proof fn lemma_load_prefix(done: Seq<EntryImage>, es: Seq<EntryImage>, b: Seq<u8>, pos: int)
    requires
        table_input_ok(es),
        table_bytes(es) == b,
        entries_ok(done),
        done.len() <= es.len(),
        4 <= pos <= b.len(),
        b.subrange(4, pos) == records_bytes(entries_records(done)),
    ensures
        done == es.take(done.len() as int),
        b.skip(pos) == records_bytes(entries_records(es).skip(done.len() as int))
            + footer_bytes(
            es.first().0,
            es.last().0,
            (4 + records_bytes(entries_records(es)).len()) as u64,
        ),
{
    lemma_table_decompose(es, b);
    let fb = footer_bytes(
        es.first().0,
        es.last().0,
        (4 + records_bytes(entries_records(es)).len()) as u64,
    );
    let r_done = entries_records(done);
    let r_es = entries_records(es);
    assert(b.skip(4) =~= b.subrange(4, pos) + b.skip(pos));
    assert(records_bytes(r_done) + b.skip(pos) == records_bytes(r_es) + fb);
    assert forall|i: int| 0 <= i < r_done.len() implies record_ok(
        #[trigger] r_done[i].1,
        r_done[i].2,
    ) by {
        assert(r_done[i] == entry_record(done[i]));
        assert(entry_ok(done[i]));
    }
    lemma_records_agree(r_done, r_es, b.skip(pos), fb);
    assert(done =~= es.take(done.len() as int)) by {
        assert forall|j: int| 0 <= j < done.len() implies #[trigger] done[j] == es[j] by {
            assert(r_done[j] == r_es.take(done.len() as int)[j]);
            assert(r_es[j] == entry_record(es[j]));
            lemma_entry_record_injective(done[j], es[j]);
        }
    }
}

/// Round trip: a table image determines its contents.  Two valid entry
/// sequences with the same encoding are the same sequence, so loading the
/// image written by a creation yields exactly the entries — and with them
/// the minimum and maximum key — that the creation was given: `create`
/// ensures the image encodes its input, and `load` ensures the table it
/// returns encodes to the image it was given.
pub proof fn lemma_round_trip(es1: Seq<EntryImage>, es2: Seq<EntryImage>)
    requires
        table_input_ok(es1),
        table_input_ok(es2),
        table_bytes(es1) == table_bytes(es2),
    ensures
        es1 == es2,
{
    let b = table_bytes(es1);
    lemma_table_decompose(es1, b);
    lemma_table_decompose(es2, b);
    let r1 = entries_records(es1);
    let r2 = entries_records(es2);
    let fb1 = footer_bytes(es1.first().0, es1.last().0, (4 + records_bytes(r1).len()) as u64);
    let fb2 = footer_bytes(es2.first().0, es2.last().0, (4 + records_bytes(r2).len()) as u64);
    assert(es1.len() == es2.len());
    lemma_records_agree(r1, r2, fb1, fb2);
    assert(r1 =~= r2.take(r1.len() as int));
    assert(r2.take(r2.len() as int) =~= r2);
    assert(es1 =~= es2) by {
        assert forall|j: int| 0 <= j < es1.len() implies #[trigger] es1[j] == es2[j] by {
            assert(r1[j] == entry_record(es1[j]));
            assert(r2[j] == entry_record(es2[j]));
            lemma_entry_record_injective(es1[j], es2[j]);
        }
    }
}

/// Truncation detection: cutting any non-zero number of final bytes off a
/// valid table image leaves bytes that are no table's encoding at all, so a
/// load of the cut image fails rather than returning a short table.
pub proof fn lemma_truncation_detected(es: Seq<EntryImage>, cut: int)
    requires
        table_input_ok(es),
        0 <= cut < table_bytes(es).len(),
    ensures
        forall|es2: Seq<EntryImage>|
            table_input_ok(es2) ==> table_bytes(es2) != table_bytes(es).take(cut),
{
    let b = table_bytes(es);
    let p = b.take(cut);
    assert forall|es2: Seq<EntryImage>|
        table_input_ok(es2) implies table_bytes(es2) != p by {
        if table_bytes(es2) == p {
            lemma_table_decompose(es, b);
            lemma_table_decompose(es2, p);
            let r1 = entries_records(es);
            let r2 = entries_records(es2);
            let fb1 = footer_bytes(
                es.first().0,
                es.last().0,
                (4 + records_bytes(r1).len()) as u64,
            );
            let fb2 = footer_bytes(
                es2.first().0,
                es2.last().0,
                (4 + records_bytes(r2).len()) as u64,
            );
            assert(p.subrange(0, 4) =~= b.subrange(0, 4));
            assert(es2.len() == es.len());
            assert(b.skip(4) =~= p.skip(4) + b.skip(cut));
            assert(records_bytes(r2) + (fb2 + b.skip(cut)) =~= records_bytes(r1) + fb1);
            lemma_records_agree(r2, r1, fb2 + b.skip(cut), fb1);
            assert(r2 =~= r1.take(r2.len() as int));
            assert(r1.take(r1.len() as int) =~= r1);
            assert(es2 =~= es) by {
                assert forall|j: int| 0 <= j < es2.len() implies #[trigger] es2[j] == es[j] by {
                    assert(r2[j] == entry_record(es2[j]));
                    assert(r1[j] == entry_record(es[j]));
                    lemma_entry_record_injective(es2[j], es[j]);
                }
            }
            assert(fb2 == fb1);
            assert(r1.skip(r2.len() as int) =~= Seq::<RecordImage>::empty());
            assert(fb2 + b.skip(cut) == records_bytes(r1.skip(r2.len() as int)) + fb1);
            assert((fb2 + b.skip(cut)).len() == fb2.len() + (b.len() - cut));
            assert((records_bytes(r1.skip(r2.len() as int)) + fb1).len() == fb1.len());
        }
    }
}

/// Reads the 4-byte little-endian entry count off the front of a table
/// image.
pub fn read_entry_count(bytes: &[u8]) -> (r: Result<u32, StoreError>)
    ensures
        match r {
            Ok(c) => bytes@.len() >= 4 && c == spec_u32_from_le_bytes(bytes@.subrange(0, 4)),
            Err(e) => e == StoreError::Truncated && bytes@.len() < 4,
        },
{
    if bytes.len() < 4 {
        return Err(StoreError::Truncated);
    }
    Ok(u32_from_le_bytes(slice_subrange(bytes, 0, 4)))
}

} // verus!
