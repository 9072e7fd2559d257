//! The log record format: a CRC-32 header followed by id, lengths, tombstone
//! flag, key bytes and metadata bytes, all integers big-endian.
//!
//! `parse_record_at` and `parse_from` are the ground truth for what a byte
//! image of the data log means; recovery, reads and appends are all proved
//! against them.

use vstd::prelude::*;
use vstd::slice::{slice_subrange, slice_to_vec};
use vstd::utf8::{valid_utf8, decode_utf8, encode_utf8};
use crate::checksum::{crc32, crc32_of};
use crate::json::{is_json, json_valid};
use crate::format::{
    spec_u32_to_be_bytes, spec_u32_from_be_bytes, lemma_u32_be_bytes_roundtrip,
    lemma_u32_be_bytes_identity, push_u32_be, read_u32_be,
};
use crate::text::bytes_to_string;

verus! {

/// One log record in its mathematical form: slot id, key bytes, metadata
/// bytes and the tombstone flag.
pub struct RecordView {
    pub id: u32,
    pub key: Seq<u8>,
    pub val: Seq<u8>,
    pub tombstone: bool,
}

/// The byte a tombstone flag is stored as.
pub open spec fn spec_tomb_byte(tombstone: bool) -> u8 {
    if tombstone {
        1u8
    } else {
        0u8
    }
}

/// The bytes the record checksum covers: id, key length, value length,
/// raw tombstone byte, key bytes, value bytes.
pub open spec fn spec_payload(id: u32, key: Seq<u8>, val: Seq<u8>, tomb_byte: u8) -> Seq<u8> {
    spec_u32_to_be_bytes(id) + spec_u32_to_be_bytes(key.len() as u32) + spec_u32_to_be_bytes(
        val.len() as u32,
    ) + seq![tomb_byte] + key + val
}

/// The full encoding of one record: checksum, then the payload it covers.
pub open spec fn spec_record_bytes(id: u32, key: Seq<u8>, val: Seq<u8>, tombstone: bool) -> Seq<
    u8,
> {
    let payload = spec_payload(id, key, val, spec_tomb_byte(tombstone));
    spec_u32_to_be_bytes(crc32_of(payload)) + payload
}

/// Number of bytes a record with this key and value occupies.
pub open spec fn spec_record_len(key_len: int, val_len: int) -> int {
    17 + key_len + val_len
}

/// Bytes occupied by a parsed record.
pub open spec fn rv_len(rv: RecordView) -> int {
    spec_record_len(rv.key.len() as int, rv.val.len() as int)
}

/// Parses the record starting at byte `off` of the log image. `Some` exactly
/// when the full record lies within the image, its checksum matches, its key
/// is valid UTF-8 and its value is one well-formed JSON document.
pub open spec fn parse_record_at(log: Seq<u8>, off: int) -> Option<RecordView> {
    if off < 0 || off + 17 > log.len() {
        None
    } else {
        let crc = spec_u32_from_be_bytes(log.subrange(off, off + 4));
        let id = spec_u32_from_be_bytes(log.subrange(off + 4, off + 8));
        let klen = spec_u32_from_be_bytes(log.subrange(off + 8, off + 12)) as int;
        let vlen = spec_u32_from_be_bytes(log.subrange(off + 12, off + 16)) as int;
        let tomb_byte = log[off + 16];
        if off + 17 + klen + vlen > log.len() {
            None
        } else {
            let key = log.subrange(off + 17, off + 17 + klen);
            let val = log.subrange(off + 17 + klen, off + 17 + klen + vlen);
            if crc == crc32_of(spec_payload(id, key, val, tomb_byte)) && valid_utf8(key)
                && is_json(val) && valid_utf8(val) {
                Some(RecordView { id, key, val, tombstone: tomb_byte == 1 })
            } else {
                None
            }
        }
    }
}

/// A parsed record together with the offset it starts at.
pub struct LocRecord {
    pub off: int,
    pub rec: RecordView,
}

/// All records parsed from `off` forward, stopping at the first byte
/// position where no valid record starts.
pub open spec fn parse_from(log: Seq<u8>, off: int) -> Seq<LocRecord>
    decreases log.len() - off,
{
    match parse_record_at(log, off) {
        Some(rv) => seq![LocRecord { off, rec: rv }] + parse_from(log, off + rv_len(rv)),
        None => Seq::empty(),
    }
}

/// The byte position where the scan from `off` stops: the end of the last
/// valid record.
pub open spec fn parse_end(log: Seq<u8>, off: int) -> int
    decreases log.len() - off,
{
    match parse_record_at(log, off) {
        Some(rv) => parse_end(log, off + rv_len(rv)),
        None => off,
    }
}

/// One log record in executable form; key and value are UTF-8 text
/// (the value is the metadata's JSON text).
pub struct Record {
    pub id: u32,
    pub key: String,
    pub value: String,
    pub tombstone: bool,
}

impl Record {
    /// The mathematical record this value stands for.
    pub open spec fn view(self) -> RecordView {
        RecordView {
            id: self.id,
            key: encode_utf8(self.key@),
            val: encode_utf8(self.value@),
            tombstone: self.tombstone,
        }
    }
}

/// Encodes one record; the result is exactly `spec_record_bytes`.
pub fn encode_record(id: u32, key: &String, value: &Vec<u8>, tombstone: bool) -> (out: Vec<u8>)
    requires
        encode_utf8(key@).len() < 0x1_0000_0000,
        value@.len() < 0x1_0000_0000,
    ensures
        out@ == spec_record_bytes(id, encode_utf8(key@), value@, tombstone),
        out@.len() == spec_record_len(encode_utf8(key@).len() as int, value@.len() as int),
{
    let key_bytes: &[u8] = key.as_str().as_bytes();
    let tomb_byte: u8 = if tombstone {
        1
    } else {
        0
    };
    let mut payload: Vec<u8> = Vec::new();
    push_u32_be(&mut payload, id);
    push_u32_be(&mut payload, key_bytes.len() as u32);
    push_u32_be(&mut payload, value.len() as u32);
    payload.push(tomb_byte);
    payload.extend_from_slice(key_bytes);
    payload.extend_from_slice(value.as_slice());
    proof {
        assert(payload@ =~= spec_payload(
            id,
            encode_utf8(key@),
            value@,
            spec_tomb_byte(tombstone),
        ));
    }
    let c = crc32(payload.as_slice());
    let mut out: Vec<u8> = Vec::new();
    push_u32_be(&mut out, c);
    out.extend_from_slice(payload.as_slice());
    proof {
        assert(out@ =~= spec_record_bytes(id, encode_utf8(key@), value@, tombstone));
    }
    out
}

/// Decodes the record at byte `off` of the log image, verifying its
/// checksum, the key's UTF-8 and the value's JSON. Returns the record and
/// its encoded length; `None` exactly when no valid record starts there.
pub fn decode_record_at(log: &Vec<u8>, off: usize) -> (r: Option<(Record, usize)>)
    ensures
        match r {
            Some((rec, len)) => {
                &&& parse_record_at(log@, off as int) == Some(rec.view())
                &&& len == rv_len(rec.view())
                &&& off + len <= log@.len()
                &&& rec.key@ == decode_utf8(rec.view().key)
                &&& rec.value@ == decode_utf8(rec.view().val)
            },
            None => parse_record_at(log@, off as int) is None,
        },
{
    let n = log.len();
    if off > n || n - off < 17 {
        return None;
    }
    let crc = read_u32_be(log, off);
    let id = read_u32_be(log, off + 4);
    let klen32 = read_u32_be(log, off + 8);
    let vlen32 = read_u32_be(log, off + 12);
    let tomb_byte = log[off + 16];
    if (klen32 as u64) + (vlen32 as u64) > (n as u64) - (off as u64) - 17u64 {
        return None;
    }
    let klen = klen32 as usize;
    let vlen = vlen32 as usize;
    let end = off + 17 + klen + vlen;
    let payload = slice_subrange(log.as_slice(), off + 4, end);
    let c = crc32(payload);
    let ghost key_seq = log@.subrange(off as int + 17, off as int + 17 + klen as int);
    let ghost val_seq = log@.subrange(off as int + 17 + klen as int, end as int);
    proof {
        lemma_payload_from_fields(log@, off as int, id, klen32, vlen32, tomb_byte);
    }
    if c != crc {
        return None;
    }
    let key_bytes = slice_to_vec(slice_subrange(log.as_slice(), off + 17, off + 17 + klen));
    let val_bytes = slice_to_vec(slice_subrange(log.as_slice(), off + 17 + klen, end));
    if !json_valid(val_bytes.as_slice()) {
        return None;
    }
    let key = match bytes_to_string(key_bytes) {
        Some(s) => s,
        None => {
            return None;
        },
    };
    let value = match bytes_to_string(val_bytes) {
        Some(s) => s,
        None => {
            proof {
                assert(false);
            }
            return None;
        },
    };
    proof {
        vstd::utf8::decode_utf8_encode_utf8(key_seq);
        vstd::utf8::decode_utf8_encode_utf8(val_seq);
    }
    Some((Record { id, key, value, tombstone: tomb_byte == 1 }, 17 + klen + vlen))
}

/// A window of the log holding the encoding of a well-formed record parses
/// back to exactly that record.
pub proof fn lemma_record_parses(
    log: Seq<u8>,
    off: int,
    id: u32,
    key: Seq<u8>,
    val: Seq<u8>,
    tombstone: bool,
)
    requires
        0 <= off,
        key.len() < 0x1_0000_0000,
        val.len() < 0x1_0000_0000,
        off + spec_record_len(key.len() as int, val.len() as int) <= log.len(),
        log.subrange(off, off + spec_record_len(key.len() as int, val.len() as int))
            == spec_record_bytes(id, key, val, tombstone),
        valid_utf8(key),
        is_json(val),
        valid_utf8(val),
    ensures
        parse_record_at(log, off) == Some(RecordView { id, key, val, tombstone }),
{
    let klen = key.len() as int;
    let vlen = val.len() as int;
    let len = spec_record_len(klen, vlen);
    let tb = spec_tomb_byte(tombstone);
    let payload = spec_payload(id, key, val, tb);
    let rec = spec_record_bytes(id, key, val, tombstone);
    assert forall|a: int, b: int| 0 <= a <= b <= len implies log.subrange(off + a, off + b)
        =~= rec.subrange(a, b) by {
        assert(rec == log.subrange(off, off + len));
    }
    assert(rec.subrange(0, 4) =~= spec_u32_to_be_bytes(crc32_of(payload)));
    assert(rec.subrange(4, 8) =~= spec_u32_to_be_bytes(id));
    assert(rec.subrange(8, 12) =~= spec_u32_to_be_bytes(key.len() as u32));
    assert(rec.subrange(12, 16) =~= spec_u32_to_be_bytes(val.len() as u32));
    assert(rec[16] == tb);
    assert(rec.subrange(17, 17 + klen) =~= key);
    assert(rec.subrange(17 + klen, 17 + klen + vlen) =~= val);
    lemma_u32_be_bytes_roundtrip(crc32_of(payload));
    lemma_u32_be_bytes_roundtrip(id);
    lemma_u32_be_bytes_roundtrip(key.len() as u32);
    lemma_u32_be_bytes_roundtrip(val.len() as u32);
    assert(spec_u32_from_be_bytes(log.subrange(off + 8, off + 12)) as int == klen);
    assert(spec_u32_from_be_bytes(log.subrange(off + 12, off + 16)) as int == vlen);
    assert(log[off + 16] == tb);
    assert(parse_record_at(log, off) == Some(RecordView { id, key, val, tombstone }));
}

/// A record parsed inside the current log still parses, unchanged, after
/// more bytes are appended.
pub proof fn lemma_parse_record_at_stable(log: Seq<u8>, ext: Seq<u8>, off: int)
    requires
        parse_record_at(log, off) is Some,
    ensures
        parse_record_at(log + ext, off) == parse_record_at(log, off),
{
    let whole = log + ext;
    let klen = spec_u32_from_be_bytes(log.subrange(off + 8, off + 12)) as int;
    let vlen = spec_u32_from_be_bytes(log.subrange(off + 12, off + 16)) as int;
    assert(whole.subrange(off, off + 4) =~= log.subrange(off, off + 4));
    assert(whole.subrange(off + 4, off + 8) =~= log.subrange(off + 4, off + 8));
    assert(whole.subrange(off + 8, off + 12) =~= log.subrange(off + 8, off + 12));
    assert(whole.subrange(off + 12, off + 16) =~= log.subrange(off + 12, off + 16));
    assert(whole[off + 16] == log[off + 16]);
    assert(whole.subrange(off + 17, off + 17 + klen) =~= log.subrange(off + 17, off + 17 + klen));
    assert(whole.subrange(off + 17 + klen, off + 17 + klen + vlen) =~= log.subrange(
        off + 17 + klen,
        off + 17 + klen + vlen,
    ));
    assert(parse_record_at(whole, off) == parse_record_at(log, off));
}

/// Appending one whole valid record to a fully scanned log extends the scan
/// by exactly that record.
pub proof fn lemma_parse_from_append(log: Seq<u8>, off: int, ext: Seq<u8>, rv: RecordView)
    requires
        0 <= off <= log.len(),
        parse_end(log, off) == log.len(),
        parse_record_at(log + ext, log.len() as int) == Some(rv),
        rv_len(rv) == ext.len(),
    ensures
        parse_from(log + ext, off) == parse_from(log, off) + seq![
            LocRecord { off: log.len() as int, rec: rv },
        ],
        parse_end(log + ext, off) == log.len() + ext.len(),
    decreases log.len() - off,
{
    let whole = log + ext;
    match parse_record_at(log, off) {
        Some(r) => {
            lemma_parse_record_at_stable(log, ext, off);
            lemma_parse_from_append(log, off + rv_len(r), ext, rv);
            assert(parse_from(whole, off) =~= parse_from(log, off) + seq![
                LocRecord { off: log.len() as int, rec: rv },
            ]);
            assert(parse_end(whole, off) == parse_end(whole, off + rv_len(r)));
        },
        None => {
            assert(parse_end(log, off) == off);
            assert(off == log.len());
            assert(parse_record_at(whole, off + rv_len(rv)) is None);
            assert(parse_from(whole, off + rv_len(rv)) =~= Seq::<LocRecord>::empty());
            assert(parse_from(whole, off) =~= seq![LocRecord { off: log.len() as int, rec: rv }]);
            assert(parse_from(log, off) =~= Seq::<LocRecord>::empty());
            assert(parse_from(whole, off) =~= parse_from(log, off) + seq![
                LocRecord { off: log.len() as int, rec: rv },
            ]);
            assert(parse_end(whole, off) == parse_end(whole, off + rv_len(rv)));
            assert(parse_end(whole, off + rv_len(rv)) == off + rv_len(rv));
        },
    }
}

/// Appending the encoding of one well-formed record to a fully scanned log
/// extends the scan by exactly that record and disturbs no record already
/// parsed.
pub proof fn lemma_append_record(
    old_log: Seq<u8>,
    new_log: Seq<u8>,
    id: u32,
    key: Seq<u8>,
    val: Seq<u8>,
    tomb: bool,
)
    requires
        old_log.len() >= 32,
        parse_end(old_log, 32) == old_log.len(),
        new_log == old_log + spec_record_bytes(id, key, val, tomb),
        key.len() < 0x1_0000_0000,
        val.len() < 0x1_0000_0000,
        valid_utf8(key),
        is_json(val),
        valid_utf8(val),
    ensures
        parse_record_at(new_log, old_log.len() as int) == Some(
            RecordView { id, key, val, tombstone: tomb },
        ),
        parse_from(new_log, 32) == parse_from(old_log, 32) + seq![
            LocRecord {
                off: old_log.len() as int,
                rec: RecordView { id, key, val, tombstone: tomb },
            },
        ],
        parse_end(new_log, 32) == new_log.len(),
        forall|o: int|
            parse_record_at(old_log, o) is Some ==> #[trigger] parse_record_at(new_log, o)
                == parse_record_at(old_log, o),
        new_log.subrange(0, 4) == old_log.subrange(0, 4),
        new_log[4] == old_log[4],
{
    let rec_bytes = spec_record_bytes(id, key, val, tomb);
    let rv = RecordView { id, key, val, tombstone: tomb };
    assert(rec_bytes.len() == spec_record_len(key.len() as int, val.len() as int));
    assert(new_log.subrange(
        old_log.len() as int,
        old_log.len() + spec_record_len(key.len() as int, val.len() as int),
    ) =~= rec_bytes);
    lemma_record_parses(new_log, old_log.len() as int, id, key, val, tomb);
    lemma_parse_from_append(old_log, 32, rec_bytes, rv);
    assert forall|o: int| parse_record_at(old_log, o) is Some implies #[trigger] parse_record_at(
        new_log,
        o,
    ) == parse_record_at(old_log, o) by {
        lemma_parse_record_at_stable(old_log, rec_bytes, o);
    }
    assert(new_log.subrange(0, 4) =~= old_log.subrange(0, 4));
}

/// Each record the scan yields parses at its recorded offset, and its whole
/// window lies before the scan's stopping point.
pub proof fn lemma_parse_from_records(log: Seq<u8>, off: int, w: int)
    requires
        0 <= off <= log.len(),
        0 <= w < parse_from(log, off).len(),
    ensures
        parse_record_at(log, parse_from(log, off)[w].off) == Some(parse_from(log, off)[w].rec),
        off <= parse_from(log, off)[w].off,
        parse_from(log, off)[w].off + rv_len(parse_from(log, off)[w].rec) <= parse_end(log, off),
    decreases log.len() - off,
{
    match parse_record_at(log, off) {
        Some(rv) => {
            lemma_parse_end_bounds(log, off + rv_len(rv));
            if w > 0 {
                lemma_parse_from_records(log, off + rv_len(rv), w - 1);
            }
        },
        None => {},
    }
}

/// The scan's stopping point lies between its start and the end of the log.
pub proof fn lemma_parse_end_bounds(log: Seq<u8>, off: int)
    requires
        0 <= off <= log.len(),
    ensures
        off <= parse_end(log, off) <= log.len(),
    decreases log.len() - off,
{
    match parse_record_at(log, off) {
        Some(rv) => {
            lemma_parse_end_bounds(log, off + rv_len(rv));
        },
        None => {},
    }
}

/// Cutting the log exactly at the scan's stopping point keeps every record
/// and leaves nothing after them.
pub proof fn lemma_parse_from_restrict(log: Seq<u8>, off: int)
    requires
        0 <= off <= log.len(),
    ensures
        parse_from(log.take(parse_end(log, off)), off) == parse_from(log, off),
        parse_end(log.take(parse_end(log, off)), off) == parse_end(log, off),
{
    lemma_parse_end_bounds(log, off);
    lemma_parse_from_restrict_inner(log, off, parse_end(log, off));
}

/// Helper: the restriction argument generalized to any suffix position of
/// the same scan.
proof fn lemma_parse_from_restrict_inner(log: Seq<u8>, off: int, e: int)
    requires
        0 <= off <= log.len(),
        e == parse_end(log, off),
        e <= log.len(),
    ensures
        parse_from(log.take(e), off) == parse_from(log, off),
        parse_end(log.take(e), off) == e,
    decreases log.len() - off,
{
    lemma_parse_end_bounds(log, off);
    let cut = log.take(e);
    match parse_record_at(log, off) {
        Some(rv) => {
            lemma_parse_end_bounds(log, off + rv_len(rv));
            assert(off + rv_len(rv) <= e);
            lemma_parse_record_within(log, off, e);
            lemma_parse_from_restrict_inner(log, off + rv_len(rv), e);
            assert(parse_from(cut, off) =~= parse_from(log, off));
        },
        None => {
            assert(e == off);
            assert(parse_record_at(cut, off) is None) by {
                assert(cut.len() == off);
            }
        },
    }
}

/// A record whose window lies before position `e` parses identically in the
/// log cut at `e`.
pub proof fn lemma_parse_record_within(log: Seq<u8>, off: int, e: int)
    requires
        parse_record_at(log, off) is Some,
        off + rv_len(parse_record_at(log, off)->Some_0) <= e <= log.len(),
    ensures
        parse_record_at(log.take(e), off) == parse_record_at(log, off),
{
    let cut = log.take(e);
    let klen = spec_u32_from_be_bytes(log.subrange(off + 8, off + 12)) as int;
    let vlen = spec_u32_from_be_bytes(log.subrange(off + 12, off + 16)) as int;
    assert(cut.subrange(off, off + 4) =~= log.subrange(off, off + 4));
    assert(cut.subrange(off + 4, off + 8) =~= log.subrange(off + 4, off + 8));
    assert(cut.subrange(off + 8, off + 12) =~= log.subrange(off + 8, off + 12));
    assert(cut.subrange(off + 12, off + 16) =~= log.subrange(off + 12, off + 16));
    assert(cut[off + 16] == log[off + 16]);
    assert(cut.subrange(off + 17, off + 17 + klen) =~= log.subrange(off + 17, off + 17 + klen));
    assert(cut.subrange(off + 17 + klen, off + 17 + klen + vlen) =~= log.subrange(
        off + 17 + klen,
        off + 17 + klen + vlen,
    ));
    assert(parse_record_at(cut, off) == parse_record_at(log, off));
}

/// Cutting the log anywhere yields a scan that is a prefix of the full
/// scan: truncation never invents records.
#[verifier::rlimit(50)]
pub proof fn lemma_parse_from_prefix(log: Seq<u8>, n: int, off: int)
    requires
        0 <= n <= log.len(),
    ensures
        parse_from(log.take(n), off).is_prefix_of(parse_from(log, off)),
    decreases n - off,
{
    let cut = log.take(n);
    if off < 0 || off > n {
        assert(parse_record_at(cut, off) is None);
        assert(parse_from(cut, off) =~= Seq::<LocRecord>::empty());
    } else {
        match parse_record_at(cut, off) {
            Some(rv) => {
                assert(cut + log.skip(n) =~= log);
                lemma_parse_record_at_stable(cut, log.skip(n), off);
                assert(parse_record_at(log, off) == Some(rv));
                lemma_parse_from_prefix(log, n, off + rv_len(rv));
                let lr = LocRecord { off, rec: rv };
                let a = parse_from(cut, off + rv_len(rv));
                let b = parse_from(log, off + rv_len(rv));
                assert(parse_from(cut, off) == seq![lr] + a);
                assert(parse_from(log, off) == seq![lr] + b);
                assert(a =~= b.subrange(0, a.len() as int));
                assert(seq![lr] + a =~= (seq![lr] + b).subrange(0, a.len() as int + 1));
            },
            None => {
                assert(parse_from(cut, off) =~= Seq::<LocRecord>::empty());
            },
        }
    }
}

/// The payload bytes of a record window equal `spec_payload` of the fields
/// read from that window.
proof fn lemma_payload_from_fields(log: Seq<u8>, off: int, id: u32, klen32: u32, vlen32: u32, tomb_byte: u8)
    requires
        0 <= off,
        off + 17 + klen32 + vlen32 <= log.len(),
        id == spec_u32_from_be_bytes(log.subrange(off + 4, off + 8)),
        klen32 == spec_u32_from_be_bytes(log.subrange(off + 8, off + 12)),
        vlen32 == spec_u32_from_be_bytes(log.subrange(off + 12, off + 16)),
        tomb_byte == log[off + 16],
    ensures
        log.subrange(off + 4, off + 17 + klen32 + vlen32) == spec_payload(
            id,
            log.subrange(off + 17, off + 17 + klen32),
            log.subrange(off + 17 + klen32, off + 17 + klen32 + vlen32),
            tomb_byte,
        ),
{
    let key = log.subrange(off + 17, off + 17 + klen32);
    let val = log.subrange(off + 17 + klen32, off + 17 + klen32 + vlen32);
    lemma_u32_be_bytes_identity(log.subrange(off + 4, off + 8));
    lemma_u32_be_bytes_identity(log.subrange(off + 8, off + 12));
    lemma_u32_be_bytes_identity(log.subrange(off + 12, off + 16));
    assert(key.len() as u32 == klen32);
    assert(val.len() as u32 == vlen32);
    assert(log.subrange(off + 4, off + 17 + klen32 + vlen32) =~= spec_payload(
        id,
        key,
        val,
        tomb_byte,
    ));
}

} // verus!
