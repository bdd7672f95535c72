//! The write-ahead log: the binary record framing, the encoder that fills a
//! log buffer, and the decoder that walks one segment's bytes.
//!
//! One record is framed little-endian as
//!
//! ```text
//! u64  key_length
//! u8   deleted_flag (0 = live, anything else = tombstone)
//! u64  value_length          -- present only on live records
//! bytes key[key_length]
//! bytes value[value_length]  -- present only on live records
//! u128 timestamp
//! ```
//!
//! Decoding tells two failures apart: a stream that ends exactly at a record
//! boundary is a clean end ("no more records"), while a stream that ends
//! anywhere inside a record is corrupt and surfaces as an error, never as a
//! false clean end.

use crate::models::{Entry, EntryModel, Key};
use crate::result::RiversError;
use vstd::bytes::{
    spec_u128_from_le_bytes, spec_u128_to_le_bytes, spec_u64_from_le_bytes, spec_u64_to_le_bytes,
    u128_from_le_bytes, u128_to_le_bytes, u64_from_le_bytes, u64_to_le_bytes,
};
use vstd::prelude::*;
use vstd::slice::{slice_subrange, slice_to_vec};

verus! {

/// The value bytes of a record, or the empty string for a record carrying
/// none.
pub open spec fn value_or_empty(e: EntryModel) -> Seq<u8> {
    match e.value {
        Some(v) => v,
        None => Seq::empty(),
    }
}

/// The exact byte image of one encoded record.
pub open spec fn spec_encode(e: EntryModel) -> Seq<u8> {
    if e.deleted {
        spec_u64_to_le_bytes(e.key.len() as u64) + seq![1u8] + e.key + spec_u128_to_le_bytes(
            e.timestamp,
        )
    } else {
        spec_u64_to_le_bytes(e.key.len() as u64) + seq![0u8] + spec_u64_to_le_bytes(
            value_or_empty(e).len() as u64,
        ) + e.key + value_or_empty(e) + spec_u128_to_le_bytes(e.timestamp)
    }
}

/// What one decoding step finds at a position in a byte stream.
pub enum ParseResult {
    /// The position sits exactly at the end of the stream: a clean end.
    End,
    /// A whole record sits at the position; `next` is the position just past
    /// it.
    Rec { e: EntryModel, next: int },
    /// The stream ends inside the record that starts here: truncated or
    /// corrupt.
    Corrupt,
}

/// Decodes the record starting at `pos`, reading the fields in frame order
/// and classifying a short stream as [`ParseResult::Corrupt`] at every field
/// boundary but the first.
pub open spec fn parse_at(data: Seq<u8>, pos: int) -> ParseResult
    recommends
        0 <= pos <= data.len(),
{
    if pos == data.len() {
        ParseResult::End
    } else if pos + 9 > data.len() {
        ParseResult::Corrupt
    } else {
        let kl = spec_u64_from_le_bytes(data.subrange(pos, pos + 8)) as int;
        if data[pos + 8] != 0 {
            if pos + 9 + kl + 16 > data.len() {
                ParseResult::Corrupt
            } else {
                ParseResult::Rec {
                    e: EntryModel::tombstone(
                        data.subrange(pos + 9, pos + 9 + kl),
                        spec_u128_from_le_bytes(data.subrange(pos + 9 + kl, pos + 9 + kl + 16)),
                    ),
                    next: pos + 9 + kl + 16,
                }
            }
        } else {
            if pos + 17 > data.len() {
                ParseResult::Corrupt
            } else {
                let vl = spec_u64_from_le_bytes(data.subrange(pos + 9, pos + 17)) as int;
                if pos + 17 + kl + vl + 16 > data.len() {
                    ParseResult::Corrupt
                } else {
                    ParseResult::Rec {
                        e: EntryModel::live(
                            data.subrange(pos + 17, pos + 17 + kl),
                            data.subrange(pos + 17 + kl, pos + 17 + kl + vl),
                            spec_u128_from_le_bytes(
                                data.subrange(pos + 17 + kl + vl, pos + 17 + kl + vl + 16),
                            ),
                        ),
                        next: pos + 17 + kl + vl + 16,
                    }
                }
            }
        }
    }
}

/// A record found at `pos` lies strictly between `pos` and the end of the
/// stream.
pub proof fn lemma_parse_next_bounds(data: Seq<u8>, pos: int)
    requires
        0 <= pos <= data.len(),
    ensures
        parse_at(data, pos) matches ParseResult::Rec { e, next } ==> pos + 25 <= next
            <= data.len(),
{
}

/// Appends the bytes of `src` to `dst`.
pub fn append_bytes(dst: &mut Vec<u8>, src: &Vec<u8>)
    ensures
        final(dst)@ == old(dst)@ + src@,
{
    let n = src.len();
    let mut i: usize = 0;
    while i < n
        invariant
            i <= n,
            n == src@.len(),
            dst@ == old(dst)@ + src@.subrange(0, i as int),
        decreases n - i,
    {
        dst.push(src[i]);
        proof {
            assert(old(dst)@ + src@.subrange(0, i as int + 1) =~= (old(dst)@ + src@.subrange(
                0,
                i as int,
            )).push(src@[i as int]));
        }
        i = i + 1;
    }
    proof {
        assert(src@.subrange(0, n as int) =~= src@);
    }
}

/// Encodes one record exactly as [`spec_encode`] lays it out.
pub fn encode_entry(entry: &Entry) -> (r: Vec<u8>)
    ensures
        r@ == spec_encode(entry@),
{
    let mut out = u64_to_le_bytes(entry.key.len() as u64);
    if entry.deleted {
        out.push(1u8);
        append_bytes(&mut out, &entry.key);
        let mut ts_bytes = u128_to_le_bytes(entry.timestamp);
        out.append(&mut ts_bytes);
        proof {
            assert(out@ =~= spec_encode(entry@));
        }
    } else {
        out.push(0u8);
        let vlen: u64 = match &entry.value {
            Some(v) => v.len() as u64,
            None => 0u64,
        };
        let mut vl_bytes = u64_to_le_bytes(vlen);
        out.append(&mut vl_bytes);
        append_bytes(&mut out, &entry.key);
        match &entry.value {
            Some(v) => append_bytes(&mut out, v),
            None => (),
        }
        let mut ts_bytes = u128_to_le_bytes(entry.timestamp);
        out.append(&mut ts_bytes);
        proof {
            assert(value_or_empty(entry@) + Seq::<u8>::empty() =~= value_or_empty(entry@));
            assert(out@ =~= spec_encode(entry@));
        }
    }
    out
}

/// One write-ahead log: the byte image of every record appended since the
/// buffer was last drained. The caller persists drained bytes; until it
/// drains and flushes, appended records are buffered and not durable.
pub struct WAL {
    pub buffer: Vec<u8>,
}

impl WAL {
    /// A log with an empty buffer.
    pub fn new() -> (r: WAL)
        ensures
            r.buffer@ == Seq::<u8>::empty(),
    {
        WAL { buffer: Vec::new() }
    }

    /// Encodes one record and appends it to the buffer.
    pub fn put(&mut self, entry: &Entry)
        ensures
            final(self).buffer@ == old(self).buffer@ + spec_encode(entry@),
    {
        let mut encoded = encode_entry(entry);
        self.buffer.append(&mut encoded);
    }

    /// Hands the buffered bytes over for persisting and empties the buffer.
    /// Durability is the caller's: these bytes are not on storage until the
    /// caller writes and flushes them.
    pub fn flush(&mut self) -> (r: Vec<u8>)
        ensures
            r@ == old(self).buffer@,
            final(self).buffer@ == Seq::<u8>::empty(),
    {
        let r = crate::models::copy_bytes(&self.buffer);
        self.buffer.clear();
        r
    }
}

/// What the executable decoder found at a position.
pub enum DecodeOutcome {
    /// Clean end of the stream: no more records.
    End,
    /// One whole record, and the position just past it.
    Record { entry: Entry, next: usize },
    /// The stream ends inside a record: truncated or corrupt.
    Corrupt,
}

/// The executable outcome agrees with the specification-level parse.
pub open spec fn decode_matches(r: DecodeOutcome, p: ParseResult) -> bool {
    match p {
        ParseResult::End => r is End,
        ParseResult::Corrupt => r is Corrupt,
        ParseResult::Rec { e, next } => r matches DecodeOutcome::Record { entry, next: n }
            && entry@ == e && n == next,
    }
}

/// Decodes the record starting at `pos` of `data`.
pub fn decode_at(data: &Vec<u8>, pos: usize) -> (r: DecodeOutcome)
    requires
        pos <= data@.len(),
    ensures
        decode_matches(r, parse_at(data@, pos as int)),
{
    let n = data.len();
    if pos == n {
        return DecodeOutcome::End;
    }
    if n - pos < 9 {
        return DecodeOutcome::Corrupt;
    }
    let kl64 = u64_from_le_bytes(slice_subrange(data.as_slice(), pos, pos + 8));
    let flag = data[pos + 8];
    let rem: u64 = (n - pos - 9) as u64;
    if flag != 0 {
        if kl64 > rem {
            return DecodeOutcome::Corrupt;
        }
        if rem - kl64 < 16 {
            return DecodeOutcome::Corrupt;
        }
        let kl = kl64 as usize;
        let key = slice_to_vec(slice_subrange(data.as_slice(), pos + 9, pos + 9 + kl));
        let ts = u128_from_le_bytes(
            slice_subrange(data.as_slice(), pos + 9 + kl, pos + 9 + kl + 16),
        );
        DecodeOutcome::Record {
            entry: Entry { key, value: None, timestamp: ts, deleted: true },
            next: pos + 9 + kl + 16,
        }
    } else {
        if rem < 8 {
            return DecodeOutcome::Corrupt;
        }
        let vl64 = u64_from_le_bytes(slice_subrange(data.as_slice(), pos + 9, pos + 17));
        let rem2 = rem - 8;
        if kl64 > rem2 {
            return DecodeOutcome::Corrupt;
        }
        let rem3 = rem2 - kl64;
        if vl64 > rem3 {
            return DecodeOutcome::Corrupt;
        }
        if rem3 - vl64 < 16 {
            return DecodeOutcome::Corrupt;
        }
        let kl = kl64 as usize;
        let vl = vl64 as usize;
        let key = slice_to_vec(slice_subrange(data.as_slice(), pos + 17, pos + 17 + kl));
        let value = slice_to_vec(
            slice_subrange(data.as_slice(), pos + 17 + kl, pos + 17 + kl + vl),
        );
        let ts = u128_from_le_bytes(
            slice_subrange(data.as_slice(), pos + 17 + kl + vl, pos + 17 + kl + vl + 16),
        );
        DecodeOutcome::Record {
            entry: Entry { key, value: Some(value), timestamp: ts, deleted: false },
            next: pos + 17 + kl + vl + 16,
        }
    }
}

/// A forward-only decoder over one segment's bytes. It yields records in
/// on-disk order until the clean end of the stream; a truncated or corrupt
/// record ends the sequence and is recorded in `err` instead of being
/// conflated with the clean end.
pub struct WALIterator {
    pub data: Vec<u8>,
    pub pos: usize,
    pub err: Option<RiversError>,
}

impl WALIterator {
    pub open spec fn wf(self) -> bool {
        self.pos <= self.data@.len()
    }

    /// A decoder positioned at the start of `data`.
    pub fn new(data: Vec<u8>) -> (r: WALIterator)
        ensures
            r.wf(),
            r.data@ == data@,
            r.pos == 0,
            r.err is None,
    {
        WALIterator { data, pos: 0, err: None }
    }

    /// The next record, or `None` at the clean end of the stream — and also
    /// on a corrupt record, which additionally sets `err`.
    pub fn next(&mut self) -> (r: Option<Entry>)
        requires
            old(self).wf(),
        ensures
            final(self).wf(),
            final(self).data@ == old(self).data@,
            match parse_at(old(self).data@, old(self).pos as int) {
                ParseResult::Rec { e, next } => {
                    &&& r matches Some(entry) && entry@ == e
                    &&& final(self).pos == next
                    &&& final(self).err == old(self).err
                },
                ParseResult::End => {
                    &&& r is None
                    &&& final(self).pos == old(self).pos
                    &&& final(self).err == old(self).err
                },
                ParseResult::Corrupt => {
                    &&& r is None
                    &&& final(self).err matches Some(e2) && e2 matches RiversError::WalErr { .. }
                },
            },
    {
        match decode_at(&self.data, self.pos) {
            DecodeOutcome::Record { entry, next } => {
                proof {
                    lemma_parse_next_bounds(self.data@, self.pos as int);
                }
                self.pos = next;
                Some(entry)
            },
            DecodeOutcome::End => None,
            DecodeOutcome::Corrupt => {
                self.err = Some(RiversError::wal_err("truncated or corrupt segment record"));
                None
            },
        }
    }
}

/// What a full scan of one segment for a key concludes.
pub enum LookupResult {
    Found(EntryModel),
    Absent,
    Corrupt,
}

/// The record a scan of `data` from `pos` returns for `key`: the first
/// record in stream order whose key matches. A clean end before any match is
/// absence; a truncated or corrupt record before any match poisons the scan.
pub open spec fn seg_lookup(data: Seq<u8>, pos: int, key: Seq<u8>) -> LookupResult
    recommends
        0 <= pos <= data.len(),
    decreases data.len() - pos
        when 0 <= pos <= data.len()
        via seg_lookup_decreases
{
    match parse_at(data, pos) {
        ParseResult::End => LookupResult::Absent,
        ParseResult::Corrupt => LookupResult::Corrupt,
        ParseResult::Rec { e, next } => if e.key == key {
            LookupResult::Found(e)
        } else {
            seg_lookup(data, next, key)
        },
    }
}

#[via_fn]
proof fn seg_lookup_decreases(data: Seq<u8>, pos: int, key: Seq<u8>) {
    lemma_parse_next_bounds(data, pos);
}

/// The outcome of scanning one segment for a key.
pub enum ScanOutcome {
    Found { entry: Entry },
    Absent,
    Corrupt,
}

/// Scans one segment's bytes in on-disk order for the first record whose
/// key equals `key`. A corrupt record reached before any match aborts the
/// scan; it is never reported as absence.
pub fn scan_segment(data: &Vec<u8>, key: &Key) -> (r: ScanOutcome)
    ensures
        match seg_lookup(data@, 0, key@) {
            LookupResult::Found(e) => r matches ScanOutcome::Found { entry } && entry@ == e,
            LookupResult::Absent => r is Absent,
            LookupResult::Corrupt => r is Corrupt,
        },
{
    let mut pos: usize = 0;
    loop
        invariant
            pos <= data@.len(),
            seg_lookup(data@, 0, key@) == seg_lookup(data@, pos as int, key@),
        decreases data@.len() - pos,
    {
        match decode_at(data, pos) {
            DecodeOutcome::End => {
                return ScanOutcome::Absent;
            },
            DecodeOutcome::Corrupt => {
                return ScanOutcome::Corrupt;
            },
            DecodeOutcome::Record { entry, next } => {
                proof {
                    lemma_parse_next_bounds(data@, pos as int);
                }
                match crate::lex::key_compare(&entry.key, key) {
                    crate::lex::KeyOrdering::Equal => {
                        return ScanOutcome::Found { entry };
                    },
                    _ => {
                        pos = next;
                    },
                }
            },
        }
    }
}

/// The segment file extension as trailing name bytes: `".rvr"`.
pub open spec fn spec_segment_ext() -> Seq<u8> {
    seq![46u8, 114u8, 118u8, 114u8]
}

/// `name` names a segment file: a non-empty stem followed by the segment
/// extension.
pub open spec fn spec_is_segment_name(name: Seq<u8>) -> bool {
    name.len() > 4 && name.subrange(name.len() - 4, name.len() as int) == spec_segment_ext()
}

/// Whether `name` names a segment file.
pub fn is_segment_name(name: &Vec<u8>) -> (r: bool)
    ensures
        r == spec_is_segment_name(name@),
{
    let n = name.len();
    if n <= 4 {
        return false;
    }
    let m = name[n - 4] == 46 && name[n - 3] == 114 && name[n - 2] == 118 && name[n - 1] == 114;
    proof {
        let s = name@.subrange(n as int - 4, n as int);
        if m {
            assert(s =~= spec_segment_ext());
        } else {
            if s == spec_segment_ext() {
                assert(s[0] == name@[n as int - 4]);
                assert(s[1] == name@[n as int - 3]);
                assert(s[2] == name@[n as int - 2]);
                assert(s[3] == name@[n as int - 1]);
            }
        }
    }
    m
}

/// The decimal digits of `n`, most significant first.
pub open spec fn spec_decimal(n: u64) -> Seq<u8>
    decreases n,
{
    if n < 10 {
        seq![(48 + n) as u8]
    } else {
        spec_decimal(n / 10) + seq![(48 + n % 10) as u8]
    }
}

proof fn lemma_spec_decimal_len(n: u64)
    ensures
        spec_decimal(n).len() >= 1,
    decreases n,
{
    if n >= 10 {
        lemma_spec_decimal_len(n / 10);
    }
}

/// Appends the decimal digits of `n` to `out`.
fn push_decimal(out: &mut Vec<u8>, n: u64)
    ensures
        final(out)@ == old(out)@ + spec_decimal(n),
    decreases n,
{
    if n < 10 {
        out.push((48 + n) as u8);
        proof {
            assert(old(out)@ + spec_decimal(n) =~= old(out)@.push((48 + n) as u8));
        }
    } else {
        push_decimal(out, n / 10);
        out.push((48 + n % 10) as u8);
        proof {
            assert(old(out)@ + spec_decimal(n) =~= (old(out)@ + spec_decimal(n / 10)).push(
                (48 + n % 10) as u8,
            ));
        }
    }
}

/// The file name for a segment created at `ts` microseconds since the
/// epoch: the decimal digits of the timestamp followed by the segment
/// extension. Names made this way are found again by the segment-name
/// filter, and names of equal digit count sort lexicographically in
/// creation order.
pub fn segment_file_name(ts: u64) -> (r: Vec<u8>)
    ensures
        r@ == spec_decimal(ts) + spec_segment_ext(),
        spec_is_segment_name(r@),
{
    let mut out: Vec<u8> = Vec::new();
    push_decimal(&mut out, ts);
    out.push(46);
    out.push(114);
    out.push(118);
    out.push(114);
    proof {
        lemma_spec_decimal_len(ts);
        assert(Seq::<u8>::empty() + spec_decimal(ts) =~= spec_decimal(ts));
        assert(out@ =~= spec_decimal(ts) + spec_segment_ext());
        assert(out@.subrange(out@.len() - 4, out@.len() as int) =~= spec_segment_ext());
    }
    out
}

/// A subrange of `data` that is known byte-for-byte equal to `enc` has the
/// matching subranges of `enc` everywhere inside it.
proof fn lemma_subrange_of_matching(data: Seq<u8>, pos: int, enc: Seq<u8>, a: int, b: int)
    requires
        0 <= pos,
        pos + enc.len() <= data.len(),
        data.subrange(pos, pos + enc.len()) == enc,
        0 <= a <= b <= enc.len(),
    ensures
        data.subrange(pos + a, pos + b) == enc.subrange(a, b),
{
    assert forall|i: int| 0 <= i < b - a implies data.subrange(pos + a, pos + b)[i]
        == enc.subrange(a, b)[i] by {
        assert(data.subrange(pos, pos + enc.len() as int)[a + i] == enc[a + i]);
    }
    assert(data.subrange(pos + a, pos + b) =~= enc.subrange(a, b));
}

/// Wherever an encoded record sits in a stream, parsing at its start yields
/// exactly that record, whatever bytes follow it.
pub proof fn lemma_parse_encoded(data: Seq<u8>, pos: int, e: EntryModel)
    requires
        e.wf(),
        e.key.len() <= u64::MAX,
        value_or_empty(e).len() <= u64::MAX,
        0 <= pos,
        pos + spec_encode(e).len() <= data.len(),
        data.subrange(pos, pos + spec_encode(e).len() as int) == spec_encode(e),
    ensures
        parse_at(data, pos) == (ParseResult::Rec { e, next: pos + spec_encode(e).len() as int }),
{
    let enc = spec_encode(e);
    let kl = e.key.len() as int;
    vstd::bytes::lemma_auto_spec_u64_to_from_le_bytes();
    vstd::bytes::lemma_auto_spec_u128_to_from_le_bytes();
    assert(e.key.len() as u64 as int == kl);
    if e.deleted {
        let t = spec_u128_to_le_bytes(e.timestamp);
        assert(enc.len() == 9 + kl + 16);
        lemma_subrange_of_matching(data, pos, enc, 0, 8);
        assert(enc.subrange(0, 8) =~= spec_u64_to_le_bytes(e.key.len() as u64));
        assert(data.subrange(pos, pos + enc.len() as int)[8] == enc[8]);
        assert(enc[8] == 1);
        lemma_subrange_of_matching(data, pos, enc, 9, 9 + kl);
        assert(enc.subrange(9, 9 + kl) =~= e.key);
        lemma_subrange_of_matching(data, pos, enc, 9 + kl, 9 + kl + 16);
        assert(enc.subrange(9 + kl, 9 + kl + 16) =~= t);
        assert(EntryModel::tombstone(e.key, e.timestamp) == e);
    } else {
        let v = value_or_empty(e);
        let vl = v.len() as int;
        assert(v.len() as u64 as int == vl);
        let t = spec_u128_to_le_bytes(e.timestamp);
        assert(enc.len() == 17 + kl + vl + 16);
        lemma_subrange_of_matching(data, pos, enc, 0, 8);
        assert(enc.subrange(0, 8) =~= spec_u64_to_le_bytes(e.key.len() as u64));
        assert(data.subrange(pos, pos + enc.len() as int)[8] == enc[8]);
        assert(enc[8] == 0);
        lemma_subrange_of_matching(data, pos, enc, 9, 17);
        assert(enc.subrange(9, 17) =~= spec_u64_to_le_bytes(v.len() as u64));
        lemma_subrange_of_matching(data, pos, enc, 17, 17 + kl);
        assert(enc.subrange(17, 17 + kl) =~= e.key);
        lemma_subrange_of_matching(data, pos, enc, 17 + kl, 17 + kl + vl);
        assert(enc.subrange(17 + kl, 17 + kl + vl) =~= v);
        lemma_subrange_of_matching(data, pos, enc, 17 + kl + vl, 17 + kl + vl + 16);
        assert(enc.subrange(17 + kl + vl, 17 + kl + vl + 16) =~= t);
        assert(EntryModel::live(e.key, v, e.timestamp) == e);
    }
}

/// Round trip: decoding an encoded record yields exactly the record that
/// was encoded, for every well-formed entry.
pub proof fn lemma_encode_parse_round_trip(e: EntryModel)
    requires
        e.wf(),
        e.key.len() <= u64::MAX,
        value_or_empty(e).len() <= u64::MAX,
    ensures
        parse_at(spec_encode(e), 0) == (ParseResult::Rec {
            e,
            next: spec_encode(e).len() as int,
        }),
{
    assert(spec_encode(e).subrange(0, spec_encode(e).len() as int) =~= spec_encode(e));
    lemma_parse_encoded(spec_encode(e), 0, e);
}

/// Clean end vs corruption: an empty stream is a clean end, while a record
/// cut anywhere after its first byte parses as corrupt — never as a false
/// clean end, and never as a record.
pub proof fn lemma_truncation_detected(e: EntryModel, cut: int)
    requires
        e.wf(),
        e.key.len() <= u64::MAX,
        value_or_empty(e).len() <= u64::MAX,
        0 < cut < spec_encode(e).len(),
    ensures
        parse_at(spec_encode(e).subrange(0, cut), 0) is Corrupt,
{
    let enc = spec_encode(e);
    let t = enc.subrange(0, cut);
    let kl = e.key.len() as int;
    vstd::bytes::lemma_auto_spec_u64_to_from_le_bytes();
    vstd::bytes::lemma_auto_spec_u128_to_from_le_bytes();
    assert(e.key.len() as u64 as int == kl);
    assert(enc.subrange(0, t.len() as int) == t);
    if cut >= 9 {
        lemma_subrange_of_matching(enc, 0, t, 0, 8);
        assert(t.subrange(0, 8) == enc.subrange(0, 8));
        assert(enc.subrange(0, 8) =~= spec_u64_to_le_bytes(e.key.len() as u64));
        assert(t[8] == enc[8]);
        if e.deleted {
            assert(enc[8] == 1);
            assert(enc.len() == 9 + kl + 16);
        } else {
            let v = value_or_empty(e);
            let vl = v.len() as int;
            assert(v.len() as u64 as int == vl);
            assert(enc[8] == 0);
            assert(enc.len() == 17 + kl + vl + 16);
            if cut >= 17 {
                lemma_subrange_of_matching(enc, 0, t, 9, 17);
                assert(t.subrange(9, 17) == enc.subrange(9, 17));
                assert(enc.subrange(9, 17) =~= spec_u64_to_le_bytes(v.len() as u64));
            }
        }
    }
}

} // verus!
