//! The records of a scratch file.
//!
//! A file starts with a 32-bit number, the count of its bytes that are in
//! use, the first one included, and four bytes that are not used. Records
//! follow up to the used length. A record is the length of its key as a 32-bit
//! number, the key in UTF-8, one to eight bytes of padding that bring the record
//! so far to a multiple of eight bytes, and two 64-bit numbers: the value and
//! the timestamp, each the bit pattern of a binary64 number.

use crate::error::{fails_with, Corruption, MergeError};
use crate::layout::{
    lemma_u32_round_trip, lemma_u64_round_trip, read_u32, read_u64, spec_u32, spec_u32_bytes,
    spec_u64, spec_u64_bytes, write_u32, write_u64, ByteOrder,
};
use vstd::prelude::*;
use vstd::slice::{slice_subrange, slice_to_vec};
use vstd::utf8::{
    decode_utf8, encode_utf8, encode_utf8_decode_utf8, encode_utf8_valid_utf8, valid_utf8,
};

verus! {

/// One record of a file: the key as it was written, not yet decoded, and the
/// bit patterns of the value and of the timestamp.
#[derive(Debug)]
pub struct Record {
    pub key: String,
    pub timestamp: u64,
    pub value: u64,
}

/// What a record holds.
pub struct RecordView {
    pub key: Seq<char>,
    pub timestamp: u64,
    pub value: u64,
}

impl View for Record {
    type V = RecordView;

    open spec fn view(&self) -> RecordView {
        RecordView { key: self.key@, timestamp: self.timestamp, value: self.value }
    }
}

/// What a list of records holds.
pub open spec fn records_view(values: Seq<Record>) -> Seq<RecordView> {
    values.map_values(|v: Record| v@)
}

/// The first byte of the first record.
pub const HEADER_LEN: usize = 8;

/// The byte that pads a key.
pub const PADDING_BYTE: u8 = 0x20;

/// The count of padding bytes behind a key of `key_len` bytes: what brings the
/// length prefix and the key to the next multiple of eight, and eight where
/// they already are one.
pub open spec fn padding_len(key_len: int) -> int {
    8 - (key_len + 4) % 8
}

/// The count of bytes of a record with a key of `key_len` bytes.
pub open spec fn record_len(key_len: int) -> int {
    4 + key_len + padding_len(key_len) + 16
}

/// The record that starts at `pos`, which is known to lie within the bytes.
pub open spec fn record_at(bytes: Seq<u8>, pos: int, order: ByteOrder) -> RecordView {
    let key_len = spec_u32(bytes.subrange(pos, pos + 4), order) as int;
    let at = pos + 4 + key_len + padding_len(key_len);
    RecordView {
        key: decode_utf8(bytes.subrange(pos + 4, pos + 4 + key_len)),
        value: spec_u64(bytes.subrange(at, at + 8), order),
        timestamp: spec_u64(bytes.subrange(at + 8, at + 16), order),
    }
}

/// The records from `pos` up to `used`, or what is wrong with the first record
/// that is not sound.
pub open spec fn spec_decode_from(bytes: Seq<u8>, pos: int, used: int, order: ByteOrder) -> Result<
    Seq<RecordView>,
    Corruption,
>
    decreases used - pos,
{
    if pos >= used || pos < 0 {
        Ok(Seq::empty())
    } else if pos + 4 > used {
        Err(Corruption::TruncatedRecord)
    } else {
        let key_len = spec_u32(bytes.subrange(pos, pos + 4), order) as int;
        if pos + record_len(key_len) > used {
            Err(Corruption::TruncatedRecord)
        } else if !valid_utf8(bytes.subrange(pos + 4, pos + 4 + key_len)) {
            Err(Corruption::InvalidUtf8)
        } else {
            match spec_decode_from(bytes, pos + record_len(key_len), used, order) {
                Ok(rest) => Ok(seq![record_at(bytes, pos, order)] + rest),
                Err(c) => Err(c),
            }
        }
    }
}

/// The records of a file of which `used` bytes are in use.
pub open spec fn spec_decode(bytes: Seq<u8>, used: int, order: ByteOrder) -> Result<
    Seq<RecordView>,
    Corruption,
> {
    if used > bytes.len() {
        Err(Corruption::TruncatedFile)
    } else {
        spec_decode_from(bytes, 8, used, order)
    }
}

/// The bytes of one record.
pub open spec fn spec_encode_record(r: RecordView, order: ByteOrder) -> Seq<u8> {
    let key = encode_utf8(r.key);
    spec_u32_bytes(key.len() as u32, order) + key + Seq::new(
        padding_len(key.len() as int) as nat,
        |i: int| PADDING_BYTE,
    ) + spec_u64_bytes(r.value, order) + spec_u64_bytes(r.timestamp, order)
}

/// The bytes of a run of records.
pub open spec fn spec_encode_records(rs: Seq<RecordView>, order: ByteOrder) -> Seq<u8>
    decreases rs.len(),
{
    if rs.len() == 0 {
        Seq::empty()
    } else {
        spec_encode_record(rs[0], order) + spec_encode_records(rs.drop_first(), order)
    }
}

/// The file that holds the records: all of it is in use.
pub open spec fn spec_encode(rs: Seq<RecordView>, order: ByteOrder) -> Seq<u8> {
    let body = spec_encode_records(rs, order);
    spec_u32_bytes((8 + body.len()) as u32, order) + seq![0u8, 0u8, 0u8, 0u8] + body
}

/// Whether the lengths that a file of these records holds fit in 32 bits.
pub open spec fn encodable(rs: Seq<RecordView>, order: ByteOrder) -> bool {
    &&& forall|i: int| 0 <= i < rs.len() ==> (#[trigger] encode_utf8(rs[i].key)).len() <= u32::MAX
    &&& 8 + spec_encode_records(rs, order).len() <= u32::MAX
}

/// Whether `r` is the outcome `expected`, with a corruption as the error.
pub open spec fn decoded_as(
    r: Result<Vec<Record>, MergeError>,
    expected: Result<Seq<RecordView>, Corruption>,
) -> bool {
    match (r, expected) {
        (Ok(values), Ok(views)) => records_view(values@) == views,
        (Err(e), Err(c)) => e == MergeError::DataCorruption(c),
        _ => false,
    }
}

/// `String::from_utf8` of std: the string that the bytes are the UTF-8 form
/// of, and none where they are not UTF-8.
#[verifier::external_body]
fn string_from_utf8(bytes: Vec<u8>) -> (r: Option<String>)
    ensures
        r is Some <==> valid_utf8(bytes@),
        r matches Some(s) ==> s@ == decode_utf8(bytes@),
{
    match String::from_utf8(bytes) {
        Ok(s) => Some(s),
        Err(_) => None,
    }
}

/// Decodes the records of a file of which `used` bytes are in use.
///
/// A file with no used bytes has no records. A file that is shorter than its
/// used length, a record that runs past the used length and a key that is not
/// UTF-8 are reported, each as the kind of corruption it is.
pub fn decode_records(data: &Vec<u8>, used: usize, order: ByteOrder) -> (r: Result<
    Vec<Record>,
    MergeError,
>)
    ensures
        decoded_as(r, spec_decode(data@, used as int, order)),
        used == 0 ==> r is Ok && r->Ok_0.len() == 0,
        used > data.len() ==> fails_with(r, Corruption::TruncatedFile),
{
    if used > data.len() {
        return Err(MergeError::DataCorruption(Corruption::TruncatedFile));
    }
    let mut result: Vec<Record> = Vec::new();
    let mut pos: usize = HEADER_LEN;
    while pos < used
        invariant
            8 <= pos,
            used <= data.len(),
            match spec_decode_from(data@, pos as int, used as int, order) {
                Ok(rest) => spec_decode_from(data@, 8, used as int, order) == Ok::<
                    Seq<RecordView>,
                    Corruption,
                >(records_view(result@) + rest),
                Err(c) => spec_decode_from(data@, 8, used as int, order) == Err::<
                    Seq<RecordView>,
                    Corruption,
                >(c),
            },
        decreases used - pos,
    {
        if used - pos < 4 {
            return Err(MergeError::DataCorruption(Corruption::TruncatedRecord));
        }
        let key_len: usize = read_u32(data, pos, order) as usize;
        let avail: usize = used - pos - 4;
        if key_len > avail {
            return Err(MergeError::DataCorruption(Corruption::TruncatedRecord));
        }
        let pad: usize = 8 - (key_len + 4) % 8;
        if avail - key_len < pad + 16 {
            return Err(MergeError::DataCorruption(Corruption::TruncatedRecord));
        }
        let key_bytes = slice_to_vec(slice_subrange(data.as_slice(), pos + 4, pos + 4 + key_len));
        let at: usize = pos + 4 + key_len + pad;
        let value = read_u64(data, at, order);
        let timestamp = read_u64(data, at + 8, order);
        let key = match string_from_utf8(key_bytes) {
            Some(key) => key,
            None => {
                return Err(MergeError::DataCorruption(Corruption::InvalidUtf8));
            },
        };
        let ghost before = records_view(result@);
        result.push(Record { key, timestamp, value });
        proof {
            let record = record_at(data@, pos as int, order);
            assert(records_view(result@) =~= before + seq![record]);
            match spec_decode_from(data@, pos + record_len(key_len as int), used as int, order) {
                Ok(rest) => {
                    assert(before + (seq![record] + rest) =~= records_view(result@) + rest);
                },
                Err(_) => {},
            }
        }
        pos = at + 16;
    }
    assert(records_view(result@) + Seq::<RecordView>::empty() =~= records_view(result@));
    Ok(result)
}

/// Decodes the records of a file written on this machine.
///
/// The numbers of the file lie in the byte order of the machine, so the
/// outcome is that of [`decode_records`] for one of the two orders.
pub fn read_all_values(data: Vec<u8>, used: usize) -> (r: Result<Vec<Record>, MergeError>)
    ensures
        decoded_as(r, spec_decode(data@, used as int, ByteOrder::Little)) || decoded_as(
            r,
            spec_decode(data@, used as int, ByteOrder::Big),
        ),
        used == 0 ==> r is Ok && r->Ok_0.len() == 0,
        used > data.len() ==> fails_with(r, Corruption::TruncatedFile),
{
    decode_records(&data, used, ByteOrder::native())
}

/// Appends the bytes of a slice.
fn append_bytes(out: &mut Vec<u8>, bytes: &[u8])
    ensures
        final(out)@ == old(out)@ + bytes@,
{
    let mut i: usize = 0;
    while i < bytes.len()
        invariant
            i <= bytes.len(),
            out@ == old(out)@ + bytes@.take(i as int),
        decreases bytes.len() - i,
    {
        out.push(bytes[i]);
        assert(bytes@.take(i + 1) =~= bytes@.take(i as int).push(bytes@[i as int]));
        i += 1;
    }
    assert(bytes@.take(i as int) =~= bytes@);
}

/// Appends `count` padding bytes.
fn append_padding(out: &mut Vec<u8>, count: usize)
    ensures
        final(out)@ == old(out)@ + Seq::new(count as nat, |i: int| PADDING_BYTE),
{
    let mut i: usize = 0;
    while i < count
        invariant
            i <= count,
            out@ == old(out)@ + Seq::new(i as nat, |i: int| PADDING_BYTE),
        decreases count - i,
    {
        out.push(PADDING_BYTE);
        i += 1;
        assert(out@ =~= old(out)@ + Seq::new(i as nat, |i: int| PADDING_BYTE));
    }
}

/// The bytes of two runs of records, one behind the other, are those of the
/// joined run.
pub proof fn lemma_encode_records_concat(a: Seq<RecordView>, b: Seq<RecordView>, order: ByteOrder)
    ensures
        spec_encode_records(a + b, order) == spec_encode_records(a, order) + spec_encode_records(
            b,
            order,
        ),
    decreases a.len(),
{
    if a.len() == 0 {
        assert(a + b =~= b);
        assert(spec_encode_records(a, order) + spec_encode_records(b, order)
            =~= spec_encode_records(b, order));
    } else {
        assert((a + b).drop_first() =~= a.drop_first() + b);
        lemma_encode_records_concat(a.drop_first(), b, order);
        assert(spec_encode_record(a[0], order) + (spec_encode_records(a.drop_first(), order)
            + spec_encode_records(b, order)) =~= (spec_encode_record(a[0], order)
            + spec_encode_records(a.drop_first(), order)) + spec_encode_records(b, order));
    }
}

/// The count of bytes of a record.
proof fn lemma_record_len(r: RecordView, order: ByteOrder)
    ensures
        spec_encode_record(r, order).len() == record_len(encode_utf8(r.key).len() as int),
{
    lemma_u32_round_trip(encode_utf8(r.key).len() as u32, order);
    lemma_u64_round_trip(r.value, order);
    lemma_u64_round_trip(r.timestamp, order);
}

/// The bytes of the first `i + 1` records are those of the first `i` and of
/// record `i`, and the bytes of all records are no fewer.
proof fn lemma_encode_records_step(rs: Seq<RecordView>, i: int, order: ByteOrder)
    requires
        0 <= i < rs.len(),
    ensures
        spec_encode_records(rs.take(i + 1), order) == spec_encode_records(rs.take(i), order)
            + spec_encode_record(rs[i], order),
        spec_encode_records(rs.take(i + 1), order).len() <= spec_encode_records(rs, order).len(),
{
    assert(rs.take(i + 1) =~= rs.take(i) + seq![rs[i]]);
    assert(rs =~= rs.take(i + 1) + rs.skip(i + 1));
    lemma_encode_records_concat(rs.take(i), seq![rs[i]], order);
    lemma_encode_records_concat(rs.take(i + 1), rs.skip(i + 1), order);
    assert(seq![rs[i]].drop_first() =~= Seq::<RecordView>::empty());
    assert(spec_encode_records(seq![rs[i]].drop_first(), order) =~= Seq::<u8>::empty());
    assert(spec_encode_records(seq![rs[i]], order) =~= spec_encode_record(rs[i], order));
}

/// Appends the bytes of one record, whose key is no longer than a 32-bit
/// number can say.
fn encode_record(out: &mut Vec<u8>, value: &Record, order: ByteOrder)
    requires
        encode_utf8(value@.key).len() <= u32::MAX,
    ensures
        final(out)@ == old(out)@ + spec_encode_record(value@, order),
{
    let key = value.key.as_str().as_bytes();
    let key_len: u32 = key.len() as u32;
    let pad: u32 = 8 - (key_len % 8 + 4) % 8;
    assert(pad == padding_len(key_len as int));
    proof {
        lemma_u32_round_trip(key_len, order);
        lemma_u64_round_trip(value.value, order);
        lemma_u64_round_trip(value.timestamp, order);
    }
    write_u32(out, key_len, order);
    append_bytes(out, key);
    append_padding(out, pad as usize);
    write_u64(out, value.value, order);
    write_u64(out, value.timestamp, order);
    assert(out@ =~= old(out)@ + spec_encode_record(value@, order));
}

/// Writes the file that holds the records, in the layout that
/// [`decode_records`] reads: all of the file is in use, the four bytes behind
/// the used length are zero, and the padding is made of spaces.
///
/// There is no such file where a key is longer, or the file would be longer,
/// than a 32-bit number can say.
pub fn encode_records(values: &Vec<Record>, order: ByteOrder) -> (r: Option<Vec<u8>>)
    ensures
        r is Some <==> encodable(records_view(values@), order),
        r matches Some(bytes) ==> bytes@ == spec_encode(records_view(values@), order),
{
    let ghost views = records_view(values@);
    let mut body: Vec<u8> = Vec::new();
    let mut i: usize = 0;
    while i < values.len()
        invariant
            i <= values.len(),
            views == records_view(values@),
            body@ == spec_encode_records(views.take(i as int), order),
            8 + body.len() <= u32::MAX,
            forall|j: int| 0 <= j < i ==> (#[trigger] encode_utf8(views[j].key)).len() <= u32::MAX,
        decreases values.len() - i,
    {
        let key_len: usize = values[i].key.as_str().as_bytes().len();
        proof {
            lemma_encode_records_step(views, i as int, order);
            assert(views[i as int] == values@[i as int]@);
            assert(key_len == encode_utf8(views[i as int].key).len());
            lemma_record_len(views[i as int], order);
            assert(spec_encode_record(views[i as int], order).len() == record_len(
                key_len as int,
            ));
        }
        if key_len > 0xffff_ffff {
            return None;
        }
        let pad: u64 = 8 - (key_len as u64 + 4) % 8;
        let total: u64 = body.len() as u64 + 8 + 4 + key_len as u64 + pad + 16;
        if total > 0xffff_ffff {
            return None;
        }
        encode_record(&mut body, &values[i], order);
        i += 1;
    }
    assert(views.take(i as int) =~= views);
    let mut out: Vec<u8> = Vec::new();
    write_u32(&mut out, (body.len() + 8) as u32, order);
    out.push(0);
    out.push(0);
    out.push(0);
    out.push(0);
    out.append(&mut body);
    assert(out@ =~= spec_encode(views, order));
    Some(out)
}

/// Decoding the bytes of a run of records that stands behind `head`, from the
/// end of `head`, gives back the records.
proof fn lemma_decode_encoded_records(head: Seq<u8>, rs: Seq<RecordView>, order: ByteOrder)
    requires
        forall|i: int| 0 <= i < rs.len() ==> (#[trigger] encode_utf8(rs[i].key)).len() <= u32::MAX,
    ensures
        spec_decode_from(
            head + spec_encode_records(rs, order),
            head.len() as int,
            (head + spec_encode_records(rs, order)).len() as int,
            order,
        ) == Ok::<Seq<RecordView>, Corruption>(rs),
    decreases rs.len(),
{
    let bytes = head + spec_encode_records(rs, order);
    let pos = head.len() as int;
    let used = bytes.len() as int;
    if rs.len() == 0 {
        assert(rs =~= Seq::<RecordView>::empty());
    } else {
        let r = rs[0];
        let rest = rs.drop_first();
        let key = encode_utf8(r.key);
        let key_len = key.len() as int;
        let pad = Seq::new(padding_len(key_len) as nat, |i: int| PADDING_BYTE);
        let rec = spec_encode_record(r, order);
        lemma_u32_round_trip(key.len() as u32, order);
        lemma_u64_round_trip(r.value, order);
        lemma_u64_round_trip(r.timestamp, order);
        encode_utf8_valid_utf8(r.key);
        encode_utf8_decode_utf8(r.key);
        lemma_record_len(r, order);
        assert(rec.len() == record_len(key_len));
        assert(bytes.subrange(pos, pos + 4) =~= spec_u32_bytes(key.len() as u32, order));
        assert(bytes.subrange(pos + 4, pos + 4 + key_len) =~= key);
        let at = pos + 4 + key_len + padding_len(key_len);
        assert(bytes.subrange(at, at + 8) =~= spec_u64_bytes(r.value, order));
        assert(bytes.subrange(at + 8, at + 16) =~= spec_u64_bytes(r.timestamp, order));
        assert(record_at(bytes, pos, order) == r);
        assert(bytes =~= (head + rec) + spec_encode_records(rest, order));
        lemma_decode_encoded_records(head + rec, rest, order);
        assert(seq![r] + rest =~= rs);
    }
}

/// Decoding inverts encoding: the file that holds some records declares all
/// of its bytes as used and decodes to those records.
pub proof fn lemma_decode_inverts_encode(rs: Seq<RecordView>, order: ByteOrder)
    requires
        encodable(rs, order),
    ensures
        spec_u32(spec_encode(rs, order).subrange(0, 4), order) == spec_encode(rs, order).len(),
        spec_decode(spec_encode(rs, order), spec_encode(rs, order).len() as int, order) == Ok::<
            Seq<RecordView>,
            Corruption,
        >(rs),
{
    let body = spec_encode_records(rs, order);
    let head = spec_u32_bytes((8 + body.len()) as u32, order) + seq![0u8, 0u8, 0u8, 0u8];
    lemma_u32_round_trip((8 + body.len()) as u32, order);
    assert(spec_encode(rs, order) =~= head + body);
    assert(spec_encode(rs, order).subrange(0, 4) =~= spec_u32_bytes(
        (8 + body.len()) as u32,
        order,
    ));
    lemma_decode_encoded_records(head, rs, order);
}

/// Decoding a file that was written from some records and encoding what was
/// decoded reproduces the file byte for byte.
pub proof fn lemma_reencoding_reproduces_file(
    bytes: Seq<u8>,
    rs: Seq<RecordView>,
    order: ByteOrder,
)
    requires
        encodable(rs, order),
        bytes == spec_encode(rs, order),
    ensures
        spec_decode(bytes, bytes.len() as int, order) is Ok,
        spec_encode(spec_decode(bytes, bytes.len() as int, order)->Ok_0, order) == bytes,
{
    lemma_decode_inverts_encode(rs, order);
}

} // verus!
