//! The record codec: type, key and value with a CRC-32 trailer, and the
//! position triple that locates a record.

use vstd::prelude::*;
use vstd::slice::{slice_subrange, slice_to_vec};

use crate::errors::{Errors, Result};
use crate::varint::{decode_varint, encode_varint, encoded_len_varint, starts_with_varint, varint};

verus! {

/// What a record does to its key.
#[derive(Debug, PartialEq, Eq, Clone, Copy, Structural)]
pub enum LogRecordType {
    /// Sets the key to the record's value.
    Normal,
    /// Removes the key.
    Deleted,
    /// Marks the end of a committed transaction.
    TxnFinished,
}

/// The byte that stands for each record type on disk.
pub open spec fn type_byte(t: LogRecordType) -> u8 {
    match t {
        LogRecordType::Normal => 1,
        LogRecordType::Deleted => 2,
        LogRecordType::TxnFinished => 3,
    }
}

/// One entry of a segment: a type, a key and a value.
#[derive(Debug)]
pub struct LogRecord {
    pub key: Vec<u8>,
    pub value: Vec<u8>,
    pub rec_type: LogRecordType,
}

/// Where a record lies: its segment, its offset there and its encoded length.
#[derive(Clone, Copy, Debug, PartialEq, Eq, Structural)]
pub struct LogRecordPos {
    pub file_id: u32,
    pub offset: u64,
    pub size: u32,
}

/// A record read back from a segment, with the number of bytes it took.
#[derive(Debug)]
pub struct ReadLogRecord {
    pub record: LogRecord,
    pub size: usize,
}

/// A record of an unfinished transaction, held back until its commit marker.
#[derive(Debug)]
pub struct TransactionRecord {
    pub record: LogRecord,
    pub pos: LogRecordPos,
}

/// The largest key plus value that one record may carry, so that its encoded
/// length fits the 32-bit size of a position.
pub const MAX_KV_LEN: usize = 0xFFFF_0000;

/// The fewest bytes a record can take: type byte, two one-byte lengths, one
/// byte of key or value, and the checksum.
pub const MIN_RECORD_LEN: usize = 8;

/// The CRC-32 (IEEE) checksum of a byte string.
pub uninterp spec fn crc32_of(data: Seq<u8>) -> u32;

/// Relies on crc32fast::hash: the CRC-32 (IEEE) checksum of `data`.
#[verifier::external_body]
fn crc32(data: &[u8]) -> (r: u32)
    ensures
        r == crc32_of(data@),
{
    crc32fast::hash(data)
}

/// A 32-bit integer in four bytes, most significant first.
pub open spec fn be32(x: u32) -> Seq<u8> {
    seq![
        ((x >> 24u32) & 0xffu32) as u8,
        ((x >> 16u32) & 0xffu32) as u8,
        ((x >> 8u32) & 0xffu32) as u8,
        (x & 0xffu32) as u8,
    ]
}

/// Type byte, key length and value length, then the key and the value: the
/// part of a record that its checksum covers.
pub open spec fn record_body(tb: u8, key: Seq<u8>, value: Seq<u8>) -> Seq<u8> {
    seq![tb] + varint(key.len()) + varint(value.len()) + key + value
}

/// The encoding of a record: its body followed by the checksum of the body.
pub open spec fn record_bytes(t: LogRecordType, key: Seq<u8>, value: Seq<u8>) -> Seq<u8> {
    let body = record_body(type_byte(t), key, value);
    body + be32(crc32_of(body))
}

/// At `off`, `d` holds a record body for type byte `tb`, `key` and `value`,
/// followed by the four bytes `c` where its checksum belongs.
pub open spec fn framed_at(d: Seq<u8>, off: int, tb: u8, key: Seq<u8>, value: Seq<u8>, c: Seq<u8>) -> bool {
    let whole = record_body(tb, key, value) + c;
    &&& c.len() == 4
    &&& 0 <= off
    &&& off + whole.len() <= d.len()
    &&& d.subrange(off, off + whole.len()) == whole
}

/// A record header: type byte, then key and value lengths.
pub open spec fn header_bytes(tb: u8, kl: u64, vl: u64) -> Seq<u8> {
    seq![tb] + varint(kl as nat) + varint(vl as nat)
}

/// At `off`, `d` begins with the header for type byte `tb` and lengths `kl`
/// and `vl`.
pub open spec fn header_at(d: Seq<u8>, off: int, tb: u8, kl: u64, vl: u64) -> bool {
    let h = header_bytes(tb, kl, vl);
    &&& 0 <= off
    &&& off + h.len() <= d.len()
    &&& d.subrange(off, off + h.len()) == h
}

/// `s` is one whole record of type `t` whose stored checksum matches its body.
pub open spec fn sealed_record(s: Seq<u8>, t: LogRecordType, key: Seq<u8>, value: Seq<u8>) -> bool {
    let n = s.len() as int;
    &&& n >= 4 + 1 + key.len() + value.len()
    &&& s[0] == type_byte(t)
    &&& s.subrange(n - 4 - value.len(), n - 4) == value
    &&& s.subrange(n - 4 - value.len() - key.len(), n - 4 - value.len()) == key
    &&& s.subrange(n - 4, n) == be32(crc32_of(s.subrange(0, n - 4)))
}

impl LogRecordType {
    /// The record type of a type byte.
    pub fn from_u8(value: u8) -> (r: Self)
        requires
            1 <= value <= 3,
        ensures
            type_byte(r) == value,
    {
        match value {
            1 => LogRecordType::Normal,
            2 => LogRecordType::Deleted,
            _ => LogRecordType::TxnFinished,
        }
    }

    /// The record type of a type byte, if it names one.
    pub fn try_from_u8(value: u8) -> (r: Option<Self>)
        ensures
            r is Some <==> 1 <= value <= 3,
            r is Some ==> type_byte(r->Some_0) == value,
    {
        if 1 <= value && value <= 3 {
            Some(Self::from_u8(value))
        } else {
            None
        }
    }

    /// The type byte of this record type.
    pub fn to_u8(self) -> (r: u8)
        ensures
            r == type_byte(self),
    {
        match self {
            LogRecordType::Normal => 1,
            LogRecordType::Deleted => 2,
            LogRecordType::TxnFinished => 3,
        }
    }
}

fn push_be32(buf: &mut Vec<u8>, x: u32)
    ensures
        final(buf)@ == old(buf)@ + be32(x),
{
    buf.push(((x >> 24u32) & 0xffu32) as u8);
    buf.push(((x >> 16u32) & 0xffu32) as u8);
    buf.push(((x >> 8u32) & 0xffu32) as u8);
    buf.push((x & 0xffu32) as u8);
    assert(final(buf)@ =~= old(buf)@ + be32(x));
}

impl LogRecord {
    /// The encoding of this record.
    pub open spec fn spec_encode(&self) -> Seq<u8> {
        record_bytes(self.rec_type, self.key@, self.value@)
    }

    /// Encodes the record: type byte, key and value lengths as LEB128, key,
    /// value, and the big-endian CRC-32 of all of these.
    pub fn encode(&self) -> (r: Vec<u8>)
        requires
            self.key@.len() + self.value@.len() <= MAX_KV_LEN,
        ensures
            r@ == self.spec_encode(),
    {
        let (buf, _) = self.encode_and_get_crc();
        buf
    }

    /// The checksum that the encoding of this record carries.
    pub fn get_crc(&self) -> (r: u32)
        requires
            self.key@.len() + self.value@.len() <= MAX_KV_LEN,
        ensures
            r == crc32_of(record_body(type_byte(self.rec_type), self.key@, self.value@)),
    {
        let (_, crc) = self.encode_and_get_crc();
        crc
    }

    fn encode_and_get_crc(&self) -> (r: (Vec<u8>, u32))
        requires
            self.key@.len() + self.value@.len() <= MAX_KV_LEN,
        ensures
            r.0@ == self.spec_encode(),
            r.1 == crc32_of(record_body(type_byte(self.rec_type), self.key@, self.value@)),
    {
        let mut buf: Vec<u8> = Vec::with_capacity(self.encoded_length());
        buf.push(self.rec_type.to_u8());
        encode_varint(self.key.len() as u64, &mut buf);
        encode_varint(self.value.len() as u64, &mut buf);
        buf.extend_from_slice(self.key.as_slice());
        buf.extend_from_slice(self.value.as_slice());
        let body = Ghost(record_body(type_byte(self.rec_type), self.key@, self.value@));
        assert(buf@ =~= body@);
        let crc = crc32(buf.as_slice());
        push_be32(&mut buf, crc);
        (buf, crc)
    }

    /// The length of the encoding of this record.
    pub fn encoded_length(&self) -> (r: usize)
        requires
            self.key@.len() + self.value@.len() <= MAX_KV_LEN,
        ensures
            r == self.spec_encode().len(),
    {
        proof {
            crate::varint::lemma_varint_len(self.key@.len());
            crate::varint::lemma_varint_len(self.value@.len());
        }
        1 + encoded_len_varint(self.key.len() as u64) + encoded_len_varint(self.value.len() as u64)
            + self.key.len() + self.value.len() + 4
    }
}

/// Whether the four bytes of `d` at `at` are the big-endian form of `crc`.
fn crc_matches(d: &[u8], at: usize, crc: u32) -> (r: bool)
    requires
        at + 4 <= d@.len(),
    ensures
        r <==> d@.subrange(at as int, at + 4) == be32(crc),
{
    let r = d[at] == ((crc >> 24u32) & 0xffu32) as u8 && d[at + 1] == ((crc >> 16u32) & 0xffu32) as u8
        && d[at + 2] == ((crc >> 8u32) & 0xffu32) as u8 && d[at + 3] == (crc & 0xffu32) as u8;
    assert(r <==> d@.subrange(at as int, at + 4) =~= be32(crc));
    r
}

proof fn lemma_framed_skip(d: Seq<u8>, off: int, tb: u8, key: Seq<u8>, value: Seq<u8>, c: Seq<u8>)
    requires
        framed_at(d, off, tb, key, value, c),
    ensures
        framed_at(d.skip(off), 0, tb, key, value, c),
{
    let whole = record_body(tb, key, value) + c;
    assert(d.skip(off).subrange(0, whole.len() as int) =~= d.subrange(off, off + whole.len()));
}

/// The pieces of a framed record, located in `rest`.
proof fn lemma_framed_parts(rest: Seq<u8>, tb: u8, key: Seq<u8>, value: Seq<u8>, c: Seq<u8>)
    requires
        framed_at(rest, 0, tb, key, value, c),
    ensures
        ({
            let h = 1 + varint(key.len()).len() + varint(value.len()).len() as int;
            let n = h + key.len() + value.len() as int;
            &&& n == record_body(tb, key, value).len()
            &&& rest.subrange(0, n) == record_body(tb, key, value)
            &&& rest.subrange(n, n + 4) == c
            &&& rest.subrange(h, h + key.len()) == key
            &&& rest.subrange(h + key.len(), n) == value
        }),
{
    let whole = record_body(tb, key, value) + c;
    let h = 1 + varint(key.len()).len() + varint(value.len()).len() as int;
    let n = h + key.len() + value.len() as int;
    assert(rest.subrange(0, whole.len() as int) == whole);
    assert(rest.subrange(0, n) =~= whole.subrange(0, n));
    assert(whole.subrange(0, n) =~= record_body(tb, key, value));
    assert(rest.subrange(n, n + 4) =~= whole.subrange(n, n + 4));
    assert(rest.subrange(h, h + key.len()) =~= whole.subrange(h, h + key.len()));
    assert(rest.subrange(h + key.len(), n) =~= whole.subrange(h + key.len(), n));
}

/// Reads the type byte and the two lengths at the front of `rest`, and the
/// number of bytes they took.
fn decode_header(rest: &[u8]) -> (r: Option<(u8, u64, u64, usize)>)
    requires
        rest@.len() >= 1,
    ensures
        forall|tb: u8, key: Seq<u8>, value: Seq<u8>, c: Seq<u8>|
            #[trigger] framed_at(rest@, 0, tb, key, value, c) ==> r == Some(
                (
                    tb,
                    key.len() as u64,
                    value.len() as u64,
                    (1 + varint(key.len()).len() + varint(value.len()).len()) as usize,
                ),
            ),
        forall|tb: u8, kl: u64, vl: u64|
            #[trigger] header_at(rest@, 0, tb, kl, vl) ==> r == Some(
                (tb, kl, vl, header_bytes(tb, kl, vl).len() as usize),
            ),
        r is Some ==> {
            &&& r->Some_0.0 == rest@[0]
            &&& 3 <= r->Some_0.3 <= rest@.len()
        },
{
    let tb = rest[0];
    let after_type = slice_subrange(rest, 1, rest.len());
    proof {
        assert forall|tb0: u8, kl: u64, vl: u64|
            #[trigger] header_at(rest@, 0, tb0, kl, vl) implies {
                &&& tb == tb0
                &&& starts_with_varint(after_type@, kl)
                &&& starts_with_varint(after_type@.skip(varint(kl as nat).len() as int), vl)
            } by {
            let h = header_bytes(tb0, kl, vl);
            let vk = varint(kl as nat);
            let vv = varint(vl as nat);
            let a = vk.len() as int;
            let b = vv.len() as int;
            assert(h[0] == tb0);
            assert(rest@[0] == rest@.subrange(0, h.len() as int)[0]);
            assert(h.subrange(1, 1 + a) =~= vk);
            assert(h.subrange(1 + a, 1 + a + b) =~= vv);
            assert(rest@.subrange(1, 1 + a) =~= h.subrange(1, 1 + a));
            assert(rest@.subrange(1 + a, 1 + a + b) =~= h.subrange(1 + a, 1 + a + b));
            assert(after_type@.subrange(0, a) =~= rest@.subrange(1, 1 + a));
            assert(after_type@.skip(a).subrange(0, b) =~= rest@.subrange(1 + a, 1 + a + b));
        }
        assert forall|tb0: u8, key: Seq<u8>, value: Seq<u8>, c: Seq<u8>|
            #[trigger] framed_at(rest@, 0, tb0, key, value, c) implies {
                &&& tb == tb0
                &&& starts_with_varint(after_type@, key.len() as u64)
                &&& starts_with_varint(
                    after_type@.skip(varint(key.len()).len() as int),
                    value.len() as u64,
                )
            } by {
            let whole = record_body(tb0, key, value) + c;
            assert(rest@.subrange(0, whole.len() as int) == whole);
            assert(whole[0] == tb0);
            let vk = varint(key.len());
            let vv = varint(value.len());
            let a = vk.len() as int;
            let b = vv.len() as int;
            assert(whole.subrange(1, 1 + a) =~= vk);
            assert(whole.subrange(1 + a, 1 + a + b) =~= vv);
            assert(rest@.subrange(1, 1 + a) =~= whole.subrange(1, 1 + a));
            assert(rest@.subrange(1 + a, 1 + a + b) =~= whole.subrange(1 + a, 1 + a + b));
            assert(after_type@.subrange(0, a) =~= rest@.subrange(1, 1 + a));
            assert(after_type@.skip(a).subrange(0, b) =~= rest@.subrange(1 + a, 1 + a + b));
        }
    }
    let (klen, after_k) = match decode_varint(after_type) {
        Some(p) => p,
        None => {
            return None;
        },
    };
    let (vlen, after_v) = match decode_varint(after_k) {
        Some(p) => p,
        None => {
            return None;
        },
    };
    Some((tb, klen, vlen, rest.len() - after_v.len()))
}

/// What `decode_log_record` gives for `data` at `offset`.
pub open spec fn decodes_as(data: Seq<u8>, offset: u64, r: Result<ReadLogRecord>) -> bool {
    &&& (offset >= data.len() ==> r == Err::<ReadLogRecord, Errors>(Errors::ReadDataFileEOF))
    &&& (offset + MIN_RECORD_LEN > data.len() ==> r == Err::<ReadLogRecord, Errors>(
        Errors::ReadDataFileEOF,
    ))
    &&& (offset + 3 <= data.len() && data[offset + 1] == 0 && data[offset + 2] == 0 ==> r
        == Err::<ReadLogRecord, Errors>(Errors::ReadDataFileEOF))
    &&& forall|tb: u8, kl: u64, vl: u64|
        #[trigger] header_at(data, offset as int, tb, kl, vl) && (kl > 0 || vl > 0) && offset
            + header_bytes(tb, kl, vl).len() + kl + vl + 4 > data.len() ==> r == Err::<
            ReadLogRecord,
            Errors,
        >(Errors::ReadDataFileEOF)
    &&& forall|tb: u8, key: Seq<u8>, value: Seq<u8>, c: Seq<u8>|
        #[trigger] framed_at(data, offset as int, tb, key, value, c) && (key.len() > 0
            || value.len() > 0) ==> if c == be32(crc32_of(record_body(tb, key, value))) && 1
            <= tb <= 3 {
            &&& r is Ok
            &&& type_byte(r->Ok_0.record.rec_type) == tb
            &&& r->Ok_0.record.key@ == key
            &&& r->Ok_0.record.value@ == value
            &&& r->Ok_0.size == record_body(tb, key, value).len() + 4
        } else {
            r == Err::<ReadLogRecord, Errors>(Errors::InvalidLogRecordCrc)
        }
    &&& (r is Ok ==> {
        let rr = r->Ok_0;
        &&& offset + rr.size <= data.len()
        &&& sealed_record(
            data.subrange(offset as int, offset + rr.size),
            rr.record.rec_type,
            rr.record.key@,
            rr.record.value@,
        )
        &&& rr.record.key@.len() > 0 || rr.record.value@.len() > 0
    })
}

/// Reads the record that starts at `offset` in the segment bytes `data`.
///
/// Past the end, on fewer bytes than the shortest record, on a header whose
/// key and value lengths are both zero (zero padding), or on a record that
/// runs past the end, the result is
/// `ReadDataFileEOF`. A record whose lengths cannot be read, whose checksum
/// does not match or whose type byte is unknown is `InvalidLogRecordCrc`.
#[verifier::rlimit(30)]
pub fn decode_log_record(data: &[u8], offset: u64) -> (r: Result<ReadLogRecord>)
    ensures
        decodes_as(data@, offset, r),
{
    if offset >= data.len() as u64 {
        return Err(Errors::ReadDataFileEOF);
    }
    let rest = slice_subrange(data, offset as usize, data.len());
    if rest.len() < MIN_RECORD_LEN {
        proof {
            assert forall|tb0: u8, key: Seq<u8>, value: Seq<u8>, c: Seq<u8>|
                #[trigger] framed_at(data@, offset as int, tb0, key, value, c) && (key.len() > 0
                    || value.len() > 0) implies false by {
                let vk = varint(key.len());
                let vv = varint(value.len());
                crate::varint::lemma_varint_len(key.len());
                crate::varint::lemma_varint_len(value.len());
            }
        }
        return Err(Errors::ReadDataFileEOF);
    }
    let ghost d = data@;
    let ghost o = offset as int;
    proof {
        assert(rest@ == d.skip(o));
        assert forall|tb0: u8, key: Seq<u8>, value: Seq<u8>, c: Seq<u8>|
            #[trigger] framed_at(d, o, tb0, key, value, c) implies framed_at(rest@, 0, tb0, key, value, c) by {
            lemma_framed_skip(d, o, tb0, key, value, c);
        }
        assert forall|tb0: u8, kl: u64, vl: u64|
            #[trigger] header_at(d, o, tb0, kl, vl) implies header_at(rest@, 0, tb0, kl, vl) by {
            let h = header_bytes(tb0, kl, vl);
            assert(rest@.subrange(0, h.len() as int) =~= d.subrange(o, o + h.len()));
        }
        if d[o + 1] == 0 && d[o + 2] == 0 {
            assert(varint(0) =~= seq![0u8]);
            assert(rest@.subrange(0, 3) =~= header_bytes(rest@[0], 0, 0));
            assert(header_at(rest@, 0, rest@[0], 0, 0));
        }
    }
    let (tb, klen, vlen, header_len) = match decode_header(rest) {
        Some(h) => h,
        None => {
            return Err(Errors::InvalidLogRecordCrc);
        },
    };
    if klen == 0 && vlen == 0 {
        return Err(Errors::ReadDataFileEOF);
    }
    let avail: u64 = (rest.len() - header_len) as u64;
    if klen > avail || vlen > avail - klen || 4 > avail - klen - vlen {
        return Err(Errors::ReadDataFileEOF);
    }
    let kl = klen as usize;
    let vl = vlen as usize;
    let body_len: usize = header_len + kl + vl;
    let body = slice_subrange(rest, 0, body_len);
    let crc = crc32(body);
    let matches = crc_matches(rest, body_len, crc);
    let ty = LogRecordType::try_from_u8(tb);
    proof {
        assert forall|tb0: u8, key0: Seq<u8>, value0: Seq<u8>, c: Seq<u8>|
            #[trigger] framed_at(d, o, tb0, key0, value0, c) implies {
                &&& body@ == record_body(tb0, key0, value0)
                &&& (matches <==> c == be32(crc32_of(record_body(tb0, key0, value0))))
                &&& (ty is Some <==> 1 <= tb0 <= 3)
            } by {
            lemma_framed_parts(rest@, tb0, key0, value0, c);
        }
    }
    if !matches {
        return Err(Errors::InvalidLogRecordCrc);
    }
    let rec_type = match ty {
        Some(t) => t,
        None => {
            return Err(Errors::InvalidLogRecordCrc);
        },
    };
    let key = slice_to_vec(slice_subrange(rest, header_len, header_len + kl));
    let value = slice_to_vec(slice_subrange(rest, header_len + kl, body_len));
    let size: usize = body_len + 4;
    proof {
        let s = data@.subrange(offset as int, offset + size);
        assert(s =~= rest@.subrange(0, size as int));
        assert(s.subrange(0, s.len() - 4) =~= body@);
        assert(s.subrange(s.len() - 4, s.len() as int) =~= rest@.subrange(
            body_len as int,
            body_len + 4,
        ));
        assert(s.subrange(s.len() - 4 - value@.len(), s.len() - 4) =~= value@);
        assert(s.subrange(s.len() - 4 - value@.len() - key@.len(), s.len() - 4 - value@.len())
            =~= key@);
        assert forall|tb0: u8, key0: Seq<u8>, value0: Seq<u8>, c: Seq<u8>|
            #[trigger] framed_at(d, o, tb0, key0, value0, c) implies key@ == key0 && value@
            == value0 && size == record_body(tb0, key0, value0).len() + 4 by {
            lemma_framed_parts(rest@, tb0, key0, value0, c);
        }
    }
    Ok(ReadLogRecord { record: LogRecord { key, value, rec_type }, size })
}

/// The encoding of a position: file id, offset and size as three LEB128 integers.
pub open spec fn pos_bytes(p: LogRecordPos) -> Seq<u8> {
    varint(p.file_id as nat) + varint(p.offset as nat) + varint(p.size as nat)
}

impl LogRecordPos {
    /// Encodes the position as the value of a hint record.
    pub fn encode(&self) -> (r: Vec<u8>)
        ensures
            r@ == pos_bytes(*self),
    {
        let mut buf: Vec<u8> = Vec::new();
        encode_varint(self.file_id as u64, &mut buf);
        encode_varint(self.offset, &mut buf);
        encode_varint(self.size as u64, &mut buf);
        assert(buf@ =~= pos_bytes(*self));
        buf
    }
}

/// Reads back a position written by `LogRecordPos::encode`; `None` where the
/// bytes are not such an encoding.
pub fn decode_log_record_pos(pos: Vec<u8>) -> (r: Option<LogRecordPos>)
    ensures
        forall|p: LogRecordPos| #[trigger] pos_bytes(p) == pos@ ==> r == Some(p),
        r is Some ==> pos_bytes(r->Some_0) == pos@,
{
    let ghost b = pos@;
    let s0 = pos.as_slice();
    proof {
        assert forall|p: LogRecordPos| #[trigger] pos_bytes(p) == b implies {
            let a = varint(p.file_id as nat).len() as int;
            let o = varint(p.offset as nat).len() as int;
            &&& starts_with_varint(s0@, p.file_id as u64)
            &&& starts_with_varint(s0@.skip(a), p.offset)
            &&& starts_with_varint(s0@.skip(a).skip(o), p.size as u64)
        } by {
            let a = varint(p.file_id as nat).len() as int;
            let o = varint(p.offset as nat).len() as int;
            let z = varint(p.size as nat).len() as int;
            assert(s0@.subrange(0, a) =~= varint(p.file_id as nat));
            assert(s0@.skip(a).subrange(0, o) =~= varint(p.offset as nat));
            assert(s0@.skip(a).skip(o).subrange(0, z) =~= varint(p.size as nat));
        }
    }
    let (fid, s1) = match decode_varint(s0) {
        Some(x) => x,
        None => {
            return None;
        },
    };
    let (offset, s2) = match decode_varint(s1) {
        Some(x) => x,
        None => {
            return None;
        },
    };
    let (size, _) = match decode_varint(s2) {
        Some(x) => x,
        None => {
            return None;
        },
    };
    if fid > u32::MAX as u64 || size > u32::MAX as u64 {
        return None;
    }
    let p = LogRecordPos { file_id: fid as u32, offset, size: size as u32 };
    if crate::index::compare_keys(p.encode().as_slice(), pos.as_slice()) != 0 {
        return None;
    }
    Some(p)
}

} // verus!
