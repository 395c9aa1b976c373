//! The record codec: a record is a fixed 16-byte header of four big-endian
//! `u32` fields, followed by the key bytes and then the value bytes.

use vstd::prelude::*;

verus! {

/// Number of bytes in an encoded header: four big-endian `u32` fields.
pub const HEADER_SIZE: usize = 16;

/// Decoding failure: the input holds fewer bytes than the header, the key or
/// the value needs. Each variant carries the observed size, and for key and
/// value also the size the header declared.
#[derive(Debug, PartialEq, Eq)]
pub enum FormatError {
    /// Fewer than `HEADER_SIZE` bytes where a header was expected.
    Header(usize),
    /// Fewer key bytes than `key_size` declares: observed, then declared.
    Key(usize, usize),
    /// Fewer value bytes than `value_size` declares: observed, then declared.
    Value(usize, usize),
}

/// The fixed-size record header. The `crc` field is reserved for integrity
/// checking and is always written as 0.
#[derive(Clone, Copy, Debug, PartialEq, Eq, Structural)]
pub struct Header {
    pub crc: u32,
    pub timestamp: u32,
    pub key_size: u32,
    pub value_size: u32,
}

/// A record: header plus the raw key and value bytes.
#[derive(Clone, Debug, PartialEq)]
pub struct Record {
    pub header: Header,
    pub key: Vec<u8>,
    pub value: Vec<u8>,
}

/// The four big-endian bytes of `x`, most significant first.
pub open spec fn spec_u32_be(x: u32) -> Seq<u8> {
    seq![
        ((x >> 24) & 0xff) as u8,
        ((x >> 16) & 0xff) as u8,
        ((x >> 8) & 0xff) as u8,
        (x & 0xff) as u8,
    ]
}

/// The `u32` read from four big-endian bytes.
pub open spec fn spec_u32_from_be(b: Seq<u8>) -> u32
    recommends
        b.len() == 4,
{
    ((b[0] as u32) << 24) | ((b[1] as u32) << 16) | ((b[2] as u32) << 8) | (b[3] as u32)
}

/// The 16 bytes of an encoded header.
pub open spec fn spec_header_bytes(h: Header) -> Seq<u8> {
    spec_u32_be(h.crc) + spec_u32_be(h.timestamp) + spec_u32_be(h.key_size) + spec_u32_be(
        h.value_size,
    )
}

/// The header read from the first 16 bytes of `b`.
pub open spec fn spec_decode_header(b: Seq<u8>) -> Header
    recommends
        b.len() >= 16,
{
    Header {
        crc: spec_u32_from_be(b.subrange(0, 4)),
        timestamp: spec_u32_from_be(b.subrange(4, 8)),
        key_size: spec_u32_from_be(b.subrange(8, 12)),
        value_size: spec_u32_from_be(b.subrange(12, 16)),
    }
}

/// The bytes of a whole record: header, then key, then value.
pub open spec fn spec_record_bytes(h: Header, key: Seq<u8>, value: Seq<u8>) -> Seq<u8> {
    spec_header_bytes(h) + key + value
}

/// Whether `data` starts with a complete record: a full header and at least
/// as many key and value bytes as the header declares.
pub open spec fn spec_decode_ok(data: Seq<u8>) -> bool {
    &&& data.len() >= 16
    &&& {
        let h = spec_decode_header(data.subrange(0, 16));
        data.len() >= 16 + h.key_size + h.value_size
    }
}

/// The error `Record::decode` reports on input without a complete record.
pub open spec fn spec_decode_err(data: Seq<u8>) -> FormatError {
    if data.len() < 16 {
        FormatError::Header(data.len() as usize)
    } else {
        let h = spec_decode_header(data.subrange(0, 16));
        if data.len() - 16 < h.key_size {
            FormatError::Key((data.len() - 16) as usize, h.key_size as usize)
        } else {
            FormatError::Value((data.len() - 16 - h.key_size) as usize, h.value_size as usize)
        }
    }
}

proof fn lemma_u32_be_round_trip(x: u32)
    ensures
        spec_u32_from_be(spec_u32_be(x)) == x,
{
    assert((((((x >> 24) & 0xff) as u8) as u32) << 24) | (((((x >> 16) & 0xff) as u8) as u32)
        << 16) | (((((x >> 8) & 0xff) as u8) as u32) << 8) | (((x & 0xff) as u8) as u32) == x)
        by (bit_vector);
}

/// Round trip for headers: decoding the encoding of any header gives back
/// exactly that header.
pub proof fn lemma_header_round_trip(h: Header)
    ensures
        spec_decode_header(spec_header_bytes(h)) == h,
{
    let b = spec_header_bytes(h);
    assert(b.subrange(0, 4) =~= spec_u32_be(h.crc));
    assert(b.subrange(4, 8) =~= spec_u32_be(h.timestamp));
    assert(b.subrange(8, 12) =~= spec_u32_be(h.key_size));
    assert(b.subrange(12, 16) =~= spec_u32_be(h.value_size));
    lemma_u32_be_round_trip(h.crc);
    lemma_u32_be_round_trip(h.timestamp);
    lemma_u32_be_round_trip(h.key_size);
    lemma_u32_be_round_trip(h.value_size);
}

/// Round trip for records: the bytes of a record whose header sizes match
/// its key and value lengths decode back to exactly its parts.
pub proof fn lemma_record_round_trip(h: Header, key: Seq<u8>, value: Seq<u8>)
    requires
        h.key_size == key.len(),
        h.value_size == value.len(),
    ensures
        ({
            let data = spec_record_bytes(h, key, value);
            &&& spec_decode_ok(data)
            &&& spec_decode_header(data.subrange(0, 16)) == h
            &&& data.subrange(16, 16 + h.key_size as int) == key
            &&& data.subrange(
                16 + h.key_size as int,
                16 + h.key_size as int + h.value_size as int,
            ) == value
        }),
{
    let data = spec_record_bytes(h, key, value);
    assert(spec_header_bytes(h).len() == 16);
    assert(data.subrange(0, 16) =~= spec_header_bytes(h));
    lemma_header_round_trip(h);
    assert(data.subrange(16, 16 + h.key_size as int) =~= key);
    assert(data.subrange(16 + h.key_size as int, 16 + h.key_size as int + h.value_size as int)
        =~= value);
}

fn push_u32_be(v: &mut Vec<u8>, x: u32)
    ensures
        final(v)@ == old(v)@ + spec_u32_be(x),
{
    proof {
        assert((x >> 24) & 0xff < 256 && (x >> 16) & 0xff < 256 && (x >> 8) & 0xff < 256 && (x
            & 0xff) < 256) by (bit_vector);
    }
    v.push(((x >> 24) & 0xff) as u8);
    v.push(((x >> 16) & 0xff) as u8);
    v.push(((x >> 8) & 0xff) as u8);
    v.push((x & 0xff) as u8);
    assert(v@ =~= old(v)@ + spec_u32_be(x));
}

fn u32_from_be_bytes(b0: u8, b1: u8, b2: u8, b3: u8) -> (x: u32)
    ensures
        x == spec_u32_from_be(seq![b0, b1, b2, b3]),
{
    ((b0 as u32) << 24) | ((b1 as u32) << 16) | ((b2 as u32) << 8) | (b3 as u32)
}

/// Decode the header stored at byte offset `off` of `data`.
pub(crate) fn read_header(data: &Vec<u8>, off: usize) -> (h: Header)
    requires
        off + 16 <= data.len(),
    ensures
        h == spec_decode_header(data@.subrange(off as int, off as int + 16)),
{
    let h = Header {
        crc: u32_from_be_bytes(data[off], data[off + 1], data[off + 2], data[off + 3]),
        timestamp: u32_from_be_bytes(data[off + 4], data[off + 5], data[off + 6], data[off + 7]),
        key_size: u32_from_be_bytes(data[off + 8], data[off + 9], data[off + 10], data[off + 11]),
        value_size: u32_from_be_bytes(
            data[off + 12],
            data[off + 13],
            data[off + 14],
            data[off + 15],
        ),
    };
    proof {
        let b = data@.subrange(off as int, off as int + 16);
        assert(seq![data@[off as int], data@[off + 1], data@[off + 2], data@[off + 3]] =~= b
            .subrange(0, 4));
        assert(seq![data@[off + 4], data@[off + 5], data@[off + 6], data@[off + 7]] =~= b.subrange(
            4,
            8,
        ));
        assert(seq![data@[off + 8], data@[off + 9], data@[off + 10], data@[off + 11]] =~= b
            .subrange(8, 12));
        assert(seq![data@[off + 12], data@[off + 13], data@[off + 14], data@[off + 15]] =~= b
            .subrange(12, 16));
    }
    h
}

/// Copy `count` bytes of `v` starting at `start` into a fresh vector.
pub(crate) fn copy_range(v: &Vec<u8>, start: usize, count: usize) -> (r: Vec<u8>)
    requires
        start + count <= v.len(),
    ensures
        r@ == v@.subrange(start as int, start as int + count as int),
{
    let mut r: Vec<u8> = Vec::with_capacity(count);
    let mut i: usize = 0;
    while i < count
        invariant
            i <= count,
            start + count <= v.len(),
            r@ == v@.subrange(start as int, start as int + i as int),
        decreases count - i,
    {
        r.push(v[start + i]);
        proof {
            assert(r@ =~= v@.subrange(start as int, start as int + i as int + 1));
        }
        i = i + 1;
    }
    r
}

impl Header {
    /// Serialize: the four fields as big-endian bytes, `HEADER_SIZE` bytes in all.
    pub fn encode(self) -> (r: Vec<u8>)
        ensures
            r@ == spec_header_bytes(self),
    {
        let mut ret: Vec<u8> = Vec::with_capacity(HEADER_SIZE);
        push_u32_be(&mut ret, self.crc);
        push_u32_be(&mut ret, self.timestamp);
        push_u32_be(&mut ret, self.key_size);
        push_u32_be(&mut ret, self.value_size);
        assert(ret@ =~= spec_header_bytes(self));
        ret
    }

    /// Deserialize a header from exactly `HEADER_SIZE` bytes.
    pub fn decode(bytes: [u8; HEADER_SIZE]) -> (h: Header)
        ensures
            h == spec_decode_header(bytes@),
    {
        let h = Header {
            crc: u32_from_be_bytes(bytes[0], bytes[1], bytes[2], bytes[3]),
            timestamp: u32_from_be_bytes(bytes[4], bytes[5], bytes[6], bytes[7]),
            key_size: u32_from_be_bytes(bytes[8], bytes[9], bytes[10], bytes[11]),
            value_size: u32_from_be_bytes(bytes[12], bytes[13], bytes[14], bytes[15]),
        };
        proof {
            assert(seq![bytes@[0], bytes@[1], bytes@[2], bytes@[3]] =~= bytes@.subrange(0, 4));
            assert(seq![bytes@[4], bytes@[5], bytes@[6], bytes@[7]] =~= bytes@.subrange(4, 8));
            assert(seq![bytes@[8], bytes@[9], bytes@[10], bytes@[11]] =~= bytes@.subrange(8, 12));
            assert(seq![bytes@[12], bytes@[13], bytes@[14], bytes@[15]] =~= bytes@.subrange(
                12,
                16,
            ));
        }
        h
    }
}

impl Record {
    /// Build a record for `key` and `value`: the header takes its sizes from
    /// their lengths, the timestamp as given, and `crc` 0.
    pub fn new(timestamp: u32, key: Vec<u8>, value: Vec<u8>) -> (r: Record)
        requires
            key@.len() <= u32::MAX,
            value@.len() <= u32::MAX,
        ensures
            r.header == (Header {
                crc: 0,
                timestamp,
                key_size: key@.len() as u32,
                value_size: value@.len() as u32,
            }),
            r.key == key,
            r.value == value,
    {
        let key_size = key.len() as u32;
        let value_size = value.len() as u32;
        Record { header: Header { crc: 0, timestamp, key_size, value_size }, key, value }
    }

    /// Serialize: header bytes, then key bytes, then value bytes.
    pub fn encode(self) -> (r: Vec<u8>)
        ensures
            r@ == spec_record_bytes(self.header, self.key@, self.value@),
    {
        let Record { header, key, value } = self;
        let mut ret = header.encode();
        let mut k = key;
        let mut v = value;
        ret.append(&mut k);
        ret.append(&mut v);
        assert(ret@ =~= spec_record_bytes(self.header, self.key@, self.value@));
        ret
    }

    /// Decode one record from the front of `data`; bytes past the record are
    /// ignored. Total over arbitrary input: malformed input yields the
    /// matching `FormatError`, never a panic.
    pub fn decode(data: Vec<u8>) -> (r: Result<Record, FormatError>)
        ensures
            match r {
                Ok(rec) => {
                    &&& spec_decode_ok(data@)
                    &&& rec.header == spec_decode_header(data@.subrange(0, 16))
                    &&& rec.key@ == data@.subrange(16, 16 + rec.header.key_size as int)
                    &&& rec.value@ == data@.subrange(
                        16 + rec.header.key_size as int,
                        16 + rec.header.key_size as int + rec.header.value_size as int,
                    )
                },
                Err(e) => !spec_decode_ok(data@) && e == spec_decode_err(data@),
            },
    {
        if data.len() < HEADER_SIZE {
            return Err(FormatError::Header(data.len()));
        }
        let h = read_header(&data, 0);
        let ks = h.key_size as usize;
        let vs = h.value_size as usize;
        let avail = data.len() - HEADER_SIZE;
        if avail < ks {
            return Err(FormatError::Key(avail, ks));
        }
        let key = copy_range(&data, HEADER_SIZE, ks);
        if avail - ks < vs {
            return Err(FormatError::Value(avail - ks, vs));
        }
        let value = copy_range(&data, HEADER_SIZE + ks, vs);
        Ok(Record { header: h, key, value })
    }
}

} // verus!
