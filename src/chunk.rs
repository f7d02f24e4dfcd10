use crate::chunk_type::ChunkType;
use vstd::prelude::*;
use vstd::utf8::{decode_utf8, encode_utf8, valid_utf8};

verus! {

/// The CRC-32 (ISO-HDLC) checksum of a byte sequence.
pub uninterp spec fn crc32_of(b: Seq<u8>) -> u32;

/// Relies on `crc32fast::hash`: the CRC-32 checksum of the bytes, which depends
/// on the bytes alone.
#[verifier::external_body]
fn crc32(bytes: &[u8]) -> (r: u32)
    ensures
        r == crc32_of(bytes@),
{
    crc32fast::hash(bytes)
}

/// The four big-endian bytes of a `u32`.
pub open spec fn u32_be_bytes(x: u32) -> Seq<u8> {
    seq![(x >> 24u32) as u8, (x >> 16u32) as u8, (x >> 8u32) as u8, x as u8]
}

/// The `u32` whose big-endian bytes are the first four of `b`.
pub open spec fn u32_from_be(b: Seq<u8>) -> u32 {
    ((b[0] as u32) << 24u32) | ((b[1] as u32) << 16u32) | ((b[2] as u32) << 8u32) | (b[3] as u32)
}

pub proof fn lemma_be_round_trip(x: u32)
    ensures
        u32_from_be(u32_be_bytes(x)) == x,
{
    let b = u32_be_bytes(x);
    assert(((((x >> 24u32) as u8) as u32) << 24u32) | ((((x >> 16u32) as u8) as u32) << 16u32)
        | ((((x >> 8u32) as u8) as u32) << 8u32) | ((x as u8) as u32) == x) by (bit_vector);
}

pub proof fn lemma_be_bytes_round_trip(b: Seq<u8>)
    requires
        b.len() == 4,
    ensures
        u32_be_bytes(u32_from_be(b)) == b,
{
    let (b0, b1, b2, b3) = (b[0], b[1], b[2], b[3]);
    let x = ((b0 as u32) << 24u32) | ((b1 as u32) << 16u32) | ((b2 as u32) << 8u32) | (b3 as u32);
    assert((x >> 24u32) as u8 == b0 && (x >> 16u32) as u8 == b1 && (x >> 8u32) as u8 == b2
        && x as u8 == b3) by (bit_vector)
        requires
            x == ((b0 as u32) << 24u32) | ((b1 as u32) << 16u32) | ((b2 as u32) << 8u32) | (
            b3 as u32),
    ;
    assert(u32_be_bytes(u32_from_be(b)) =~= b);
}

/// The wire form of a record: length, type, data, checksum.
pub open spec fn record_bytes(length: u32, chunk_type: Seq<u8>, data: Seq<u8>, crc: u32) -> Seq<
    u8,
> {
    u32_be_bytes(length) + chunk_type + data + u32_be_bytes(crc)
}

/// The record that carries `data` under the type `chunk_type`, with its length and checksum.
pub open spec fn new_record(chunk_type: Seq<u8>, data: Seq<u8>) -> Seq<u8> {
    record_bytes(data.len() as u32, chunk_type, data, crc32_of(chunk_type + data))
}

/// The length field of a record's bytes.
pub open spec fn field_length(b: Seq<u8>) -> u32 {
    u32_from_be(b.subrange(0, 4))
}

/// The type field of a record's bytes.
pub open spec fn field_type(b: Seq<u8>) -> Seq<u8> {
    b.subrange(4, 8)
}

/// What lies between the type field and the trailing checksum.
pub open spec fn field_data(b: Seq<u8>) -> Seq<u8> {
    b.subrange(8, b.len() - 4)
}

/// The trailing checksum field of a record's bytes.
pub open spec fn field_crc(b: Seq<u8>) -> u32 {
    u32_from_be(b.subrange(b.len() - 4, b.len() as int))
}

/// The trailing checksum equals the CRC-32 of the type and data.
pub open spec fn crc_matches(b: Seq<u8>) -> bool {
    field_crc(b) == crc32_of(b.subrange(4, b.len() - 4))
}

/// A record built from a type and data reads back as that type and data, with
/// the length and checksum it was built with.
pub proof fn lemma_record_round_trip(chunk_type: Seq<u8>, data: Seq<u8>)
    requires
        chunk_type.len() == 4,
        data.len() <= u32::MAX,
    ensures
        new_record(chunk_type, data).len() >= 12,
        crc_matches(new_record(chunk_type, data)),
        field_length(new_record(chunk_type, data)) == data.len(),
        field_type(new_record(chunk_type, data)) == chunk_type,
        field_data(new_record(chunk_type, data)) == data,
        field_crc(new_record(chunk_type, data)) == crc32_of(chunk_type + data),
{
    let b = new_record(chunk_type, data);
    let n = b.len();
    let crc = crc32_of(chunk_type + data);
    assert(b.subrange(0, 4) =~= u32_be_bytes(data.len() as u32));
    assert(b.subrange(4, 8) =~= chunk_type);
    assert(b.subrange(8, n - 4) =~= data);
    assert(b.subrange(4, n - 4) =~= chunk_type + data);
    assert(b.subrange(n - 4, n as int) =~= u32_be_bytes(crc));
    lemma_be_round_trip(data.len() as u32);
    lemma_be_round_trip(crc);
}

/// Where the fields of a record's bytes lie.
pub proof fn lemma_record_fields(length: u32, chunk_type: Seq<u8>, data: Seq<u8>, crc: u32)
    requires
        chunk_type.len() == 4,
    ensures
        field_type(record_bytes(length, chunk_type, data, crc)) == chunk_type,
        field_data(record_bytes(length, chunk_type, data, crc)) == data,
        field_length(record_bytes(length, chunk_type, data, crc)) == length,
        record_bytes(length, chunk_type, data, crc).len() == data.len() + 12,
{
    let b = record_bytes(length, chunk_type, data, crc);
    assert(b.subrange(4, 8) =~= chunk_type);
    assert(b.subrange(8, b.len() - 4) =~= data);
    assert(b.subrange(0, 4) =~= u32_be_bytes(length));
    lemma_be_round_trip(length);
}

/// The bytes of `b` with bit `k` of the trailing checksum flipped.
pub open spec fn flip_crc_bit(b: Seq<u8>, k: u32) -> Seq<u8> {
    b.subrange(0, b.len() - 4) + u32_be_bytes(field_crc(b) ^ (1u32 << k))
}

/// Flipping any one bit of the checksum of a record whose checksum matches
/// makes the checksum mismatch.
pub proof fn lemma_crc_bit_flip(b: Seq<u8>, k: u32)
    requires
        b.len() >= 12,
        crc_matches(b),
        k < 32,
    ensures
        flip_crc_bit(b, k).len() == b.len(),
        !crc_matches(flip_crc_bit(b, k)),
{
    let f = flip_crc_bit(b, k);
    let n = b.len();
    let old_crc = field_crc(b);
    let new_crc = old_crc ^ (1u32 << k);
    assert(new_crc != old_crc) by (bit_vector)
        requires
            new_crc == old_crc ^ (1u32 << k),
            k < 32,
    ;
    assert(f.subrange(4, n - 4) =~= b.subrange(4, n - 4));
    assert(f.subrange(n - 4, n as int) =~= u32_be_bytes(new_crc));
    lemma_be_round_trip(new_crc);
}

#[derive(Debug, Clone, Copy, PartialEq, Eq)]
pub enum ChunkError {
    /// Fewer than the twelve bytes of length, type and checksum.
    TooShort,
    /// The stored checksum differs from the one computed over type and data.
    CrcMismatch,
    /// The data is not valid UTF-8.
    UTF8ConversionError,
}

/// One record of a PNG file: a length, a type, the data, and a CRC-32 of type and data.
#[derive(Debug)]
pub struct Chunk {
    length: u32,
    chunk_type: ChunkType,
    data: Vec<u8>,
    crc: u32,
}

/// Appends `src[start..end]` to `out`.
pub(crate) fn push_range(out: &mut Vec<u8>, src: &[u8], start: usize, end: usize)
    requires
        start <= end <= src@.len(),
    ensures
        final(out)@ == old(out)@ + src@.subrange(start as int, end as int),
{
    let ghost init = out@;
    let mut i: usize = start;
    while i < end
        invariant
            start <= i <= end <= src@.len(),
            out@ == init + src@.subrange(start as int, i as int),
        decreases end - i,
    {
        out.push(src[i]);
        i += 1;
        assert(out@ =~= init + src@.subrange(start as int, i as int));
    }
}

/// Appends the big-endian bytes of `x` to `out`.
fn push_u32_be(out: &mut Vec<u8>, x: u32)
    ensures
        final(out)@ == old(out)@ + u32_be_bytes(x),
{
    let ghost init = out@;
    out.push((x >> 24u32) as u8);
    out.push((x >> 16u32) as u8);
    out.push((x >> 8u32) as u8);
    out.push(x as u8);
    assert(out@ =~= init + u32_be_bytes(x));
}

pub(crate) fn read_u32_be(b: &[u8], at: usize) -> (r: u32)
    requires
        at + 4 <= b@.len(),
    ensures
        r == u32_from_be(b@.subrange(at as int, at + 4)),
{
    ((b[at] as u32) << 24u32) | ((b[at + 1] as u32) << 16u32) | ((b[at + 2] as u32) << 8u32) | (b[at
        + 3] as u32)
}

impl Chunk {
    pub closed spec fn spec_length(&self) -> u32 {
        self.length
    }

    pub closed spec fn spec_chunk_type(&self) -> ChunkType {
        self.chunk_type
    }

    pub closed spec fn spec_data(&self) -> Seq<u8> {
        self.data@
    }

    pub closed spec fn spec_crc(&self) -> u32 {
        self.crc
    }

    /// The bytes that `as_bytes` writes.
    pub open spec fn spec_bytes(&self) -> Seq<u8> {
        record_bytes(self.spec_length(), self.spec_chunk_type().bytes@, self.spec_data(), self.spec_crc())
    }

    /// A record made from a type and data: in `new`, or by `parse` within a container.
    pub open spec fn wf(&self) -> bool {
        &&& self.spec_length() == self.spec_data().len()
        &&& self.spec_crc() == crc32_of(self.spec_chunk_type().bytes@ + self.spec_data())
    }

    pub fn new(chunk_type: ChunkType, data: Vec<u8>) -> (r: Chunk)
        requires
            data@.len() <= u32::MAX,
        ensures
            r.spec_length() == data@.len(),
            r.spec_chunk_type() == chunk_type,
            r.spec_data() == data@,
            r.spec_crc() == crc32_of(chunk_type.bytes@ + data@),
            r.wf(),
            r.spec_bytes() == new_record(chunk_type.bytes@, data@),
    {
        let mut covered: Vec<u8> = Vec::new();
        push_range(&mut covered, &chunk_type.bytes, 0, 4);
        push_range(&mut covered, data.as_slice(), 0, data.len());
        assert(covered@ =~= chunk_type.bytes@ + data@);
        let crc = crc32(covered.as_slice());
        Chunk { length: data.len() as u32, chunk_type, data, crc }
    }

    pub fn length(&self) -> (r: u32)
        ensures
            r == self.spec_length(),
    {
        self.length
    }

    pub fn chunk_type(&self) -> (r: &ChunkType)
        ensures
            *r == self.spec_chunk_type(),
    {
        &self.chunk_type
    }

    pub fn data(&self) -> (r: &[u8])
        ensures
            r@ == self.spec_data(),
    {
        self.data.as_slice()
    }

    /// The CRC of this chunk
    pub fn crc(&self) -> (r: u32)
        ensures
            r == self.spec_crc(),
    {
        self.crc
    }

    /// The data decoded as UTF-8 text.
    pub fn data_as_string(&self) -> (r: Result<String, ChunkError>)
        ensures
            r is Ok <==> valid_utf8(self.spec_data()),
            r matches Ok(s) ==> s@ == decode_utf8(self.spec_data()),
            r matches Err(e) ==> e == ChunkError::UTF8ConversionError,
    {
        let data = self.data.clone();
        assert(data@ =~= self.data@);
        match crate::chunk_type::string_from_utf8(data) {
            Some(s) => {
                proof {
                    vstd::utf8::encode_utf8_decode_utf8(s@);
                }
                Ok(s)
            },
            None => Err(ChunkError::UTF8ConversionError),
        }
    }

    /// The wire form: length and type, data, then the checksum; integers big-endian.
    pub fn as_bytes(&self) -> (r: Vec<u8>)
        ensures
            r@ == self.spec_bytes(),
    {
        let mut v: Vec<u8> = Vec::new();
        push_u32_be(&mut v, self.length);
        push_range(&mut v, &self.chunk_type.bytes, 0, 4);
        push_range(&mut v, self.data.as_slice(), 0, self.data.len());
        push_u32_be(&mut v, self.crc);
        assert(self.chunk_type.bytes@.subrange(0, 4) =~= self.chunk_type.bytes@);
        assert(self.data@.subrange(0, self.data@.len() as int) =~= self.data@);
        v
    }

    /// Reads one record that fills `value` exactly. The length field is kept as
    /// read; the data is whatever lies between the type and the checksum.
    pub fn try_from(value: &[u8]) -> (r: Result<Chunk, ChunkError>)
        ensures
            value@.len() < 12 ==> r matches Err(ChunkError::TooShort),
            value@.len() >= 12 && !crc_matches(value@) ==> r matches Err(ChunkError::CrcMismatch),
            value@.len() >= 12 && crc_matches(value@) ==> (r matches Ok(c) && c.spec_length()
                == field_length(value@) && c.spec_chunk_type().bytes@ == field_type(value@)
                && c.spec_data() == field_data(value@) && c.spec_crc() == field_crc(value@)
                && c.spec_bytes() == value@),
    {
        let n = value.len();
        if n < 12 {
            return Err(ChunkError::TooShort);
        }
        let mut covered: Vec<u8> = Vec::new();
        push_range(&mut covered, value, 4, n - 4);
        let stored = read_u32_be(value, n - 4);
        if stored != crc32(covered.as_slice()) {
            return Err(ChunkError::CrcMismatch);
        }
        let mut data: Vec<u8> = Vec::new();
        push_range(&mut data, value, 8, n - 4);
        let chunk_type = ChunkType { bytes: [value[4], value[5], value[6], value[7]] };
        let c = Chunk { length: read_u32_be(value, 0), chunk_type, data, crc: stored };
        proof {
            assert(covered@ =~= value@.subrange(4, n - 4));
            assert(data@ =~= value@.subrange(8, n - 4));
            assert(chunk_type.bytes@ =~= value@.subrange(4, 8));
            lemma_be_bytes_round_trip(value@.subrange(0, 4));
            lemma_be_bytes_round_trip(value@.subrange(n - 4, n as int));
            assert(c.spec_bytes() =~= value@);
        }
        Ok(c)
    }
}

} // verus!
