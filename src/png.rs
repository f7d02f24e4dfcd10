use crate::chunk::{crc_matches, field_length, field_type, Chunk, ChunkError};
use crate::chunk_type::{is_type_code, ChunkType};
use vstd::prelude::*;
use vstd::string::StringSliceAdditionalSpecFns;

verus! {

/// The eight bytes that open every PNG file.
pub open spec fn png_signature() -> Seq<u8> {
    seq![137u8, 80u8, 78u8, 71u8, 13u8, 10u8, 26u8, 10u8]
}

pub open spec fn has_signature(b: Seq<u8>) -> bool {
    b.len() >= 8 && b.subrange(0, 8) == png_signature()
}

/// Splits `s` into records, front to back: each one is twelve bytes plus the
/// data length it declares, and must carry a matching checksum.
pub open spec fn parse_records(s: Seq<u8>) -> Result<Seq<Seq<u8>>, ChunkError>
    decreases s.len(),
{
    if s.len() == 0 {
        Ok(Seq::empty())
    } else if s.len() < 12 {
        Err(ChunkError::TooShort)
    } else {
        let n = 12 + field_length(s) as int;
        if n > s.len() {
            Err(ChunkError::TooShort)
        } else if !crc_matches(s.subrange(0, n)) {
            Err(ChunkError::CrcMismatch)
        } else {
            match parse_records(s.subrange(n, s.len() as int)) {
                Ok(rest) => Ok(seq![s.subrange(0, n)] + rest),
                Err(e) => Err(e),
            }
        }
    }
}

/// The records of a PNG file's bytes, or why there are none.
pub open spec fn png_parse(b: Seq<u8>) -> Result<Seq<Seq<u8>>, PngError> {
    if !has_signature(b) {
        Err(PngError::BadSignature)
    } else {
        match parse_records(b.subrange(8, b.len() as int)) {
            Ok(fs) => Ok(fs),
            Err(e) => Err(PngError::ChunkError(e)),
        }
    }
}

/// The bytes of a PNG file with the given records.
pub open spec fn png_bytes(fs: Seq<Seq<u8>>) -> Seq<u8> {
    png_signature() + fs.flatten()
}

/// A record whose declared length spans it exactly and whose checksum matches.
pub open spec fn is_framed_record(f: Seq<u8>) -> bool {
    &&& f.len() >= 12
    &&& field_length(f) == f.len() - 12
    &&& crc_matches(f)
}

/// Record `i` is the first of type `t`.
pub open spec fn is_first_of_type(fs: Seq<Seq<u8>>, t: Seq<u8>, i: int) -> bool {
    &&& 0 <= i < fs.len()
    &&& field_type(fs[i]) == t
    &&& forall|j: int| 0 <= j < i ==> field_type(#[trigger] fs[j]) != t
}

pub open spec fn has_type(fs: Seq<Seq<u8>>, t: Seq<u8>) -> bool {
    exists|i: int| 0 <= i < fs.len() && field_type(#[trigger] fs[i]) == t
}

/// `done` placed before the records of `r`, or the error of `r`.
pub open spec fn prepend(done: Seq<Seq<u8>>, r: Result<Seq<Seq<u8>>, ChunkError>) -> Result<
    Seq<Seq<u8>>,
    ChunkError,
> {
    match r {
        Ok(rest) => Ok(done + rest),
        Err(e) => Err(e),
    }
}

/// The bytes of each chunk, in order.
pub open spec fn chunk_frames(cs: Seq<Chunk>) -> Seq<Seq<u8>> {
    cs.map_values(|c: Chunk| c.spec_bytes())
}

proof fn lemma_chunk_frames_push(cs: Seq<Chunk>, c: Chunk)
    ensures
        chunk_frames(cs.push(c)) == chunk_frames(cs).push(c.spec_bytes()),
{
    assert(chunk_frames(cs.push(c)) =~= chunk_frames(cs).push(c.spec_bytes()));
}

/// One step of `parse_records` on a record that fits.
proof fn lemma_parse_records_step(s: Seq<u8>, done: Seq<Seq<u8>>)
    requires
        s.len() >= 12,
        12 + field_length(s) <= s.len(),
        crc_matches(s.subrange(0, 12 + field_length(s))),
    ensures
        prepend(done, parse_records(s)) == prepend(
            done.push(s.subrange(0, 12 + field_length(s))),
            parse_records(s.subrange(12 + field_length(s), s.len() as int)),
        ),
{
    let n = 12 + field_length(s);
    let next = parse_records(s.subrange(n, s.len() as int));
    if next is Ok {
        assert(done + (seq![s.subrange(0, n)] + next->Ok_0) =~= done.push(s.subrange(0, n))
            + next->Ok_0);
    }
}

/// What `parse_records` accepts is the concatenation of what it returns, and
/// each record it returns is framed.
pub proof fn lemma_parse_records_parts(s: Seq<u8>)
    requires
        parse_records(s) is Ok,
    ensures
        parse_records(s)->Ok_0.flatten() == s,
        forall|i: int|
            0 <= i < parse_records(s)->Ok_0.len() ==> is_framed_record(
                #[trigger] parse_records(s)->Ok_0[i],
            ),
    decreases s.len(),
{
    if s.len() > 0 {
        let n = 12 + field_length(s) as int;
        let first = s.subrange(0, n);
        let tail = s.subrange(n, s.len() as int);
        lemma_parse_records_parts(tail);
        let rest = parse_records(tail)->Ok_0;
        let fs = seq![first] + rest;
        assert(fs.drop_first() =~= rest);
        assert(first + tail =~= s);
        assert(first.subrange(0, 4) =~= s.subrange(0, 4));
        assert forall|i: int| 0 <= i < fs.len() implies is_framed_record(#[trigger] fs[i]) by {
            if i > 0 {
                assert(fs[i] == rest[i - 1]);
            }
        }
    }
}

/// Framed records, laid end to end, split back into the same records.
pub proof fn lemma_parse_framed(fs: Seq<Seq<u8>>)
    requires
        forall|i: int| 0 <= i < fs.len() ==> is_framed_record(#[trigger] fs[i]),
    ensures
        parse_records(fs.flatten()) == Ok::<Seq<Seq<u8>>, ChunkError>(fs),
    decreases fs.len(),
{
    if fs.len() > 0 {
        let first = fs[0];
        let rest = fs.drop_first();
        assert forall|i: int| 0 <= i < rest.len() implies is_framed_record(#[trigger] rest[i]) by {
            assert(rest[i] == fs[i + 1]);
        }
        lemma_parse_framed(rest);
        let s = fs.flatten();
        assert(s == first + rest.flatten());
        let n = first.len() as int;
        assert(s.subrange(0, 4) =~= first.subrange(0, 4));
        assert(field_length(s) == field_length(first));
        assert(s.subrange(0, n) =~= first);
        assert(s.subrange(n, s.len() as int) =~= rest.flatten());
        assert(seq![first] + rest =~= fs);
    } else {
        assert(fs =~= Seq::<Seq<u8>>::empty());
    }
}

/// Serialising a container that was parsed from `b` gives `b` back.
pub proof fn lemma_parse_then_serialize(b: Seq<u8>)
    requires
        png_parse(b) is Ok,
    ensures
        png_bytes(png_parse(b)->Ok_0) == b,
{
    lemma_parse_records_parts(b.subrange(8, b.len() as int));
    assert(png_signature() + b.subrange(8, b.len() as int) =~= b);
}

/// Parsing the bytes of framed records gives the records back.
pub proof fn lemma_serialize_then_parse(fs: Seq<Seq<u8>>)
    requires
        forall|i: int| 0 <= i < fs.len() ==> is_framed_record(#[trigger] fs[i]),
    ensures
        png_parse(png_bytes(fs)) == Ok::<Seq<Seq<u8>>, PngError>(fs),
{
    let b = png_bytes(fs);
    lemma_parse_framed(fs);
    assert(b.subrange(0, 8) =~= png_signature());
    assert(b.subrange(8, b.len() as int) =~= fs.flatten());
}

#[derive(Debug, Clone, Copy, PartialEq, Eq)]
pub enum PngError {
    /// The first eight bytes are not the PNG signature.
    BadSignature,
    /// A record could not be read.
    ChunkError(ChunkError),
}

/// A PNG file: the signature, then records in order.
#[derive(Debug)]
pub struct Png {
    chunks: Vec<Chunk>,
}

fn signature() -> (r: [u8; 8])
    ensures
        r@ == png_signature(),
{
    let r: [u8; 8] = [137, 80, 78, 71, 13, 10, 26, 10];
    assert(r@ =~= png_signature());
    r
}

impl Png {
    pub closed spec fn spec_chunks(&self) -> Seq<Chunk> {
        self.chunks@
    }

    /// The bytes of each record, in order.
    pub open spec fn frames(&self) -> Seq<Seq<u8>> {
        chunk_frames(self.spec_chunks())
    }

    /// The bytes that `as_bytes` writes.
    pub open spec fn spec_bytes(&self) -> Seq<u8> {
        png_bytes(self.frames())
    }

    /// Reads a whole PNG file. Fails on a missing signature, or on the first
    /// record that is cut short or whose checksum does not match.
    pub fn try_from(bytes: &[u8]) -> (r: Result<Png, PngError>)
        ensures
            !has_signature(bytes@) ==> r matches Err(PngError::BadSignature),
            match r {
                Ok(p) => png_parse(bytes@) == Ok::<Seq<Seq<u8>>, PngError>(p.frames()),
                Err(e) => png_parse(bytes@) == Err::<Seq<Seq<u8>>, PngError>(e),
            },
    {
        let n = bytes.len();
        if n < 8 {
            return Err(PngError::BadSignature);
        }
        let sig = signature();
        let mut k: usize = 0;
        while k < 8
            invariant
                0 <= k <= 8 <= n == bytes@.len(),
                sig@ == png_signature(),
                forall|j: int| 0 <= j < k ==> bytes@[j] == #[trigger] sig@[j],
            decreases 8 - k,
        {
            if bytes[k] != sig[k] {
                return Err(PngError::BadSignature);
            }
            k += 1;
        }
        assert(bytes@.subrange(0, 8) =~= png_signature());
        let mut chunks: Vec<Chunk> = Vec::new();
        let mut pos: usize = 8;
        while pos < n
            invariant
                8 <= pos <= n == bytes@.len(),
                has_signature(bytes@),
                parse_records(bytes@.subrange(8, n as int)) == prepend(
                    chunk_frames(chunks@),
                    parse_records(bytes@.subrange(pos as int, n as int)),
                ),
            decreases n - pos,
        {
            let ghost s = bytes@.subrange(pos as int, n as int);
            let rem = n - pos;
            if rem < 12 {
                return Err(PngError::ChunkError(ChunkError::TooShort));
            }
            let len = crate::chunk::read_u32_be(bytes, pos);
            assert(s.subrange(0, 4) =~= bytes@.subrange(pos as int, pos + 4));
            if len as usize > rem - 12 {
                return Err(PngError::ChunkError(ChunkError::TooShort));
            }
            let end = pos + 12 + len as usize;
            let frame = &bytes[pos..end];
            assert(frame@ =~= s.subrange(0, end - pos));
            assert(s.subrange(end - pos, s.len() as int) =~= bytes@.subrange(end as int, n as int));
            match Chunk::try_from(frame) {
                Ok(c) => {
                    proof {
                        lemma_parse_records_step(s, chunk_frames(chunks@));
                        lemma_chunk_frames_push(chunks@, c);
                    }
                    chunks.push(c);
                    pos = end;
                },
                Err(e) => {
                    return Err(PngError::ChunkError(e));
                },
            }
        }
        assert(chunk_frames(chunks@) + Seq::<Seq<u8>>::empty() =~= chunk_frames(chunks@));
        Ok(Png { chunks })
    }

    /// Adds a record at the end.
    pub fn append_chunk(&mut self, chunk: Chunk)
        ensures
            final(self).spec_chunks() == old(self).spec_chunks().push(chunk),
            final(self).frames() == old(self).frames().push(chunk.spec_bytes()),
    {
        proof {
            lemma_chunk_frames_push(self.chunks@, chunk);
        }
        self.chunks.push(chunk);
    }

    /// The first record whose type is the type code `chunk_type`; none when the
    /// text is not a type code.
    pub fn chunk_by_type(&self, chunk_type: &str) -> (r: Option<&Chunk>)
        ensures
            r is Some <==> is_type_code(chunk_type.spec_bytes()) && has_type(
                self.frames(),
                chunk_type.spec_bytes(),
            ),
            r matches Some(c) ==> (exists|i: int|
                #[trigger] is_first_of_type(self.frames(), chunk_type.spec_bytes(), i) && *c
                    == self.spec_chunks()[i]),
    {
        let ghost t = chunk_type.spec_bytes();
        let wanted = match ChunkType::from_str(chunk_type) {
            Ok(w) => w,
            Err(_) => {
                return None;
            },
        };
        let mut i: usize = 0;
        while i < self.chunks.len()
            invariant
                0 <= i <= self.chunks@.len(),
                t == chunk_type.spec_bytes(),
                is_type_code(t),
                wanted.bytes@ == t,
                forall|j: int| 0 <= j < i ==> field_type(#[trigger] self.frames()[j]) != t,
            decreases self.chunks@.len() - i,
        {
            let c = &self.chunks[i];
            proof {
                crate::chunk::lemma_record_fields(c.spec_length(), c.spec_chunk_type().bytes@, c.spec_data(), c.spec_crc());
            }
            let b = c.chunk_type().bytes;
            if b[0] == wanted.bytes[0] && b[1] == wanted.bytes[1] && b[2] == wanted.bytes[2]
                && b[3] == wanted.bytes[3] {
                assert(b@ =~= t);
                assert(is_first_of_type(self.frames(), t, i as int));
                return Some(c);
            }
            assert(b@ != t);
            i += 1;
        }
        None
    }

    /// The signature followed by each record's bytes.
    pub fn as_bytes(&self) -> (r: Vec<u8>)
        ensures
            r@ == self.spec_bytes(),
    {
        let sig = signature();
        let mut out: Vec<u8> = Vec::new();
        crate::chunk::push_range(&mut out, &sig, 0, 8);
        assert(sig@.subrange(0, 8) =~= png_signature());
        let ghost fr = self.frames();
        let mut i: usize = 0;
        while i < self.chunks.len()
            invariant
                0 <= i <= self.chunks@.len(),
                fr == chunk_frames(self.chunks@),
                out@ == png_signature() + fr.take(i as int).flatten(),
            decreases self.chunks@.len() - i,
        {
            let b = self.chunks[i].as_bytes();
            let ghost before = fr.take(i as int);
            let ghost o = out@;
            crate::chunk::push_range(&mut out, b.as_slice(), 0, b.len());
            proof {
                assert(b@ == fr[i as int]);
                assert(b@.subrange(0, b@.len() as int) =~= b@);
                assert(fr.take(i + 1) =~= before.push(b@));
                before.lemma_flatten_push(b@);
                assert(out@ =~= png_signature() + fr.take(i + 1).flatten());
            }
            i += 1;
        }
        assert(fr.take(self.chunks@.len() as int) =~= fr);
        out
    }
}

} // verus!
