use crate::chunk::{field_data, new_record, Chunk};
use crate::chunk_type::{all_letters, is_type_code, ChunkType, ChunkTypeError};
use crate::png::{
    has_type, is_first_of_type, is_framed_record, png_bytes, png_parse, Png, PngError,
};
use vstd::prelude::*;
use vstd::utf8::{decode_utf8, encode_utf8, valid_utf8};

verus! {

#[derive(Debug, Clone, Copy, PartialEq, Eq)]
pub enum CommandErrors {
    /// The chunk's data is not valid UTF-8 text.
    DecodeError,
    /// No chunk has the requested type.
    ChunkNotFound,
    /// The file could not be read as a PNG.
    PngError(PngError),
    /// The type text is not a type code.
    ChunkTypeError(ChunkTypeError),
}

/// The records of `file` with a record of type `t` carrying `message` appended.
pub open spec fn embed_spec(file: Seq<u8>, t: Seq<u8>, message: Seq<u8>) -> Result<
    Seq<Seq<u8>>,
    CommandErrors,
> {
    match png_parse(file) {
        Err(e) => Err(CommandErrors::PngError(e)),
        Ok(fs) => if t.len() != 4 {
            Err(CommandErrors::ChunkTypeError(ChunkTypeError::StringConversionError))
        } else if !all_letters(t) {
            Err(CommandErrors::ChunkTypeError(ChunkTypeError::ByteConversionError))
        } else {
            Ok(fs.push(new_record(t, message)))
        },
    }
}

/// The text held by the first record of type `t` in `file`.
pub open spec fn extract_spec(file: Seq<u8>, t: Seq<u8>) -> Result<Seq<char>, CommandErrors> {
    match png_parse(file) {
        Err(e) => Err(CommandErrors::PngError(e)),
        Ok(fs) => if is_type_code(t) && has_type(fs, t) {
            let d = field_data(fs[choose|i: int| is_first_of_type(fs, t, i)]);
            if valid_utf8(d) {
                Ok(decode_utf8(d))
            } else {
                Err(CommandErrors::DecodeError)
            }
        } else {
            Err(CommandErrors::ChunkNotFound)
        },
    }
}

/// Hiding a message under a type that the file does not use yet, then reading
/// that type from the written file, gives the message back.
pub proof fn lemma_embed_then_extract(file: Seq<u8>, t: Seq<u8>, message: Seq<char>)
    requires
        png_parse(file) is Ok,
        is_type_code(t),
        !has_type(png_parse(file)->Ok_0, t),
        encode_utf8(message).len() <= u32::MAX,
    ensures
        embed_spec(file, t, encode_utf8(message)) matches Ok(fs) && extract_spec(png_bytes(fs), t)
            == Ok::<Seq<char>, CommandErrors>(message),
{
    let old_fs = png_parse(file)->Ok_0;
    let m = encode_utf8(message);
    let rec = new_record(t, m);
    let fs = old_fs.push(rec);
    crate::png::lemma_parse_records_parts(file.subrange(8, file.len() as int));
    crate::chunk::lemma_record_round_trip(t, m);
    crate::chunk::lemma_record_fields(m.len() as u32, t, m, crate::chunk::crc32_of(t + m));
    assert forall|i: int| 0 <= i < fs.len() implies is_framed_record(#[trigger] fs[i]) by {
        if i < old_fs.len() {
            assert(fs[i] == old_fs[i]);
        }
    }
    crate::png::lemma_serialize_then_parse(fs);
    let k = old_fs.len() as int;
    assert(is_first_of_type(fs, t, k)) by {
        assert forall|j: int| 0 <= j < k implies crate::chunk::field_type(#[trigger] fs[j]) != t by {
            assert(fs[j] == old_fs[j]);
        }
    }
    let c = choose|i: int| is_first_of_type(fs, t, i);
    assert(c == k);
    vstd::utf8::encode_utf8_valid_utf8(message);
    vstd::utf8::encode_utf8_decode_utf8(message);
}

/// Reading a type that no record of the file has fails with `ChunkNotFound`.
pub proof fn lemma_extract_missing(file: Seq<u8>, t: Seq<u8>)
    requires
        png_parse(file) matches Ok(fs) && !has_type(fs, t),
    ensures
        extract_spec(file, t) == Err::<Seq<char>, CommandErrors>(CommandErrors::ChunkNotFound),
{
}

/// Reads the PNG file in `file_as_bytes` and appends a chunk of type `chunk_t`
/// holding `message`.
pub fn encode(file_as_bytes: &Vec<u8>, chunk_t: String, message: String) -> (r: Result<
    Png,
    CommandErrors,
>)
    requires
        encode_utf8(message@).len() <= u32::MAX,
    ensures
        match r {
            Ok(p) => embed_spec(file_as_bytes@, encode_utf8(chunk_t@), encode_utf8(message@))
                == Ok::<Seq<Seq<u8>>, CommandErrors>(p.frames()),
            Err(e) => embed_spec(file_as_bytes@, encode_utf8(chunk_t@), encode_utf8(message@))
                == Err::<Seq<Seq<u8>>, CommandErrors>(e),
        },
{
    let mut png = match Png::try_from(file_as_bytes.as_slice()) {
        Ok(p) => p,
        Err(e) => {
            return Err(CommandErrors::PngError(e));
        },
    };
    let chunk_type = match ChunkType::from_str(chunk_t.as_str()) {
        Ok(t) => t,
        Err(e) => {
            return Err(CommandErrors::ChunkTypeError(e));
        },
    };
    let text = message.as_str().as_bytes();
    let mut data: Vec<u8> = Vec::new();
    crate::chunk::push_range(&mut data, text, 0, text.len());
    assert(data@ =~= encode_utf8(message@));
    let chunk = Chunk::new(chunk_type, data);
    png.append_chunk(chunk);
    Ok(png)
}

/// Reads the PNG file in `file_as_bytes` and returns the text held by its first
/// chunk of type `chunk_t`.
pub fn decode(file_as_bytes: &Vec<u8>, chunk_t: String) -> (r: Result<String, CommandErrors>)
    ensures
        match r {
            Ok(s) => extract_spec(file_as_bytes@, encode_utf8(chunk_t@)) == Ok::<
                Seq<char>,
                CommandErrors,
            >(s@),
            Err(e) => extract_spec(file_as_bytes@, encode_utf8(chunk_t@)) == Err::<
                Seq<char>,
                CommandErrors,
            >(e),
        },
{
    let png = match Png::try_from(file_as_bytes.as_slice()) {
        Ok(p) => p,
        Err(e) => {
            return Err(CommandErrors::PngError(e));
        },
    };
    let ghost t = encode_utf8(chunk_t@);
    match png.chunk_by_type(chunk_t.as_str()) {
        Some(chunk) => {
            proof {
                let i = choose|i: int| #[trigger] is_first_of_type(png.frames(), t, i) && *chunk
                    == png.spec_chunks()[i];
                let j = choose|j: int| is_first_of_type(png.frames(), t, j);
                assert(i == j);
                crate::chunk::lemma_record_fields(
                    chunk.spec_length(),
                    chunk.spec_chunk_type().bytes@,
                    chunk.spec_data(),
                    chunk.spec_crc(),
                );
            }
            match chunk.data_as_string() {
                Ok(s) => Ok(s),
                Err(_) => Err(CommandErrors::DecodeError),
            }
        },
        None => Err(CommandErrors::ChunkNotFound),
    }
}

} // verus!
