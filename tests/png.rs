use pngme::chunk::{Chunk, ChunkError};
use pngme::chunk_type::ChunkType;
use pngme::png::{Png, PngError};

const SIGNATURE: [u8; 8] = [137, 80, 78, 71, 13, 10, 26, 10];

fn chunk(t: &str, data: &str) -> Chunk {
    Chunk::new(ChunkType::from_str(t).unwrap(), data.as_bytes().to_vec())
}

fn file_of(chunks: &[Chunk]) -> Vec<u8> {
    let mut bytes = SIGNATURE.to_vec();
    for c in chunks {
        bytes.extend(c.as_bytes());
    }
    bytes
}

fn sample_file() -> Vec<u8> {
    file_of(&[chunk("FrSt", "I am the first chunk"), chunk("miDl", "I am another chunk"), chunk("LASt", "I am the last chunk")])
}

#[test]
fn parse_then_serialise_is_identity() {
    let bytes = sample_file();
    let png = Png::try_from(bytes.as_slice()).unwrap();
    assert_eq!(png.as_bytes(), bytes);
}

#[test]
fn signature_alone_is_an_empty_file() {
    let png = Png::try_from(&SIGNATURE[..]).unwrap();
    assert_eq!(png.as_bytes(), SIGNATURE.to_vec());
    assert!(png.chunk_by_type("RuSt").is_none());
}

#[test]
fn bad_signature_is_refused() {
    let mut bytes = sample_file();
    bytes[0] = 13;
    assert!(matches!(Png::try_from(bytes.as_slice()), Err(PngError::BadSignature)));
    assert!(matches!(Png::try_from(&[137u8, 80, 78][..]), Err(PngError::BadSignature)));
    assert!(matches!(Png::try_from(&[][..]), Err(PngError::BadSignature)));
}

#[test]
fn cut_record_is_too_short() {
    let bytes = sample_file();
    let cut = &bytes[..bytes.len() - 1];
    assert!(matches!(Png::try_from(cut), Err(PngError::ChunkError(ChunkError::TooShort))));
    let mut tail = SIGNATURE.to_vec();
    tail.extend([0, 0, 0]);
    assert!(matches!(Png::try_from(tail.as_slice()), Err(PngError::ChunkError(ChunkError::TooShort))));
}

#[test]
fn corrupt_record_is_a_mismatch() {
    let mut bytes = sample_file();
    bytes[8 + 8] ^= 1;
    assert!(matches!(Png::try_from(bytes.as_slice()), Err(PngError::ChunkError(ChunkError::CrcMismatch))));
}

#[test]
fn lookup_finds_first_of_type() {
    let bytes = file_of(&[chunk("RuSt", "one"), chunk("miDl", "two"), chunk("RuSt", "three")]);
    let png = Png::try_from(bytes.as_slice()).unwrap();
    assert_eq!(png.chunk_by_type("RuSt").unwrap().data(), b"one");
    assert_eq!(png.chunk_by_type("miDl").unwrap().data(), b"two");
    assert!(png.chunk_by_type("LASt").is_none());
    assert!(png.chunk_by_type("Ru1t").is_none());
    assert!(png.chunk_by_type("RuStt").is_none());
}

#[test]
fn appended_chunk_comes_last() {
    let bytes = sample_file();
    let mut png = Png::try_from(bytes.as_slice()).unwrap();
    let extra = chunk("TeSt", "appended");
    let extra_bytes = extra.as_bytes();
    png.append_chunk(extra);
    let mut expected = bytes.clone();
    expected.extend(extra_bytes);
    assert_eq!(png.as_bytes(), expected);
    assert_eq!(png.chunk_by_type("TeSt").unwrap().data(), b"appended");
}
