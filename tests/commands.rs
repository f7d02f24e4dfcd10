use pngme::chunk::Chunk;
use pngme::chunk_type::{ChunkType, ChunkTypeError};
use pngme::commands::{decode, encode, CommandErrors};
use pngme::png::PngError;

fn base_file() -> Vec<u8> {
    let mut bytes = vec![137, 80, 78, 71, 13, 10, 26, 10];
    let c = Chunk::new(ChunkType::from_str("IHDR").unwrap(), vec![0, 0, 0, 1, 0, 0, 0, 1, 8, 2, 0, 0, 0]);
    bytes.extend(c.as_bytes());
    bytes.extend(Chunk::new(ChunkType::from_str("IEND").unwrap(), Vec::new()).as_bytes());
    bytes
}

#[test]
fn embed_then_extract_gives_the_message() {
    let file = base_file();
    let png = encode(&file, "RuSt".to_string(), "This is where your secret message will be!".to_string()).unwrap();
    let written = png.as_bytes();
    assert_eq!(&written[..file.len()], &file[..]);
    assert_eq!(written.len(), file.len() + 12 + 42);
    let text = decode(&written, "RuSt".to_string()).unwrap();
    assert_eq!(text, "This is where your secret message will be!");
}

#[test]
fn embed_then_extract_non_ascii_and_empty() {
    let file = base_file();
    for message in ["", "ünïcödé ✓"] {
        let written = encode(&file, "teSt".to_string(), message.to_string()).unwrap().as_bytes();
        assert_eq!(decode(&written, "teSt".to_string()).unwrap(), message);
    }
}

#[test]
fn extract_missing_type_is_not_found() {
    let file = base_file();
    assert_eq!(decode(&file, "RuSt".to_string()), Err(CommandErrors::ChunkNotFound));
    assert_eq!(decode(&file, "R1St".to_string()), Err(CommandErrors::ChunkNotFound));
}

#[test]
fn extract_invalid_text_is_a_decode_error() {
    let mut file = base_file();
    file.extend(Chunk::new(ChunkType::from_str("RuSt").unwrap(), vec![0xc3, 0x28]).as_bytes());
    assert_eq!(decode(&file, "RuSt".to_string()), Err(CommandErrors::DecodeError));
}

#[test]
fn embed_errors() {
    let file = base_file();
    assert!(matches!(encode(&file, "Rus".to_string(), "m".to_string()), Err(CommandErrors::ChunkTypeError(ChunkTypeError::StringConversionError))));
    assert!(matches!(encode(&file, "Ru5t".to_string(), "m".to_string()), Err(CommandErrors::ChunkTypeError(ChunkTypeError::ByteConversionError))));
    let mut bad = file.clone();
    bad[1] = 0;
    assert!(matches!(encode(&bad, "RuSt".to_string(), "m".to_string()), Err(CommandErrors::PngError(PngError::BadSignature))));
    assert_eq!(decode(&bad, "RuSt".to_string()), Err(CommandErrors::PngError(PngError::BadSignature)));
}
