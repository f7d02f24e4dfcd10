use pngme::chunk_type::{ChunkType, ChunkTypeError};

#[test]
pub fn test_chunk_type_from_bytes() {
    let expected = [82, 117, 83, 116];
    let actual = ChunkType::try_from([82, 117, 83, 116]).unwrap();

    assert_eq!(expected, actual.bytes());
}

#[test]
pub fn test_chunk_type_from_str() {
    let expected = ChunkType::try_from([82, 117, 83, 116]).unwrap();
    let actual = ChunkType::from_str("RuSt").unwrap();
    assert_eq!(expected, actual);
}

#[test]
pub fn test_chunk_type_is_critical() {
    let chunk = ChunkType::from_str("RuSt").unwrap();
    assert!(chunk.is_critical());
}

#[test]
pub fn test_chunk_type_is_not_critical() {
    let chunk = ChunkType::from_str("ruSt").unwrap();
    assert!(!chunk.is_critical());
}

#[test]
pub fn test_chunk_type_is_public() {
    let chunk = ChunkType::from_str("RUSt").unwrap();
    assert!(chunk.is_public());
}

#[test]
pub fn test_chunk_type_is_not_public() {
    let chunk = ChunkType::from_str("RuSt").unwrap();
    assert!(!chunk.is_public());
}

#[test]
pub fn test_chunk_type_is_reserved_bit_valid() {
    let chunk = ChunkType::from_str("RuSt").unwrap();
    assert!(chunk.is_reserved_bit_valid());
}

#[test]
pub fn test_chunk_type_is_reserved_bit_invalid() {
    let chunk = ChunkType::from_str("Rust").unwrap();
    assert!(!chunk.is_reserved_bit_valid());
}

#[test]
pub fn test_chunk_type_is_safe_to_copy() {
    let chunk = ChunkType::from_str("RuSt").unwrap();
    assert!(chunk.is_safe_to_copy());
}

#[test]
pub fn test_chunk_type_is_unsafe_to_copy() {
    let chunk = ChunkType::from_str("RuST").unwrap();
    assert!(!chunk.is_safe_to_copy());
}

#[test]
pub fn test_valid_chunk_is_valid() {
    let chunk = ChunkType::from_str("RuSt").unwrap();
    assert!(chunk.is_valid());
}

#[test]
pub fn test_chunk_type_string() {
    let chunk = ChunkType::from_str("RuSt").unwrap();
    assert_eq!(&chunk.as_string(), "RuSt");
}

#[test]
pub fn test_invalid_chunk_is_valid() {
    let chunk = ChunkType::from_str("Rust").unwrap();
    assert!(!chunk.is_valid());

    let chunk = ChunkType::from_str("Ru1t");
    assert!(chunk.is_err());
}

#[test]
pub fn test_chunk_type_trait_impls() {
    let chunk_type_1: ChunkType = ChunkType::try_from([82, 117, 83, 116]).unwrap();
    let chunk_type_2: ChunkType = ChunkType::from_str("RuSt").unwrap();
    let _chunk_string = chunk_type_1.as_string();
    let _are_chunks_equal = chunk_type_1 == chunk_type_2;
}

#[test]
fn letters_from_bytes_read_back_as_text() {
    for bytes in [*b"RuSt", *b"abcd", *b"ZZZZ", *b"AzaZ", *b"IEND"] {
        let t = ChunkType::try_from(bytes).unwrap();
        assert_eq!(t.bytes(), bytes);
        assert_eq!(t.as_string().as_bytes(), &bytes[..]);
    }
}

#[test]
fn non_letter_bytes_are_refused() {
    for bytes in [[82, 117, 49, 116], [64, 65, 66, 67], [91, 97, 98, 99], [96, 97, 98, 99], [123, 97, 98, 99], [0, 0, 0, 0], [200, 97, 98, 99]] {
        assert_eq!(ChunkType::try_from(bytes), Err(ChunkTypeError::ByteConversionError));
    }
}

#[test]
fn validity_follows_third_letter_case() {
    assert!(ChunkType::from_str("RuSt").unwrap().is_valid());
    assert!(!ChunkType::from_str("Rust").unwrap().is_valid());
    assert!(ChunkType::from_str("abCd").unwrap().is_valid());
    assert!(!ChunkType::from_str("ABcD").unwrap().is_valid());
}

#[test]
fn text_of_wrong_length_is_refused() {
    assert_eq!(ChunkType::from_str("Rus"), Err(ChunkTypeError::StringConversionError));
    assert_eq!(ChunkType::from_str("RuStX"), Err(ChunkTypeError::StringConversionError));
    assert_eq!(ChunkType::from_str(""), Err(ChunkTypeError::StringConversionError));
    assert_eq!(ChunkType::from_str("Ru t"), Err(ChunkTypeError::ByteConversionError));
}

#[test]
fn letter_bytes_are_valid() {
    assert!(ChunkType::is_valid_byte(b'A'));
    assert!(ChunkType::is_valid_byte(b'Z'));
    assert!(ChunkType::is_valid_byte(b'a'));
    assert!(ChunkType::is_valid_byte(b'z'));
    assert!(!ChunkType::is_valid_byte(b'@'));
    assert!(!ChunkType::is_valid_byte(b'['));
    assert!(!ChunkType::is_valid_byte(b'`'));
    assert!(!ChunkType::is_valid_byte(b'{'));
    assert!(!ChunkType::is_valid_byte(b'1'));
}
