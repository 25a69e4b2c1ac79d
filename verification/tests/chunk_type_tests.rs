use nice_pics::chunk_type::ChunkType;
use nice_pics::error::PngError;
use std::convert::TryFrom;
use std::str::FromStr;

#[test]
pub fn test_chunk_type_from_bytes() {
    let expected = [82, 117, 83, 116];
    let actual = ChunkType::try_from([82, 117, 83, 116]).unwrap();

    assert_eq!(expected, actual.bytes());
}

#[test]
pub fn test_chunk_type_from_str() {
    let expected = ChunkType::try_from([82, 117, 83, 116]).unwrap();
    let actual = ChunkType::from_str("RuSt").unwrap();
    assert_eq!(expected, actual);
}

#[test]
pub fn test_chunk_type_is_critical() {
    let chunk = ChunkType::from_str("RuSt").unwrap();
    assert!(chunk.is_critical());
}

#[test]
pub fn test_chunk_type_is_not_critical() {
    let chunk = ChunkType::from_str("ruSt").unwrap();
    assert!(!chunk.is_critical());
}

#[test]
pub fn test_chunk_type_is_public() {
    let chunk = ChunkType::from_str("RUSt").unwrap();
    assert!(chunk.is_public());
}

#[test]
pub fn test_chunk_type_is_not_public() {
    let chunk = ChunkType::from_str("RuSt").unwrap();
    assert!(!chunk.is_public());
}

#[test]
pub fn test_chunk_type_is_reserved_bit_valid() {
    let chunk = ChunkType::from_str("RuSt").unwrap();
    assert!(chunk.is_reserved_bit_valid());
}

#[test]
pub fn test_chunk_type_is_reserved_bit_invalid() {
    let chunk = ChunkType::from_str("Rust").unwrap();
    assert!(!chunk.is_reserved_bit_valid());
}

#[test]
pub fn test_chunk_type_is_safe_to_copy() {
    let chunk = ChunkType::from_str("RuSt").unwrap();
    assert!(chunk.is_safe_to_copy());
}

#[test]
pub fn test_chunk_type_is_unsafe_to_copy() {
    let chunk = ChunkType::from_str("RuST").unwrap();
    assert!(!chunk.is_safe_to_copy());
}

#[test]
pub fn test_valid_chunk_is_valid() {
    let chunk = ChunkType::from_str("RuSt").unwrap();
    assert!(chunk.is_valid());
}

#[test]
pub fn test_invalid_chunk_is_valid() {
    let chunk = ChunkType::from_str("Rust").unwrap();
    assert!(!chunk.is_valid());

    let chunk = ChunkType::from_str("Ru1t");
    assert!(chunk.is_err());
}

#[test]
pub fn test_chunk_type_string() {
    let chunk = ChunkType::from_str("RuSt").unwrap();
    assert_eq!(&chunk.to_string(), "RuSt");
}

#[test]
pub fn test_chunk_type_trait_impls() {
    let chunk_type_1: ChunkType = TryFrom::try_from([82, 117, 83, 116]).unwrap();
    let chunk_type_2: ChunkType = FromStr::from_str("RuSt").unwrap();
    let _chunk_string = format!("{}", chunk_type_1.to_string());
    let _are_chunks_equal = chunk_type_1 == chunk_type_2;
}

#[test]
fn every_letter_is_accepted_and_nothing_else() {
    for b in 0..=255u8 {
        let is_letter = (b'A'..=b'Z').contains(&b) || (b'a'..=b'z').contains(&b);
        for position in 0..4 {
            let mut bytes = *b"RuSt";
            bytes[position] = b;
            let made = ChunkType::try_from(bytes);
            if is_letter {
                assert_eq!(made.unwrap().bytes(), bytes);
            } else {
                assert_eq!(made, Err(PngError::InvalidByte(b)));
            }
        }
    }
}

#[test]
fn the_first_invalid_byte_is_reported() {
    assert_eq!(ChunkType::try_from([82, 49, 50, 116]), Err(PngError::InvalidByte(49)));
    assert_eq!(ChunkType::try_from([64, 91, 96, 123]), Err(PngError::InvalidByte(64)));
    assert_eq!(ChunkType::try_from([65, 90, 97, 123]), Err(PngError::InvalidByte(123)));
    assert_eq!(ChunkType::from_str("Ru1t"), Err(PngError::InvalidByte(49)));
    assert_eq!(ChunkType::from_str("R St"), Err(PngError::InvalidByte(32)));
}

#[test]
fn text_of_another_length_is_rejected_with_its_length() {
    assert_eq!(ChunkType::from_str(""), Err(PngError::InvalidLength(0)));
    assert_eq!(ChunkType::from_str("Rus"), Err(PngError::InvalidLength(3)));
    assert_eq!(ChunkType::from_str("RuStt"), Err(PngError::InvalidLength(5)));
    assert_eq!(ChunkType::from_str("12345678"), Err(PngError::InvalidLength(8)));
}

#[test]
fn length_is_counted_in_bytes() {
    // Two characters, four bytes: the length passes and the bytes do not.
    assert_eq!(ChunkType::from_str("\u{e9}\u{e9}"), Err(PngError::InvalidByte(0xC3)));
    // Four characters, five bytes.
    assert_eq!(ChunkType::from_str("Ru\u{e9}t"), Err(PngError::InvalidLength(5)));
}

#[test]
fn text_round_trip() {
    for name in ["RuSt", "IHDR", "IEND", "tEXt", "zzzz", "AAAA", "aZbY"] {
        let code = ChunkType::from_str(name).unwrap();
        assert_eq!(code.to_string(), name);
        assert_eq!(code.bytes(), name.as_bytes());
    }
}

#[test]
fn flags_of_rust_codes() {
    let code = ChunkType::from_str("RuSt").unwrap();
    assert!(code.is_critical());
    assert!(!code.is_public());
    assert!(code.is_reserved_bit_valid());
    assert!(code.is_safe_to_copy());
    assert!(code.is_valid());

    let code = ChunkType::from_str("Rust").unwrap();
    assert!(!code.is_reserved_bit_valid());
    assert!(!code.is_valid());
}

#[test]
fn flags_follow_the_case_of_each_letter() {
    for bits in 0..16u8 {
        let mut bytes = *b"ABCD";
        for position in 0..4 {
            if bits & (1 << position) != 0 {
                bytes[position] = bytes[position].to_ascii_lowercase();
            }
        }
        let code = ChunkType::try_from(bytes).unwrap();
        assert_eq!(code.is_critical(), bits & 1 == 0);
        assert_eq!(code.is_public(), bits & 2 == 0);
        assert_eq!(code.is_reserved_bit_valid(), bits & 4 == 0);
        assert_eq!(code.is_valid(), bits & 4 == 0);
        assert_eq!(code.is_safe_to_copy(), bits & 8 != 0);
    }
}

#[test]
fn equality_is_case_sensitive() {
    let upper = ChunkType::from_str("RUST").unwrap();
    let mixed = ChunkType::from_str("RuSt").unwrap();
    assert_ne!(upper, mixed);
    assert_eq!(mixed, ChunkType::try_from(*b"RuSt").unwrap());
    assert!(mixed.is_named("RuSt"));
    assert!(!mixed.is_named("RUST"));
    assert!(!mixed.is_named("RuS"));
    assert!(!mixed.is_named("RuSt "));
}
