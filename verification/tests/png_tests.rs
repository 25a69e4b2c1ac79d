use nice_pics::chunk::Chunk;
use nice_pics::chunk_type::ChunkType;
use nice_pics::error::PngError;
use nice_pics::png::{Png, SIGNATURE};
use std::convert::TryFrom;
use std::str::FromStr;

fn chunk(name: &str, data: &[u8]) -> Chunk {
    Chunk::new(ChunkType::from_str(name).unwrap(), data.to_vec())
}

fn sample() -> Png {
    let mut png = Png::new();
    png.append_chunk(chunk("IHDR", &[0, 0, 0, 1, 0, 0, 0, 1, 8, 6, 0, 0, 0]));
    png.append_chunk(chunk("tEXt", b"first"));
    png.append_chunk(chunk("RuSt", b"secret"));
    png.append_chunk(chunk("tEXt", b"second"));
    png.append_chunk(chunk("IEND", &[]));
    png
}

fn names(png: &Png) -> Vec<String> {
    png.chunks().iter().map(|c| c.chunk_type().to_string()).collect()
}

#[test]
fn signature_bytes() {
    assert_eq!(SIGNATURE, [0x89, 0x50, 0x4E, 0x47, 0x0D, 0x0A, 0x1A, 0x0A]);
}

#[test]
fn empty_container() {
    let png = Png::new();
    assert_eq!(png.chunks().len(), 0);
    assert_eq!(png.as_bytes(), SIGNATURE.to_vec());
    let parsed = Png::try_from(&SIGNATURE[..]).unwrap();
    assert_eq!(parsed, png);
}

#[test]
fn stream_is_signature_then_records() {
    let png = sample();
    let mut expected = SIGNATURE.to_vec();
    for c in png.chunks() {
        expected.extend(c.as_bytes());
    }
    assert_eq!(png.as_bytes(), expected);
}

#[test]
fn known_stream_parses() {
    let bytes: Vec<u8> = vec![
        0x89, 0x50, 0x4E, 0x47, 0x0D, 0x0A, 0x1A, 0x0A, // signature
        0x00, 0x00, 0x00, 0x0D, 0x49, 0x48, 0x44, 0x52, // IHDR, 13 bytes
        0x00, 0x00, 0x00, 0x01, 0x00, 0x00, 0x00, 0x01, 0x08, 0x06, 0x00, 0x00, 0x00, //
        0x1F, 0x15, 0xC4, 0x89, //
        0x00, 0x00, 0x00, 0x00, 0x49, 0x45, 0x4E, 0x44, 0xAE, 0x42, 0x60, 0x82, // IEND
    ];
    let png = Png::try_from(bytes.as_slice()).unwrap();
    assert_eq!(names(&png), vec!["IHDR", "IEND"]);
    assert_eq!(png.chunks()[0].length(), 13);
    assert_eq!(png.chunks()[0].crc(), 0x1F15_C489);
    assert_eq!(png.chunks()[0].data(), &bytes[16..29]);
    assert_eq!(png.chunks()[1].length(), 0);
    assert_eq!(png.chunks()[1].crc(), 0xAE42_6082);
    assert_eq!(png.as_bytes(), bytes);
}

#[test]
fn round_trip_of_appended_chunks() {
    let png = sample();
    let parsed = Png::try_from(png.as_bytes().as_slice()).unwrap();
    assert_eq!(parsed, png);
    assert_eq!(parsed.as_bytes(), png.as_bytes());
    assert_eq!(names(&parsed), vec!["IHDR", "tEXt", "RuSt", "tEXt", "IEND"]);
}

#[test]
fn append_puts_the_chunk_last() {
    let mut png = sample();
    let before = png.as_bytes();
    let extra = chunk("teSt", b"more");
    let record = extra.as_bytes();
    png.append_chunk(extra);
    assert_eq!(png.chunks().len(), 6);
    assert_eq!(png.chunks()[5].data(), b"more");
    let mut expected = before;
    expected.extend(record);
    assert_eq!(png.as_bytes(), expected);
}

#[test]
fn bad_signature() {
    assert_eq!(Png::try_from(&[][..]), Err(PngError::BadSignature));
    assert_eq!(Png::try_from(&SIGNATURE[..7]), Err(PngError::BadSignature));
    for at in 0..8 {
        let mut bytes = sample().as_bytes();
        bytes[at] ^= 1;
        assert_eq!(Png::try_from(bytes.as_slice()), Err(PngError::BadSignature));
    }
}

#[test]
fn bad_signature_comes_before_any_chunk_error() {
    let mut bytes = vec![0x89, 0x50, 0x4E, 0x47, 0x0D, 0x0A, 0x1A, 0x0B];
    bytes.extend([1, 2, 3]);
    assert_eq!(Png::try_from(bytes.as_slice()), Err(PngError::BadSignature));
}

#[test]
fn rest_shorter_than_a_record_is_malformed() {
    for extra in 1..12 {
        let mut bytes = sample().as_bytes();
        bytes.extend(vec![0u8; extra]);
        assert_eq!(Png::try_from(bytes.as_slice()), Err(PngError::MalformedRecord));
    }
}

#[test]
fn truncated_record_is_malformed() {
    let bytes = sample().as_bytes();
    for cut in 1..12 {
        assert_eq!(
            Png::try_from(&bytes[..bytes.len() - cut]),
            Err(PngError::MalformedRecord)
        );
    }
    let mut png = Png::new();
    png.append_chunk(chunk("RuSt", b"secret"));
    let bytes = png.as_bytes();
    assert_eq!(Png::try_from(&bytes[..bytes.len() - 1]), Err(PngError::MalformedRecord));
}

#[test]
fn the_first_failing_record_decides() {
    let png = sample();
    let mut bytes = png.as_bytes();
    // Second record: a byte of its data; fourth record: its type code.
    let second = 8 + png.chunks()[0].as_bytes().len();
    let fourth = second + png.chunks()[1].as_bytes().len() + png.chunks()[2].as_bytes().len();
    bytes[fourth + 4] = b'1';
    assert_eq!(Png::try_from(bytes.as_slice()), Err(PngError::InvalidByte(b'1')));
    bytes[second + 8] ^= 0x40;
    assert!(matches!(
        Png::try_from(bytes.as_slice()),
        Err(PngError::ChecksumMismatch { found, .. }) if found == png.chunks()[1].crc()
    ));
}

#[test]
fn records_end_where_their_length_fields_say() {
    // The length field of the first record is made one too small: the
    // record that it then marks off has a checksum that is no checksum.
    let mut bytes = sample().as_bytes();
    assert_eq!(&bytes[8..12], &[0, 0, 0, 13]);
    bytes[11] = 12;
    assert!(matches!(
        Png::try_from(bytes.as_slice()),
        Err(PngError::ChecksumMismatch { .. })
    ));
    // Made larger than what is left of the stream, it marks off nothing.
    bytes[8] = 1;
    assert_eq!(Png::try_from(bytes.as_slice()), Err(PngError::MalformedRecord));
}

#[test]
fn every_chunk_of_a_parsed_container_has_its_true_length() {
    let png = Png::try_from(sample().as_bytes().as_slice()).unwrap();
    for c in png.chunks() {
        assert_eq!(c.length() as usize, c.data().len());
    }
}

#[test]
fn chunk_by_type_finds_the_first() {
    let png = sample();
    assert_eq!(png.chunk_by_type("tEXt").unwrap().data(), b"first");
    assert_eq!(png.chunk_by_type("RuSt").unwrap().data(), b"secret");
    assert_eq!(png.chunk_by_type("IEND").unwrap().length(), 0);
    assert!(png.chunk_by_type("TEXT").is_none());
    assert!(png.chunk_by_type("rust").is_none());
    assert!(png.chunk_by_type("").is_none());
    assert!(png.chunk_by_type("RuStRuSt").is_none());
    assert!(Png::new().chunk_by_type("IEND").is_none());
}

#[test]
fn remove_then_search_finds_nothing() {
    let mut png = sample();
    assert_eq!(png.remove_chunk("RuSt"), Ok(()));
    assert!(png.chunk_by_type("RuSt").is_none());
    assert_eq!(png.remove_chunk("RuSt"), Err(PngError::NotFound));
    assert_eq!(names(&png), vec!["IHDR", "tEXt", "tEXt", "IEND"]);
}

#[test]
fn remove_takes_only_the_first_of_a_type() {
    let mut png = sample();
    assert_eq!(png.remove_chunk("tEXt"), Ok(()));
    assert_eq!(names(&png), vec!["IHDR", "RuSt", "tEXt", "IEND"]);
    assert_eq!(png.chunk_by_type("tEXt").unwrap().data(), b"second");
    assert_eq!(png.remove_chunk("tEXt"), Ok(()));
    assert!(png.chunk_by_type("tEXt").is_none());
    assert_eq!(png.remove_chunk("tEXt"), Err(PngError::NotFound));
}

#[test]
fn remove_of_an_absent_type_changes_nothing() {
    let mut png = sample();
    let before = png.as_bytes();
    assert_eq!(png.remove_chunk("abCd"), Err(PngError::NotFound));
    assert_eq!(png.remove_chunk("not a type"), Err(PngError::NotFound));
    assert_eq!(png.as_bytes(), before);
    let mut empty = Png::new();
    assert_eq!(empty.remove_chunk("IEND"), Err(PngError::NotFound));
}

#[test]
fn hide_a_message_before_the_end() {
    let mut png = Png::try_from(sample().as_bytes().as_slice()).unwrap();
    png.remove_chunk("IEND").unwrap();
    let _ = png.remove_chunk("seCr");
    png.append_chunk(chunk("seCr", b"hidden"));
    png.append_chunk(chunk("IEND", &[]));
    let stored = Png::try_from(png.as_bytes().as_slice()).unwrap();
    assert_eq!(stored.chunk_by_type("seCr").unwrap().data_as_string().unwrap(), "hidden");
    assert_eq!(names(&stored).last().unwrap(), "IEND");
}
