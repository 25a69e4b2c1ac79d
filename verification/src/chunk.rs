//! Chunk records.
//!
//! A record is a big-endian length, a type code of four bytes, the data, and
//! the big-endian checksum of type code and data. The length is the number of
//! data bytes: a chunk never holds another length, and a record that declares
//! another one is refused.

use crate::chunk_type::{code_from_bytes, is_type_code, lemma_code_from_bytes, ChunkType};
use crate::crc::{
    checksum, lemma_checksum_detects_change_in_one_byte, lemma_register_after_concat, Crc32,
    ALL_ONES,
};
use crate::error::{ok_view, PngError};
use crate::text::{
    ascii_text, first_non_ascii, is_ascii_bytes, lemma_first_rejected_none,
    lemma_first_rejected_skips_accepted, text_from_ascii,
};
use crate::wire::{
    lemma_be_u32_round_trip, lemma_u32_be_round_trip, push_u32_be, read_u32_be, u32_from_be,
    u32_to_be,
};
use vstd::prelude::*;
use vstd::slice::{slice_subrange, slice_to_vec};
use vstd::std_specs::cmp::PartialEqSpecImpl;
use vstd::std_specs::convert::TryFromSpecImpl;

verus! {

/// The bytes of a record around its data: length, type code and checksum.
pub const RECORD_OVERHEAD: usize = 12;

/// The parts of a chunk as mathematical values.
pub struct ChunkView {
    pub length: u32,
    pub chunk_type: Seq<u8>,
    pub data: Seq<u8>,
    pub crc: u32,
}

impl ChunkView {
    /// True when the type code is one, the length is the number of data
    /// bytes, and the checksum is that of type code and data.
    pub open spec fn well_formed(self) -> bool {
        &&& is_type_code(self.chunk_type)
        &&& self.length_is_exact()
        &&& self.crc == checksum(self.chunk_type + self.data)
    }

    /// True when the length is the number of data bytes.
    pub open spec fn length_is_exact(self) -> bool {
        self.length == self.data.len()
    }

    /// Where the data end in the record of this chunk, and the checksum
    /// begins.
    pub open spec fn data_end(self) -> int {
        8 + self.data.len() as int
    }

    /// The record of this chunk.
    pub open spec fn to_bytes(self) -> Seq<u8> {
        u32_to_be(self.length) + self.chunk_type + self.data + u32_to_be(self.crc)
    }
}

/// The chunk that a type code and data make.
pub open spec fn new_chunk(code: Seq<u8>, data: Seq<u8>) -> ChunkView
    recommends
        data.len() <= u32::MAX,
{
    ChunkView {
        length: data.len() as u32,
        chunk_type: code,
        data,
        crc: checksum(code + data),
    }
}

/// The chunk that a record holds, or the reason why `bytes` is no record.
/// The data are all the bytes between type code and checksum, and the length
/// field must count them. The tests come in this order: the size of the
/// record, the type code, the length field, the checksum.
pub open spec fn parse_chunk(bytes: Seq<u8>) -> Result<ChunkView, PngError> {
    if bytes.len() < RECORD_OVERHEAD {
        Err(PngError::MalformedRecord)
    } else {
        let end = bytes.len() as int;
        let length = u32_from_be(bytes.subrange(0, 4));
        let code = bytes.subrange(4, 8);
        let data = bytes.subrange(8, end - 4);
        let found = u32_from_be(bytes.subrange(end - 4, end));
        let expected = checksum(code + data);
        match code_from_bytes(code) {
            Err(e) => Err(e),
            Ok(_) => if length != data.len() {
                Err(PngError::MalformedRecord)
            } else if found != expected {
                Err(PngError::ChecksumMismatch { found, expected })
            } else {
                Ok(ChunkView { length, chunk_type: code, data, crc: found })
            },
        }
    }
}

/// `bytes` with bit `bit` of the byte at `at` turned over.
pub open spec fn flip_bit(bytes: Seq<u8>, at: int, bit: u8) -> Seq<u8>
    recommends
        0 <= at < bytes.len(),
        bit < 8,
{
    bytes.update(at, bytes[at] ^ (1u8 << bit))
}

/// Where the parts of a record lie in it.
pub proof fn lemma_record_layout(chunk: ChunkView)
    requires
        chunk.chunk_type.len() == 4,
    ensures
        chunk.to_bytes().len() == RECORD_OVERHEAD + chunk.data.len(),
        chunk.to_bytes().subrange(0, 4) == u32_to_be(chunk.length),
        chunk.to_bytes().subrange(4, 8) == chunk.chunk_type,
        chunk.to_bytes().subrange(8, chunk.data_end()) == chunk.data,
        chunk.to_bytes().subrange(4, chunk.data_end()) == chunk.chunk_type + chunk.data,
        chunk.to_bytes().subrange(chunk.data_end(), chunk.data_end() + 4) == u32_to_be(chunk.crc),
{
    let bytes = chunk.to_bytes();
    let n = chunk.data.len() as int;
    lemma_u32_be_round_trip(chunk.length);
    lemma_u32_be_round_trip(chunk.crc);
    assert(bytes.subrange(0, 4) =~= u32_to_be(chunk.length));
    assert(bytes.subrange(4, 8) =~= chunk.chunk_type);
    assert(bytes.subrange(8, 8 + n) =~= chunk.data);
    assert(bytes.subrange(4, 8 + n) =~= chunk.chunk_type + chunk.data);
    assert(bytes.subrange(8 + n, 12 + n) =~= u32_to_be(chunk.crc));
}

/// Parsing the record of a well-formed chunk gives the chunk.
pub proof fn lemma_parse_of_record(chunk: ChunkView)
    requires
        chunk.well_formed(),
    ensures
        parse_chunk(chunk.to_bytes()) == Ok::<ChunkView, PngError>(chunk),
{
    lemma_record_layout(chunk);
    lemma_code_from_bytes(chunk.chunk_type);
    lemma_u32_be_round_trip(chunk.length);
    lemma_u32_be_round_trip(chunk.crc);
}

/// A chunk made from a type code and data, written as a record and parsed,
/// is the same chunk.
pub proof fn lemma_new_chunk_round_trip(code: Seq<u8>, data: Seq<u8>)
    requires
        is_type_code(code),
        data.len() <= u32::MAX,
    ensures
        new_chunk(code, data).well_formed(),
        parse_chunk(new_chunk(code, data).to_bytes()) == Ok::<ChunkView, PngError>(
            new_chunk(code, data),
        ),
{
    lemma_parse_of_record(new_chunk(code, data));
}

/// Whatever parses is well formed, and its record is the input, byte for
/// byte.
pub proof fn lemma_record_of_parse(bytes: Seq<u8>)
    requires
        parse_chunk(bytes) is Ok,
    ensures
        parse_chunk(bytes)->Ok_0.well_formed(),
        parse_chunk(bytes)->Ok_0.to_bytes() == bytes,
{
    let chunk = parse_chunk(bytes)->Ok_0;
    let end = bytes.len() as int;
    lemma_code_from_bytes(bytes.subrange(4, 8));
    lemma_be_u32_round_trip(bytes.subrange(0, 4));
    lemma_be_u32_round_trip(bytes.subrange(end - 4, end));
    assert(chunk.to_bytes() =~= bytes);
}

/// A record with one bit of its type code or data turned over does not
/// parse.
pub proof fn lemma_bit_flip_is_rejected(chunk: ChunkView, at: int, bit: u8)
    requires
        chunk.well_formed(),
        4 <= at < chunk.data_end(),
        bit < 8,
    ensures
        parse_chunk(flip_bit(chunk.to_bytes(), at, bit)) is Err,
        is_type_code(flip_bit(chunk.to_bytes(), at, bit).subrange(4, 8)) ==> parse_chunk(
            flip_bit(chunk.to_bytes(), at, bit),
        ) == Err::<ChunkView, PngError>(
            PngError::ChecksumMismatch {
                found: chunk.crc,
                expected: checksum(
                    flip_bit(chunk.to_bytes(), at, bit).subrange(4, chunk.data_end()),
                ),
            },
        ),
{
    let bytes = chunk.to_bytes();
    let flipped = flip_bit(bytes, at, bit);
    let end = bytes.len() as int;
    lemma_record_layout(chunk);
    let old_byte = bytes[at];
    assert(old_byte ^ (1u8 << bit) != old_byte) by (bit_vector)
        requires
            bit < 8,
    ;
    let covered = bytes.subrange(4, end - 4);
    let covered_flipped = flipped.subrange(4, end - 4);
    assert(covered_flipped =~= flipped.subrange(4, 8) + flipped.subrange(8, end - 4));
    lemma_checksum_detects_change_in_one_byte(covered, covered_flipped, at - 4);
    assert(flipped.subrange(0, 4) =~= u32_to_be(chunk.length));
    lemma_u32_be_round_trip(chunk.length);
    assert(flipped.subrange(end - 4, end) =~= u32_to_be(chunk.crc));
    lemma_u32_be_round_trip(chunk.crc);
    lemma_code_from_bytes(flipped.subrange(4, 8));
}

/// A record with one bit of its type code or data turned over, where the
/// type code still consists of letters, fails to parse with
/// `ChecksumMismatch`: the stored checksum is found, and the bytes as they
/// now are call for another.
pub proof fn lemma_bit_flip_gives_checksum_mismatch(chunk: ChunkView, at: int, bit: u8)
    requires
        chunk.well_formed(),
        4 <= at < chunk.data_end(),
        bit < 8,
        is_type_code(flip_bit(chunk.to_bytes(), at, bit).subrange(4, 8)),
    ensures
        parse_chunk(flip_bit(chunk.to_bytes(), at, bit)) matches Err(
            PngError::ChecksumMismatch { found, expected },
        ) && found == chunk.crc && expected != found,
{
    lemma_bit_flip_is_rejected(chunk, at, bit);
}

/// One chunk: a length, a type code, data, and the checksum of type code and
/// data.
#[derive(Debug, Eq)]
pub struct Chunk {
    length: u32,
    chunk_type: ChunkType,
    data: Vec<u8>,
    crc: u32,
}

impl View for Chunk {
    type V = ChunkView;

    closed spec fn view(&self) -> ChunkView {
        ChunkView {
            length: self.length,
            chunk_type: self.chunk_type@,
            data: self.data@,
            crc: self.crc,
        }
    }
}

impl Chunk {
    /// Every chunk holds a type code, the number of its data bytes as its
    /// length, and the checksum of its type code and data.
    #[verifier::type_invariant]
    pub open spec fn well_formed(&self) -> bool {
        self@.well_formed()
    }

    /// The chunk of the given type that holds `data`. The data must not be
    /// longer than the length field of a record can say.
    pub fn new(chunk_type: ChunkType, data: Vec<u8>) -> (chunk: Chunk)
        requires
            data@.len() <= u32::MAX,
        ensures
            chunk@ == new_chunk(chunk_type@, data@),
            chunk@.well_formed(),
    {
        proof {
            use_type_invariant(&chunk_type);
        }
        let crc = Chunk::calculate_crc(&chunk_type, &data);
        let length: u32 = data.len() as u32;
        Chunk { length, chunk_type, data, crc }
    }

    /// The checksum of a type code followed by data.
    fn calculate_crc(chunk_type: &ChunkType, data: &Vec<u8>) -> (crc: u32)
        ensures
            crc == checksum(chunk_type@ + data@),
    {
        Chunk::calculate_crc_with(&Crc32::new(), chunk_type, data)
    }

    /// The checksum of a type code followed by data, by a table at hand.
    fn calculate_crc_with(engine: &Crc32, chunk_type: &ChunkType, data: &Vec<u8>) -> (crc: u32)
        ensures
            crc == checksum(chunk_type@ + data@),
    {
        let code = chunk_type.bytes();
        let after_code = engine.update(ALL_ONES, code.as_slice());
        let after_data = engine.update(after_code, data.as_slice());
        proof {
            lemma_register_after_concat(ALL_ONES, chunk_type@, data@);
        }
        after_data ^ ALL_ONES
    }

    /// Parses a record, computing checksums by a table at hand.
    pub(crate) fn parse_with(engine: &Crc32, value: &[u8]) -> (r: Result<Chunk, PngError>)
        ensures
            ok_view(r) == parse_chunk(value@),
    {
        let end = value.len();
        if end < RECORD_OVERHEAD {
            return Err(PngError::MalformedRecord);
        }
        let length = read_u32_be(value, 0);
        let code: [u8; 4] = [value[4], value[5], value[6], value[7]];
        assert(code@ =~= value@.subrange(4, 8));
        let chunk_type = match ChunkType::try_from(code) {
            Ok(t) => t,
            Err(e) => {
                return Err(e);
            },
        };
        if length as usize != end - RECORD_OVERHEAD {
            return Err(PngError::MalformedRecord);
        }
        let data = slice_to_vec(slice_subrange(value, 8, end - 4));
        let crc = read_u32_be(value, end - 4);
        let expected = Chunk::calculate_crc_with(engine, &chunk_type, &data);
        if crc != expected {
            return Err(PngError::ChecksumMismatch { found: crc, expected });
        }
        Ok(Chunk { length, chunk_type, data, crc })
    }

    /// The record of this chunk: length, type code, data and checksum.
    pub fn as_bytes(&self) -> (bytes: Vec<u8>)
        ensures
            bytes@ == self@.to_bytes(),
    {
        let mut bytes: Vec<u8> = Vec::new();
        push_u32_be(&mut bytes, self.length);
        let code = self.chunk_type.bytes();
        bytes.extend_from_slice(code.as_slice());
        bytes.extend_from_slice(self.data.as_slice());
        push_u32_be(&mut bytes, self.crc);
        assert(bytes@ =~= self@.to_bytes());
        bytes
    }

    /// The length field of this chunk.
    pub fn length(&self) -> (length: u32)
        ensures
            length == self@.length,
    {
        self.length
    }

    /// The checksum of this chunk.
    pub fn crc(&self) -> (crc: u32)
        ensures
            crc == self@.crc,
            crc == checksum(self@.chunk_type + self@.data),
    {
        proof {
            use_type_invariant(self);
        }
        self.crc
    }

    /// The type code of this chunk.
    pub fn chunk_type(&self) -> (chunk_type: &ChunkType)
        ensures
            chunk_type@ == self@.chunk_type,
    {
        &self.chunk_type
    }

    /// The data of this chunk.
    pub fn data(&self) -> (data: &[u8])
        ensures
            data@ == self@.data,
    {
        self.data.as_slice()
    }

    /// The data of this chunk as text. Fails with `NonAsciiByte`, holding the
    /// first byte that is outside ASCII, if there is such a byte.
    pub fn data_as_string(&self) -> (r: Result<String, PngError>)
        ensures
            match first_non_ascii(self@.data) {
                Some(b) => r == Err::<String, PngError>(PngError::NonAsciiByte(b)),
                None => r matches Ok(text) && text@ == ascii_text(self@.data),
            },
            r is Ok <==> is_ascii_bytes(self@.data),
    {
        let data = self.data.as_slice();
        let mut i: usize = 0;
        while i < data.len()
            invariant
                i <= data.len(),
                data@ == self@.data,
                forall|j: int| 0 <= j < i ==> #[trigger] data@[j] < 128,
            decreases data.len() - i,
        {
            let b: u8 = data[i];
            if b >= 128 {
                proof {
                    lemma_first_rejected_skips_accepted(data@, |b: u8| b < 128, i as int);
                    assert(data@.skip(i as int).first() == b);
                    lemma_first_rejected_none(data@, |b: u8| b < 128);
                }
                return Err(PngError::NonAsciiByte(b));
            }
            i += 1;
        }
        proof {
            lemma_first_rejected_none(data@, |b: u8| b < 128);
        }
        Ok(text_from_ascii(data))
    }

    /// The data of this chunk as text, for data that are ASCII.
    pub fn to_string(&self) -> (text: String)
        requires
            is_ascii_bytes(self@.data),
        ensures
            text@ == ascii_text(self@.data),
    {
        text_from_ascii(self.data.as_slice())
    }
}

impl<'a> TryFromSpecImpl<&'a [u8]> for Chunk {
    /// What `try_from` returns is stated over views, in its own contract.
    open spec fn obeys_try_from_spec() -> bool {
        false
    }

    open spec fn try_from_spec(value: &'a [u8]) -> Result<Chunk, PngError> {
        arbitrary()
    }
}

impl<'a> TryFrom<&'a [u8]> for Chunk {
    type Error = PngError;

    /// The chunk that the record `value` holds. Fails with `MalformedRecord`
    /// on fewer than twelve bytes; with `InvalidByte` where the type code
    /// holds a byte that is no letter; with `MalformedRecord` where the
    /// length field is not the number of bytes between type code and
    /// checksum; and with `ChecksumMismatch` where the last four bytes are
    /// not the checksum of type code and data.
    fn try_from(value: &'a [u8]) -> (r: Result<Chunk, PngError>)
        ensures
            ok_view(r) == parse_chunk(value@),
    {
        Chunk::parse_with(&Crc32::new(), value)
    }
}

impl PartialEqSpecImpl for Chunk {
    open spec fn obeys_eq_spec() -> bool {
        true
    }

    open spec fn eq_spec(&self, other: &Chunk) -> bool {
        self@ == other@
    }
}

impl PartialEq for Chunk {
    /// Two chunks are equal when all four parts are.
    fn eq(&self, other: &Chunk) -> (r: bool) {
        let r = self.length == other.length && self.chunk_type == other.chunk_type && self.data
            == other.data && self.crc == other.crc;
        proof {
            if r {
                assert(self.data@ =~= other.data@);
            }
        }
        r
    }
}

} // verus!
