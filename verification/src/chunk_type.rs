//! Chunk type codes.
//!
//! A type code is four ASCII letters. The case of each letter, which is bit 5
//! of its byte, carries one flag: a clear bit is an uppercase letter.

use crate::error::{ok_view, PngError};
use crate::text::{
    ascii_text, first_rejected, lemma_ascii_is_utf8, lemma_first_rejected_none,
    lemma_first_rejected_skips_accepted, lemma_text_of_ascii_encoding, text_from_ascii,
};
use std::str::FromStr;
use vstd::prelude::*;
use vstd::std_specs::cmp::PartialEqSpecImpl;
use vstd::std_specs::convert::TryFromSpecImpl;
use vstd::string::StringSliceAdditionalSpecFns;
use vstd::utf8::{encode_utf8, is_ascii_chars, is_ascii_chars_encode_utf8};

verus! {

/// The bit of a letter that tells its case.
pub const CASE_BIT: u8 = 0x20;

/// True for the bytes `A` to `Z`.
pub open spec fn is_uppercase(b: u8) -> bool {
    0x41 <= b <= 0x5A
}

/// True for the bytes `a` to `z`.
pub open spec fn is_lowercase(b: u8) -> bool {
    0x61 <= b <= 0x7A
}

/// True for the bytes that may stand in a type code.
pub open spec fn is_letter(b: u8) -> bool {
    is_uppercase(b) || is_lowercase(b)
}

/// True when `code` is a type code: four bytes, each a letter.
pub open spec fn is_type_code(code: Seq<u8>) -> bool {
    &&& code.len() == 4
    &&& forall|i: int| 0 <= i < 4 ==> is_letter(#[trigger] code[i])
}

/// The first byte of `bytes` that is no letter, if there is one.
pub open spec fn first_non_letter(bytes: Seq<u8>) -> Option<u8> {
    first_rejected(bytes, |b: u8| is_letter(b))
}

/// The type code that four bytes make, or the reason why they make none.
pub open spec fn code_from_bytes(bytes: Seq<u8>) -> Result<Seq<u8>, PngError>
    recommends
        bytes.len() == 4,
{
    match first_non_letter(bytes) {
        Some(b) => Err(PngError::InvalidByte(b)),
        None => Ok(bytes),
    }
}

/// The type code that a text names, or the reason why it names none. The
/// text is measured and read as its UTF-8 bytes.
pub open spec fn code_from_text(text: Seq<char>) -> Result<Seq<u8>, PngError> {
    let bytes = encode_utf8(text);
    if bytes.len() != 4 {
        Err(PngError::InvalidLength(bytes.len() as usize))
    } else {
        code_from_bytes(bytes)
    }
}

/// Four bytes make a type code exactly when each is a letter, and the code
/// is then those bytes.
pub proof fn lemma_code_from_bytes(bytes: Seq<u8>)
    requires
        bytes.len() == 4,
    ensures
        is_type_code(bytes) <==> code_from_bytes(bytes) is Ok,
        is_type_code(bytes) ==> code_from_bytes(bytes) == Ok::<Seq<u8>, PngError>(bytes),
{
    lemma_first_rejected_none(bytes, |b: u8| is_letter(b));
}

/// True for the characters `A` to `Z` and `a` to `z`.
pub open spec fn is_letter_char(c: char) -> bool {
    ('A' <= c <= 'Z') || ('a' <= c <= 'z')
}

/// A text of four ASCII letters names a type code, and the text form of that
/// code is the text again.
pub proof fn lemma_text_names_its_code(text: Seq<char>)
    requires
        text.len() == 4,
        forall|i: int| 0 <= i < 4 ==> is_letter_char(#[trigger] text[i]),
    ensures
        code_from_text(text) matches Ok(code) && is_type_code(code) && ascii_text(code) == text,
{
    let bytes = encode_utf8(text);
    assert(is_ascii_chars(text));
    is_ascii_chars_encode_utf8(text);
    assert forall|i: int| 0 <= i < 4 implies is_letter(#[trigger] bytes[i]) by {
        assert(is_letter_char(text[i]));
        assert(bytes[i] == text[i] as u8);
    }
    lemma_code_from_bytes(bytes);
    assert forall|i: int| 0 <= i < bytes.len() implies #[trigger] bytes[i] < 128 by {
        lemma_case_bit(bytes[i]);
    }
    lemma_text_of_ascii_encoding(text);
}

/// In a letter the case bit is clear exactly when the letter is uppercase.
pub proof fn lemma_case_bit(b: u8)
    requires
        is_letter(b),
    ensures
        (b & CASE_BIT == 0) <==> is_uppercase(b),
        (b & CASE_BIT != 0) <==> is_lowercase(b),
        b < 128,
{
    assert((0x41 <= b <= 0x5A || 0x61 <= b <= 0x7A) ==> ((b & 0x20 == 0) <==> (0x41 <= b <= 0x5A)))
        by (bit_vector);
}

/// The type code of a chunk: four ASCII letters.
#[derive(Debug, Clone, Copy, Eq)]
pub struct ChunkType {
    bytes: [u8; 4],
}

impl View for ChunkType {
    type V = Seq<u8>;

    closed spec fn view(&self) -> Seq<u8> {
        self.bytes@
    }
}

impl ChunkType {
    /// Every value of this type holds a type code.
    #[verifier::type_invariant]
    pub open spec fn holds_type_code(&self) -> bool {
        is_type_code(self@)
    }

    /// The text form of this type code.
    pub open spec fn text(&self) -> Seq<char> {
        ascii_text(self@)
    }

    /// The four bytes of this type code.
    pub fn bytes(&self) -> (b: [u8; 4])
        ensures
            b@ == self@,
            is_type_code(self@),
    {
        proof {
            use_type_invariant(self);
        }
        self.bytes
    }

    /// The four letters of this type code as text.
    pub fn to_string(&self) -> (s: String)
        ensures
            s@ == self.text(),
    {
        proof {
            use_type_invariant(self);
            assert forall|i: int| 0 <= i < self.bytes@.len() implies #[trigger] self.bytes@[i]
                < 128 by {
                lemma_case_bit(self.bytes@[i]);
            }
        }
        text_from_ascii(self.bytes.as_slice())
    }

    /// True when this type code reads as `name`.
    pub fn is_named(&self, name: &str) -> (r: bool)
        ensures
            r == (self.text() == name@),
    {
        proof {
            use_type_invariant(self);
        }
        let raw = name.as_bytes();
        let r = raw.len() == 4 && raw[0] == self.bytes[0] && raw[1] == self.bytes[1] && raw[2]
            == self.bytes[2] && raw[3] == self.bytes[3];
        proof {
            assert forall|i: int| 0 <= i < self@.len() implies #[trigger] self@[i] < 128 by {
                lemma_case_bit(self@[i]);
            }
            if r {
                assert(raw@ =~= self@);
                lemma_text_of_ascii_encoding(name@);
            }
            if self.text() == name@ {
                lemma_ascii_is_utf8(self@);
                vstd::utf8::decode_utf8_encode_utf8(self@);
            }
        }
        r
    }

    /// True when the chunk is critical: the first letter is uppercase.
    pub fn is_critical(&self) -> (r: bool)
        ensures
            r == (self@[0] & CASE_BIT == 0),
            r == is_uppercase(self@[0]),
    {
        proof {
            use_type_invariant(self);
            lemma_case_bit(self@[0]);
        }
        !ChunkType::get_bit_at(self.bytes[0], 5).unwrap()
    }

    /// True when the chunk is public: the second letter is uppercase.
    pub fn is_public(&self) -> (r: bool)
        ensures
            r == (self@[1] & CASE_BIT == 0),
            r == is_uppercase(self@[1]),
    {
        proof {
            use_type_invariant(self);
            lemma_case_bit(self@[1]);
        }
        !ChunkType::get_bit_at(self.bytes[1], 5).unwrap()
    }

    /// True when the reserved bit is as it should be: the third letter is
    /// uppercase.
    pub fn is_reserved_bit_valid(&self) -> (r: bool)
        ensures
            r == (self@[2] & CASE_BIT == 0),
            r == is_uppercase(self@[2]),
    {
        proof {
            use_type_invariant(self);
            lemma_case_bit(self@[2]);
        }
        !ChunkType::get_bit_at(self.bytes[2], 5).unwrap()
    }

    /// True when the chunk is safe to copy: the fourth letter is lowercase.
    pub fn is_safe_to_copy(&self) -> (r: bool)
        ensures
            r == (self@[3] & CASE_BIT != 0),
            r == is_lowercase(self@[3]),
    {
        proof {
            use_type_invariant(self);
            lemma_case_bit(self@[3]);
        }
        ChunkType::get_bit_at(self.bytes[3], 5).unwrap()
    }

    /// The same as [`ChunkType::is_reserved_bit_valid`], and no more than
    /// that.
    pub fn is_valid(&self) -> (r: bool)
        ensures
            r == (self@[2] & CASE_BIT == 0),
            r == is_uppercase(self@[2]),
    {
        self.is_reserved_bit_valid()
    }

    /// Whether bit `n` of `input` is set; bit 0 is the lowest. A byte has
    /// no bit 8 or higher: there is no answer then.
    fn get_bit_at(input: u8, n: u8) -> (bit: Option<bool>)
        ensures
            n < 8 ==> bit == Some(input & (1u8 << n) != 0),
            n >= 8 ==> bit is None,
            n == 5 ==> bit == Some(input & CASE_BIT != 0),
    {
        if n < 8 {
            proof {
                assert(1u8 << 5u8 == 0x20u8) by (bit_vector);
            }
            Some(input & (1u8 << n) != 0)
        } else {
            None
        }
    }
}

impl TryFromSpecImpl<[u8; 4]> for ChunkType {
    open spec fn obeys_try_from_spec() -> bool {
        true
    }

    closed spec fn try_from_spec(value: [u8; 4]) -> Result<ChunkType, PngError> {
        match code_from_bytes(value@) {
            Ok(_) => Ok(ChunkType { bytes: value }),
            Err(e) => Err(e),
        }
    }
}

impl TryFrom<[u8; 4]> for ChunkType {
    type Error = PngError;

    /// The type code of four bytes. Fails with `InvalidByte`, holding the
    /// first byte that is no ASCII letter, if there is such a byte.
    fn try_from(value: [u8; 4]) -> (r: Result<ChunkType, PngError>)
        ensures
            ok_view(r) == code_from_bytes(value@),
            r is Ok <==> is_type_code(value@),
    {
        let mut i: usize = 0;
        while i < 4
            invariant
                i <= 4,
                forall|j: int| 0 <= j < i ==> is_letter(#[trigger] value@[j]),
            decreases 4 - i,
        {
            let b: u8 = value[i];
            if !((0x41 <= b && b <= 0x5A) || (0x61 <= b && b <= 0x7A)) {
                proof {
                    lemma_first_rejected_skips_accepted(value@, |b: u8| is_letter(b), i as int);
                    assert(value@.skip(i as int).first() == b);
                    lemma_code_from_bytes(value@);
                }
                return Err(PngError::InvalidByte(b));
            }
            i += 1;
        }
        proof {
            lemma_code_from_bytes(value@);
        }
        Ok(ChunkType { bytes: value })
    }
}

impl FromStr for ChunkType {
    type Err = PngError;

    /// The type code that `s` names. Fails with `InvalidLength`, holding the
    /// length of `s` in bytes, unless that length is four, and else as
    /// `try_from` does.
    fn from_str(s: &str) -> (r: Result<ChunkType, PngError>)
        ensures
            ok_view(r) == code_from_text(s@),
    {
        if s.len() != 4 {
            return Err(PngError::InvalidLength(s.len()));
        }
        let raw = s.as_bytes();
        let bytes: [u8; 4] = [raw[0], raw[1], raw[2], raw[3]];
        assert(bytes@ =~= raw@);
        ChunkType::try_from(bytes)
    }
}

impl PartialEqSpecImpl for ChunkType {
    open spec fn obeys_eq_spec() -> bool {
        true
    }

    open spec fn eq_spec(&self, other: &ChunkType) -> bool {
        self@ == other@
    }
}

impl PartialEq for ChunkType {
    /// Two type codes are equal when their four bytes are.
    fn eq(&self, other: &ChunkType) -> (r: bool) {
        let r = self.bytes[0] == other.bytes[0] && self.bytes[1] == other.bytes[1]
            && self.bytes[2] == other.bytes[2] && self.bytes[3] == other.bytes[3];
        assert(r == (self@ =~= other@));
        r
    }
}

} // verus!
