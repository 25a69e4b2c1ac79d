//! Bytes as text.

use vstd::prelude::*;
use vstd::utf8::*;

verus! {

/// The first byte of `bytes` that `accepts` does not hold of, if there is
/// one.
pub open spec fn first_rejected(bytes: Seq<u8>, accepts: spec_fn(u8) -> bool) -> Option<u8>
    decreases bytes.len(),
{
    if bytes.len() == 0 {
        None
    } else if !accepts(bytes.first()) {
        Some(bytes.first())
    } else {
        first_rejected(bytes.drop_first(), accepts)
    }
}

/// Accepted bytes before position `at` do not decide: the first rejected
/// byte is the first one from `at` on.
pub proof fn lemma_first_rejected_skips_accepted(
    bytes: Seq<u8>,
    accepts: spec_fn(u8) -> bool,
    at: int,
)
    requires
        0 <= at <= bytes.len(),
        forall|i: int| 0 <= i < at ==> accepts(#[trigger] bytes[i]),
    ensures
        first_rejected(bytes, accepts) == first_rejected(bytes.skip(at), accepts),
    decreases at,
{
    if at == 0 {
        assert(bytes.skip(0) =~= bytes);
    } else {
        lemma_first_rejected_skips_accepted(bytes, accepts, at - 1);
        let rest = bytes.skip(at - 1);
        assert(rest.first() == bytes[at - 1]);
        assert(rest.drop_first() =~= bytes.skip(at));
    }
}

/// Nothing is rejected exactly where every byte is accepted.
pub proof fn lemma_first_rejected_none(bytes: Seq<u8>, accepts: spec_fn(u8) -> bool)
    ensures
        first_rejected(bytes, accepts) is None <==> forall|i: int|
            0 <= i < bytes.len() ==> accepts(#[trigger] bytes[i]),
    decreases bytes.len(),
{
    if bytes.len() > 0 {
        let rest = bytes.drop_first();
        lemma_first_rejected_none(rest, accepts);
        if accepts(bytes.first()) {
            if first_rejected(rest, accepts) is None {
                assert forall|i: int| 0 <= i < bytes.len() implies accepts(#[trigger] bytes[i]) by {
                    if i > 0 {
                        assert(rest[i - 1] == bytes[i]);
                    }
                }
            } else {
                let i = choose|i: int| 0 <= i < rest.len() && !accepts(#[trigger] rest[i]);
                assert(bytes[i + 1] == rest[i]);
            }
        } else {
            assert(bytes[0] == bytes.first());
        }
    }
}

/// True when every byte is below 128.
pub open spec fn is_ascii_bytes(bytes: Seq<u8>) -> bool {
    forall|i: int| 0 <= i < bytes.len() ==> #[trigger] bytes[i] < 128
}

/// The first byte of `bytes` that is not below 128, if there is one.
pub open spec fn first_non_ascii(bytes: Seq<u8>) -> Option<u8> {
    first_rejected(bytes, |b: u8| b < 128)
}

/// The text whose characters are the given ASCII bytes.
pub open spec fn ascii_text(bytes: Seq<u8>) -> Seq<char> {
    Seq::new(bytes.len(), |i: int| bytes[i] as char)
}

/// ASCII bytes are valid UTF-8 and decode to themselves.
pub proof fn lemma_ascii_is_utf8(bytes: Seq<u8>)
    requires
        is_ascii_bytes(bytes),
    ensures
        valid_utf8(bytes),
        decode_utf8(bytes) == ascii_text(bytes),
    decreases bytes.len(),
{
    if bytes.len() > 0 {
        let rest = bytes.subrange(1, bytes.len() as int);
        assert(bytes[0] < 128);
        assert(pop_first_scalar(bytes) == rest);
        assert forall|i: int| 0 <= i < rest.len() implies #[trigger] rest[i] < 128 by {
            assert(rest[i] == bytes[i + 1]);
        }
        lemma_ascii_is_utf8(rest);
        let b = bytes[0];
        assert(codepoint_width_1(b) == b as u32) by {
            assert((b & 0x7f) as u32 == b as u32) by (bit_vector)
                requires
                    b < 128,
            ;
        }
        assert(decode_utf8(bytes) =~= ascii_text(bytes));
    } else {
        assert(decode_utf8(bytes) =~= ascii_text(bytes));
    }
}

/// Text that encodes to ASCII bytes is the text of those bytes.
pub proof fn lemma_text_of_ascii_encoding(text: Seq<char>)
    requires
        is_ascii_bytes(encode_utf8(text)),
    ensures
        text == ascii_text(encode_utf8(text)),
{
    encode_utf8_decode_utf8(text);
    lemma_ascii_is_utf8(encode_utf8(text));
}

/// Calls `String::from_utf8_lossy` and takes the text as an owned string.
/// Of the result this claims only the valid case: bytes that are valid UTF-8
/// give the text that they encode.
#[verifier::external_body]
pub(crate) fn text_from_utf8_lossy(bytes: &[u8]) -> (text: String)
    ensures
        valid_utf8(bytes@) ==> text@ == decode_utf8(bytes@),
{
    String::from_utf8_lossy(bytes).into_owned()
}

/// The text of ASCII bytes.
pub(crate) fn text_from_ascii(bytes: &[u8]) -> (text: String)
    requires
        is_ascii_bytes(bytes@),
    ensures
        text@ == ascii_text(bytes@),
{
    proof {
        lemma_ascii_is_utf8(bytes@);
    }
    text_from_utf8_lossy(bytes)
}

} // verus!
