//! PNG containers: the signature and a sequence of chunks.

use crate::chunk::{
    lemma_parse_of_record, lemma_record_layout, lemma_record_of_parse, parse_chunk, Chunk,
    ChunkView, RECORD_OVERHEAD,
};
use crate::crc::Crc32;
use crate::error::{ok_view, PngError};
use crate::text::ascii_text;
use crate::wire::{lemma_u32_be_round_trip, read_u32_be, u32_from_be, u32_to_be};
use vstd::prelude::*;
use vstd::slice::slice_subrange;
use vstd::std_specs::cmp::PartialEqSpecImpl;
use vstd::std_specs::convert::TryFromSpecImpl;

verus! {

/// The eight bytes that every PNG stream begins with.
pub const SIGNATURE: [u8; 8] = [137, 80, 78, 71, 13, 10, 26, 10];

/// The records of `chunks`, one after the other.
pub open spec fn records(chunks: Seq<ChunkView>) -> Seq<u8>
    decreases chunks.len(),
{
    if chunks.len() == 0 {
        Seq::empty()
    } else {
        chunks.first().to_bytes() + records(chunks.drop_first())
    }
}

/// The stream of a container that holds `chunks`: the signature, then the
/// records.
pub open spec fn png_bytes(chunks: Seq<ChunkView>) -> Seq<u8> {
    SIGNATURE@ + records(chunks)
}

/// The chunks whose records make up `bytes`, or the reason why `bytes` are
/// no run of records. Each record ends where its length field says, so that
/// every record handed on has the length it declares; the first record that
/// fails decides the error.
pub open spec fn parse_records(bytes: Seq<u8>) -> Result<Seq<ChunkView>, PngError>
    decreases bytes.len(),
{
    if bytes.len() == 0 {
        Ok(Seq::empty())
    } else if bytes.len() < RECORD_OVERHEAD {
        Err(PngError::MalformedRecord)
    } else {
        let size = RECORD_OVERHEAD + u32_from_be(bytes.subrange(0, 4));
        if bytes.len() < size {
            Err(PngError::MalformedRecord)
        } else {
            match parse_chunk(bytes.subrange(0, size)) {
                Err(e) => Err(e),
                Ok(first) => match parse_records(bytes.subrange(size, bytes.len() as int)) {
                    Err(e) => Err(e),
                    Ok(rest) => Ok(seq![first] + rest),
                },
            }
        }
    }
}

/// The chunks of the container that `bytes` holds, or the reason why `bytes`
/// holds none.
pub open spec fn parse_png(bytes: Seq<u8>) -> Result<Seq<ChunkView>, PngError> {
    if bytes.len() < 8 || bytes.subrange(0, 8) != SIGNATURE@ {
        Err(PngError::BadSignature)
    } else {
        parse_records(bytes.subrange(8, bytes.len() as int))
    }
}

/// `found` with the chunks of `before` put in front of what it holds.
pub open spec fn prepend(before: Seq<ChunkView>, found: Result<Seq<ChunkView>, PngError>) -> Result<
    Seq<ChunkView>,
    PngError,
> {
    match found {
        Ok(rest) => Ok(before + rest),
        Err(e) => Err(e),
    }
}

/// True when the type code of `chunk` reads as `name`.
pub open spec fn has_type(chunk: ChunkView, name: Seq<char>) -> bool {
    ascii_text(chunk.chunk_type) == name
}

/// True when `at` is the place of the first chunk of type `name`.
pub open spec fn is_first_of_type(chunks: Seq<ChunkView>, name: Seq<char>, at: int) -> bool {
    &&& 0 <= at < chunks.len()
    &&& has_type(chunks[at], name)
    &&& forall|j: int| 0 <= j < at ==> !has_type(#[trigger] chunks[j], name)
}

/// The place of the first chunk of type `name`, if there is one.
pub open spec fn first_of_type(chunks: Seq<ChunkView>, name: Seq<char>) -> Option<int> {
    if exists|at: int| is_first_of_type(chunks, name, at) {
        Some(choose|at: int| is_first_of_type(chunks, name, at))
    } else {
        None
    }
}

/// `chunks` without the first chunk of type `name`.
pub open spec fn without_first_of_type(chunks: Seq<ChunkView>, name: Seq<char>) -> Seq<ChunkView> {
    match first_of_type(chunks, name) {
        Some(at) => chunks.remove(at),
        None => chunks,
    }
}

/// True when every chunk is well formed.
pub open spec fn all_well_formed(chunks: Seq<ChunkView>) -> bool {
    forall|i: int| 0 <= i < chunks.len() ==> (#[trigger] chunks[i]).well_formed()
}

/// The first chunk of a type is where `is_first_of_type` holds, and there is
/// none exactly where no chunk has the type.
pub proof fn lemma_first_of_type(chunks: Seq<ChunkView>, name: Seq<char>)
    ensures
        forall|at: int|
            is_first_of_type(chunks, name, at) <==> first_of_type(chunks, name) == Some(at),
        first_of_type(chunks, name) is None <==> forall|i: int|
            0 <= i < chunks.len() ==> !has_type(#[trigger] chunks[i], name),
{
    assert forall|at: int| is_first_of_type(chunks, name, at) implies first_of_type(chunks, name)
        == Some(at) by {
        let found = choose|at: int| is_first_of_type(chunks, name, at);
        assert(!(found < at));
        assert(!(at < found));
    }
    if first_of_type(chunks, name) is None && exists|i: int|
        0 <= i < chunks.len() && has_type(#[trigger] chunks[i], name) {
        let i = choose|i: int| 0 <= i < chunks.len() && has_type(#[trigger] chunks[i], name);
        lemma_some_match_has_first(chunks, name, i);
    }
}

/// Where some chunk up to `at` has the type, one of them is the first.
proof fn lemma_some_match_has_first(chunks: Seq<ChunkView>, name: Seq<char>, at: int)
    requires
        0 <= at < chunks.len(),
        has_type(chunks[at], name),
    ensures
        exists|first: int| is_first_of_type(chunks, name, first),
    decreases at,
{
    if exists|j: int| 0 <= j < at && has_type(#[trigger] chunks[j], name) {
        let j = choose|j: int| 0 <= j < at && has_type(#[trigger] chunks[j], name);
        lemma_some_match_has_first(chunks, name, j);
    } else {
        assert(is_first_of_type(chunks, name, at));
    }
}

/// After the first chunk of a type is removed from a container that holds
/// at most one chunk of that type, the container holds none: a search finds
/// nothing, and there is nothing more to remove.
pub proof fn lemma_removed_type_is_gone(chunks: Seq<ChunkView>, name: Seq<char>)
    requires
        forall|i: int, j: int|
            0 <= i < chunks.len() && 0 <= j < chunks.len() && has_type(#[trigger] chunks[i], name)
                && has_type(#[trigger] chunks[j], name) ==> i == j,
    ensures
        first_of_type(without_first_of_type(chunks, name), name) is None,
        without_first_of_type(without_first_of_type(chunks, name), name) == without_first_of_type(
            chunks,
            name,
        ),
{
    let after = without_first_of_type(chunks, name);
    lemma_first_of_type(chunks, name);
    lemma_first_of_type(after, name);
    match first_of_type(chunks, name) {
        Some(at) => {
            assert forall|i: int| 0 <= i < after.len() implies !has_type(
                #[trigger] after[i],
                name,
            ) by {
                if i < at {
                    assert(after[i] == chunks[i]);
                } else {
                    assert(after[i] == chunks[i + 1]);
                }
            }
        },
        None => {},
    }
}

/// The records of a sequence with one more chunk at its end.
pub proof fn lemma_records_push(chunks: Seq<ChunkView>, last: ChunkView)
    ensures
        records(chunks.push(last)) == records(chunks) + last.to_bytes(),
    decreases chunks.len(),
{
    let longer = chunks.push(last);
    if chunks.len() == 0 {
        assert(longer.first() == last);
        assert(longer.drop_first() =~= Seq::<ChunkView>::empty());
        assert(records(longer.drop_first()) =~= Seq::<u8>::empty());
        assert(records(longer) =~= last.to_bytes());
        assert(records(chunks) + last.to_bytes() =~= last.to_bytes());
    } else {
        assert(longer.first() == chunks.first());
        assert(longer.drop_first() =~= chunks.drop_first().push(last));
        lemma_records_push(chunks.drop_first(), last);
        assert(records(longer) =~= records(chunks) + last.to_bytes());
    }
}

/// A run of records that begins with the record of a well-formed chunk
/// parses to that chunk and what the rest parses to.
pub proof fn lemma_parse_after_record(first: ChunkView, tail: Seq<u8>)
    requires
        first.well_formed(),
    ensures
        parse_records(first.to_bytes() + tail) == prepend(seq![first], parse_records(tail)),
{
    let head = first.to_bytes();
    let bytes = head + tail;
    lemma_record_layout(first);
    lemma_u32_be_round_trip(first.length);
    lemma_parse_of_record(first);
    let size = head.len() as int;
    assert(bytes.subrange(0, 4) == u32_to_be(first.length)) by {
        assert(bytes.subrange(0, 4) =~= head.subrange(0, 4));
    }
    assert(size == RECORD_OVERHEAD + u32_from_be(bytes.subrange(0, 4)));
    assert(bytes.subrange(0, size) == head) by {
        assert(bytes.subrange(0, size) =~= head);
    }
    assert(bytes.subrange(size, bytes.len() as int) == tail) by {
        assert(bytes.subrange(size, bytes.len() as int) =~= tail);
    }
}

/// The records of well-formed chunks parse to those chunks.
pub proof fn lemma_parse_of_records(chunks: Seq<ChunkView>)
    requires
        all_well_formed(chunks),
    ensures
        parse_records(records(chunks)) == Ok::<Seq<ChunkView>, PngError>(chunks),
    decreases chunks.len(),
{
    if chunks.len() == 0 {
        assert(chunks =~= Seq::empty());
    } else {
        let first = chunks.first();
        let rest = chunks.drop_first();
        assert(first.well_formed());
        assert forall|i: int| 0 <= i < rest.len() implies (#[trigger] rest[i]).well_formed() by {
            assert(rest[i] == chunks[i + 1]);
        }
        lemma_parse_of_records(rest);
        lemma_parse_after_record(first, records(rest));
        assert(seq![first] + rest =~= chunks);
    }
}

/// A container, written out and parsed, is the same container.
pub proof fn lemma_png_round_trip(chunks: Seq<ChunkView>)
    requires
        all_well_formed(chunks),
    ensures
        parse_png(png_bytes(chunks)) == Ok::<Seq<ChunkView>, PngError>(chunks),
{
    let bytes = png_bytes(chunks);
    assert(bytes.subrange(0, 8) =~= SIGNATURE@);
    assert(bytes.subrange(8, bytes.len() as int) =~= records(chunks));
    lemma_parse_of_records(chunks);
}

/// Whatever parses as a run of records consists of well-formed chunks, and
/// their records are the input, byte for byte.
pub proof fn lemma_records_of_parse(bytes: Seq<u8>)
    requires
        parse_records(bytes) is Ok,
    ensures
        all_well_formed(parse_records(bytes)->Ok_0),
        records(parse_records(bytes)->Ok_0) == bytes,
    decreases bytes.len(),
{
    let chunks = parse_records(bytes)->Ok_0;
    if bytes.len() == 0 {
        assert(records(chunks) =~= bytes);
    } else {
        let size = RECORD_OVERHEAD + u32_from_be(bytes.subrange(0, 4));
        let head = bytes.subrange(0, size);
        let tail = bytes.subrange(size, bytes.len() as int);
        let first = parse_chunk(head)->Ok_0;
        let rest = parse_records(tail)->Ok_0;
        lemma_record_of_parse(head);
        lemma_records_of_parse(tail);
        assert(chunks.first() == first);
        assert(chunks.drop_first() =~= rest);
        assert forall|i: int| 0 <= i < chunks.len() implies (#[trigger] chunks[i]).well_formed() by {
            if i > 0 {
                assert(chunks[i] == rest[i - 1]);
            }
        }
        assert(records(chunks) =~= head + tail);
        assert(head + tail =~= bytes);
    }
}

/// Whatever parses as a container is written back as the input, byte for
/// byte.
pub proof fn lemma_png_bytes_of_parse(bytes: Seq<u8>)
    requires
        parse_png(bytes) is Ok,
    ensures
        all_well_formed(parse_png(bytes)->Ok_0),
        png_bytes(parse_png(bytes)->Ok_0) == bytes,
{
    let rest = bytes.subrange(8, bytes.len() as int);
    lemma_records_of_parse(rest);
    assert(bytes.subrange(0, 8) + rest =~= bytes);
}

/// The views of `chunks`, in order.
pub open spec fn views_of(chunks: Seq<Chunk>) -> Seq<ChunkView> {
    chunks.map_values(|c: Chunk| c@)
}

/// A PNG container: an ordered sequence of chunks.
#[derive(Debug, Eq)]
pub struct Png {
    chunks: Vec<Chunk>,
}

impl View for Png {
    type V = Seq<ChunkView>;

    closed spec fn view(&self) -> Seq<ChunkView> {
        views_of(self.chunks@)
    }
}

impl Png {
    /// Every chunk of a container is well formed.
    #[verifier::type_invariant]
    pub open spec fn well_formed(&self) -> bool {
        all_well_formed(self@)
    }

    /// A container without chunks.
    pub fn new() -> (png: Png)
        ensures
            png@ == Seq::<ChunkView>::empty(),
    {
        let png = Png { chunks: Vec::new() };
        assert(png@ =~= Seq::<ChunkView>::empty());
        png
    }

    /// The chunks of this container, in order.
    pub fn chunks(&self) -> (chunks: &[Chunk])
        ensures
            views_of(chunks@) == self@,
            all_well_formed(self@),
    {
        proof {
            use_type_invariant(self);
        }
        self.chunks.as_slice()
    }

    /// Puts `chunk` at the end of this container.
    pub fn append_chunk(&mut self, chunk: Chunk)
        ensures
            final(self)@ == old(self)@.push(chunk@),
    {
        proof {
            use_type_invariant(&*self);
            use_type_invariant(&chunk);
        }
        let mut chunks: Vec<Chunk> = Vec::new();
        std::mem::swap(&mut self.chunks, &mut chunks);
        chunks.push(chunk);
        assert(views_of(chunks@) =~= old(self)@.push(chunk@));
        std::mem::swap(&mut self.chunks, &mut chunks);
    }

    /// The place of the first chunk of type `name`, or the number of chunks
    /// if there is none.
    fn position_of_type(&self, name: &str) -> (at: usize)
        ensures
            at <= self@.len(),
            self@.len() == self.chunks@.len(),
            at < self@.len() ==> first_of_type(self@, name@) == Some(at as int),
            at == self@.len() ==> first_of_type(self@, name@) is None,
    {
        let mut i: usize = 0;
        while i < self.chunks.len()
            invariant
                i <= self.chunks@.len(),
                self@.len() == self.chunks@.len(),
                forall|j: int| 0 <= j < i ==> !has_type(#[trigger] self@[j], name@),
            ensures
                i <= self.chunks@.len(),
                i < self@.len() ==> is_first_of_type(self@, name@, i as int),
                i == self@.len() ==> forall|j: int|
                    0 <= j < self@.len() ==> !has_type(#[trigger] self@[j], name@),
            decreases self.chunks@.len() - i,
        {
            if self.chunks[i].chunk_type().is_named(name) {
                assert(self@[i as int] == self.chunks@[i as int]@);
                break;
            }
            assert(self@[i as int] == self.chunks@[i as int]@);
            i += 1;
        }
        proof {
            lemma_first_of_type(self@, name@);
        }
        i
    }

    /// The first chunk of type `chunk_type`, if there is one.
    pub fn chunk_by_type(&self, chunk_type: &str) -> (found: Option<&Chunk>)
        ensures
            match first_of_type(self@, chunk_type@) {
                Some(at) => found matches Some(chunk) && chunk@ == self@[at],
                None => found is None,
            },
    {
        let at = self.position_of_type(chunk_type);
        if at < self.chunks.len() {
            Some(&self.chunks[at])
        } else {
            None
        }
    }

    /// Removes the first chunk of type `chunk_type`. Fails with `NotFound`,
    /// and changes nothing, if there is none.
    pub fn remove_chunk(&mut self, chunk_type: &str) -> (r: Result<(), PngError>)
        ensures
            final(self)@ == without_first_of_type(old(self)@, chunk_type@),
            match first_of_type(old(self)@, chunk_type@) {
                Some(_) => r == Ok::<(), PngError>(()),
                None => r == Err::<(), PngError>(PngError::NotFound),
            },
    {
        proof {
            use_type_invariant(&*self);
        }
        let at = self.position_of_type(chunk_type);
        if at < self.chunks.len() {
            let mut chunks: Vec<Chunk> = Vec::new();
            std::mem::swap(&mut self.chunks, &mut chunks);
            chunks.remove(at);
            assert(views_of(chunks@) =~= old(self)@.remove(at as int));
            std::mem::swap(&mut self.chunks, &mut chunks);
            Ok(())
        } else {
            Err(PngError::NotFound)
        }
    }

    /// The stream of this container: the signature, then the record of each
    /// chunk in order.
    pub fn as_bytes(&self) -> (bytes: Vec<u8>)
        ensures
            bytes@ == png_bytes(self@),
    {
        let mut bytes: Vec<u8> = Vec::new();
        bytes.extend_from_slice(SIGNATURE.as_slice());
        assert(bytes@ =~= SIGNATURE@);
        let mut i: usize = 0;
        while i < self.chunks.len()
            invariant
                i <= self.chunks@.len(),
                self@.len() == self.chunks@.len(),
                bytes@ == SIGNATURE@ + records(self@.take(i as int)),
            decreases self.chunks@.len() - i,
        {
            let record = self.chunks[i].as_bytes();
            bytes.extend_from_slice(record.as_slice());
            proof {
                assert(self@[i as int] == self.chunks@[i as int]@);
                assert(self@.take(i + 1) =~= self@.take(i as int).push(self@[i as int]));
                lemma_records_push(self@.take(i as int), self@[i as int]);
                assert(bytes@ =~= SIGNATURE@ + records(self@.take(i + 1)));
            }
            i += 1;
        }
        assert(self@.take(i as int) =~= self@);
        bytes
    }
}

impl<'a> TryFromSpecImpl<&'a [u8]> for Png {
    /// What `try_from` returns is stated over views, in its own contract.
    open spec fn obeys_try_from_spec() -> bool {
        false
    }

    open spec fn try_from_spec(value: &'a [u8]) -> Result<Png, PngError> {
        arbitrary()
    }
}

impl<'a> TryFrom<&'a [u8]> for Png {
    type Error = PngError;

    /// The container that the stream `value` holds. Fails with
    /// `BadSignature` unless `value` begins with the signature; with
    /// `MalformedRecord` where what is left of `value` is shorter than a
    /// record, or than the record that its length field declares; and as
    /// parsing a chunk fails, for the first record that does not parse.
    fn try_from(value: &'a [u8]) -> (r: Result<Png, PngError>)
        ensures
            ok_view(r) == parse_png(value@),
            value@.len() < 8 || value@.subrange(0, 8) != SIGNATURE@ ==> r == Err::<Png, PngError>(
                PngError::BadSignature,
            ),
            r matches Ok(png) ==> png_bytes(png@) == value@,
    {
        let end = value.len();
        if end < 8 {
            return Err(PngError::BadSignature);
        }
        let mut k: usize = 0;
        while k < 8
            invariant
                k <= 8 <= end,
                end == value@.len(),
                forall|j: int| 0 <= j < k ==> value@[j] == SIGNATURE@[j],
            decreases 8 - k,
        {
            if value[k] != SIGNATURE[k] {
                assert(value@.subrange(0, 8)[k as int] != SIGNATURE@[k as int]);
                return Err(PngError::BadSignature);
            }
            k += 1;
        }
        assert(value@.subrange(0, 8) =~= SIGNATURE@);
        let engine = Crc32::new();
        let mut chunks: Vec<Chunk> = Vec::new();
        let mut cursor: usize = 8;
        let ghost all = value@.subrange(8, end as int);
        assert(prepend(views_of(chunks@), parse_records(all)) == parse_records(all)) by {
            assert(views_of(chunks@) =~= Seq::<ChunkView>::empty());
            match parse_records(all) {
                Ok(rest) => {
                    assert(Seq::<ChunkView>::empty() + rest =~= rest);
                },
                Err(_) => {},
            }
        }
        while cursor < end
            invariant
                8 <= cursor <= end,
                end == value@.len(),
                all == value@.subrange(8, end as int),
                parse_png(value@) == parse_records(all),
                parse_records(all) == prepend(
                    views_of(chunks@),
                    parse_records(value@.subrange(cursor as int, end as int)),
                ),
                all_well_formed(views_of(chunks@)),
            decreases end - cursor,
        {
            let ghost left = value@.subrange(cursor as int, end as int);
            let ghost before = views_of(chunks@);
            if end - cursor < RECORD_OVERHEAD {
                return Err(PngError::MalformedRecord);
            }
            let length = read_u32_be(value, cursor);
            assert(value@.subrange(cursor as int, cursor + 4) =~= left.subrange(0, 4));
            if end - cursor - RECORD_OVERHEAD < length as usize {
                return Err(PngError::MalformedRecord);
            }
            let size: usize = RECORD_OVERHEAD + length as usize;
            let record = slice_subrange(value, cursor, cursor + size);
            assert(record@ =~= left.subrange(0, size as int));
            assert(value@.subrange(cursor + size, end as int) =~= left.subrange(
                size as int,
                left.len() as int,
            ));
            match Chunk::parse_with(&engine, record) {
                Err(e) => {
                    return Err(e);
                },
                Ok(chunk) => {
                    proof {
                        use_type_invariant(&chunk);
                        let rest = parse_records(value@.subrange(cursor + size, end as int));
                        assert(before.push(chunk@) =~= before + seq![chunk@]);
                        match rest {
                            Ok(tail) => {
                                assert(before + (seq![chunk@] + tail) =~= before.push(chunk@)
                                    + tail);
                            },
                            Err(_) => {},
                        }
                    }
                    chunks.push(chunk);
                    assert(views_of(chunks@) =~= before.push(chunk@));
                },
            }
            cursor += size;
        }
        proof {
            assert(value@.subrange(cursor as int, end as int) =~= Seq::<u8>::empty());
            assert(views_of(chunks@) + Seq::<ChunkView>::empty() =~= views_of(chunks@));
            lemma_png_bytes_of_parse(value@);
        }
        Ok(Png { chunks })
    }
}

impl PartialEqSpecImpl for Png {
    open spec fn obeys_eq_spec() -> bool {
        true
    }

    open spec fn eq_spec(&self, other: &Png) -> bool {
        self@ == other@
    }
}

impl PartialEq for Png {
    /// Two containers are equal when they hold equal chunks in the same
    /// order.
    fn eq(&self, other: &Png) -> (r: bool) {
        let r = self.chunks == other.chunks;
        proof {
            if r {
                assert(self@ =~= other@);
            }
            if self@ == other@ {
                assert(self.chunks@.len() == self@.len());
                assert(other.chunks@.len() == other@.len());
                assert forall|i: int| 0 <= i < self.chunks@.len() implies self.chunks@[i]@
                    == other.chunks@[i]@ by {
                    assert(self@[i] == self.chunks@[i]@);
                    assert(other@[i] == other.chunks@[i]@);
                }
            }
        }
        r
    }
}

} // verus!
