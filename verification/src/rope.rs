//! The rope that holds a document, the chunk cursor that walks it, and the
//! input that reads the rope through the cursor.

use vstd::prelude::*;
use vstd::utf8::{encode_utf8, is_char_boundary};
use regex_cursor::engines::meta::Regex;
use crate::input::{IntoTsInput, TsInput};
use crate::regex::regex_is_match;

verus! {

/// `ropey::RopeSlice`: a slice of a rope, which holds a text in chunks.
#[verifier::external_type_specification]
#[verifier::external_body]
pub struct ExRopeSlice<'a>(ropey::RopeSlice<'a>);

/// `regex_cursor::RopeyCursor`: a cursor that stands on one chunk of a rope
/// slice and moves from chunk to chunk.
#[verifier::external_type_specification]
#[verifier::external_body]
pub struct ExRopeyCursor<'a>(regex_cursor::RopeyCursor<'a>);

/// The text that a rope slice holds.
pub uninterp spec fn rope_text(slice: ropey::RopeSlice) -> Seq<char>;

/// The chunks that a cursor walks, in order. A cursor over an empty text
/// walks one empty chunk.
pub uninterp spec fn cursor_chunks(cursor: regex_cursor::RopeyCursor) -> Seq<Seq<u8>>;

/// The index, among its chunks, of the chunk that a cursor is on.
pub uninterp spec fn cursor_index(cursor: regex_cursor::RopeyCursor) -> int;

/// The bytes of the text that a rope slice holds.
pub open spec fn rope_bytes(slice: ropey::RopeSlice) -> Seq<u8> {
    encode_utf8(rope_text(slice))
}

/// The chunks put one behind the other.
pub open spec fn joined(chunks: Seq<Seq<u8>>) -> Seq<u8>
    decreases chunks.len(),
{
    if chunks.len() == 0 {
        Seq::empty()
    } else {
        joined(chunks.drop_last()) + chunks.last()
    }
}

/// The offset in the joined text at which chunk `i` starts.
pub open spec fn chunk_start(chunks: Seq<Seq<u8>>, i: int) -> int
    decreases i,
{
    if i <= 0 {
        0
    } else {
        chunk_start(chunks, i - 1) + chunks[i - 1].len()
    }
}

/// There is a chunk, and only the chunk of an empty text is empty.
pub open spec fn chunks_wf(chunks: Seq<Seq<u8>>) -> bool {
    &&& chunks.len() >= 1
    &&& forall|i: int| 0 <= i < chunks.len() ==> chunks.len() == 1 || #[trigger] chunks[i].len() > 0
}

/// The cursor stands on one of the chunks of `text`.
pub open spec fn cursor_on(cursor: regex_cursor::RopeyCursor, text: Seq<u8>) -> bool {
    &&& chunks_wf(cursor_chunks(cursor))
    &&& joined(cursor_chunks(cursor)) == text
    &&& 0 <= cursor_index(cursor) < cursor_chunks(cursor).len()
}

/// `RopeSlice::len_bytes`: the number of bytes of the slice's text.
#[verifier::external_body]
fn rope_len(slice: &ropey::RopeSlice) -> (n: usize)
    ensures
        n == encode_utf8(rope_text(*slice)).len(),
{
    slice.len_bytes()
}

/// `RopeSlice::byte_slice`, twice, and `==` on the two slices: whether two
/// ranges of the text hold the same bytes. The ranges lie within the text
/// and between characters, as `byte_slice` demands.
#[verifier::external_body]
fn rope_ranges_eq(slice: &ropey::RopeSlice, a1: usize, b1: usize, a2: usize, b2: usize) -> (r: bool)
    requires
        a1 <= b1 <= rope_bytes(*slice).len(),
        a2 <= b2 <= rope_bytes(*slice).len(),
        is_char_boundary(rope_bytes(*slice), a1 as int),
        is_char_boundary(rope_bytes(*slice), b1 as int),
        is_char_boundary(rope_bytes(*slice), a2 as int),
        is_char_boundary(rope_bytes(*slice), b2 as int),
    ensures
        r == (rope_bytes(*slice).subrange(a1 as int, b1 as int) == rope_bytes(*slice).subrange(
            a2 as int,
            b2 as int,
        )),
{
    slice.byte_slice(a1..b1) == slice.byte_slice(a2..b2)
}

/// `RopeSlice::byte_slice` and `String::from`: the text of a range that lies
/// within the text and between characters.
#[verifier::external_body]
fn rope_range_text(slice: &ropey::RopeSlice, a: usize, b: usize) -> (r: String)
    requires
        a <= b <= rope_bytes(*slice).len(),
        is_char_boundary(rope_bytes(*slice), a as int),
        is_char_boundary(rope_bytes(*slice), b as int),
    ensures
        encode_utf8(r@) == rope_bytes(*slice).subrange(a as int, b as int),
{
    String::from(slice.byte_slice(a..b))
}

/// `RopeyCursor::new`: a cursor on the first chunk of the slice's text.
#[verifier::external_body]
fn cursor_new<'a>(slice: ropey::RopeSlice<'a>) -> (cursor: regex_cursor::RopeyCursor<'a>)
    ensures
        cursor_on(cursor, rope_bytes(slice)),
        cursor_index(cursor) == 0,
{
    regex_cursor::RopeyCursor::new(slice)
}

/// `RopeyCursor::at`: a cursor on a chunk of the slice's text that holds
/// byte `at` or ends at it.
#[verifier::external_body]
fn cursor_seek<'a>(slice: ropey::RopeSlice<'a>, at: usize) -> (cursor: regex_cursor::RopeyCursor<'a>)
    requires
        at <= rope_bytes(slice).len(),
    ensures
        cursor_on(cursor, rope_bytes(slice)),
        chunk_start(cursor_chunks(cursor), cursor_index(cursor)) <= at <= chunk_start(
            cursor_chunks(cursor),
            cursor_index(cursor) + 1,
        ),
{
    regex_cursor::RopeyCursor::at(slice, at)
}

/// `Cursor::offset` of a `RopeyCursor`: where its chunk starts in the text.
#[verifier::external_body]
fn cursor_offset(cursor: &regex_cursor::RopeyCursor) -> (n: usize)
    ensures
        n == chunk_start(cursor_chunks(*cursor), cursor_index(*cursor)),
{
    regex_cursor::Cursor::offset(cursor)
}

/// `Cursor::chunk` of a `RopeyCursor`: the bytes of its chunk.
#[verifier::external_body]
fn cursor_chunk<'b>(cursor: &'b regex_cursor::RopeyCursor) -> (chunk: &'b [u8])
    ensures
        chunk@ == cursor_chunks(*cursor)[cursor_index(*cursor)],
{
    regex_cursor::Cursor::chunk(cursor)
}

/// `Cursor::advance` of a `RopeyCursor`: moves to the next chunk if there is
/// one, and says whether it moved.
#[verifier::external_body]
fn cursor_advance(cursor: &mut regex_cursor::RopeyCursor) -> (moved: bool)
    ensures
        cursor_chunks(*final(cursor)) == cursor_chunks(*old(cursor)),
        moved == (cursor_index(*old(cursor)) + 1 < cursor_chunks(*old(cursor)).len()),
        cursor_index(*final(cursor)) == if moved {
            cursor_index(*old(cursor)) + 1
        } else {
            cursor_index(*old(cursor))
        },
{
    regex_cursor::Cursor::advance(cursor)
}

/// `Input::new` on the cursor, `Input::slice` to the range, and
/// `Regex::is_match`: whether the regex matches somewhere in the bytes of the
/// range, taken as a haystack of their own. The search may leave the cursor
/// on any chunk.
#[verifier::external_body]
fn cursor_is_match(regex: &Regex, cursor: &mut regex_cursor::RopeyCursor, start: usize, end: usize) -> (r: bool)
    requires
        0 <= cursor_index(*old(cursor)) < cursor_chunks(*old(cursor)).len(),
        start <= end <= joined(cursor_chunks(*old(cursor))).len(),
    ensures
        cursor_chunks(*final(cursor)) == cursor_chunks(*old(cursor)),
        0 <= cursor_index(*final(cursor)) < cursor_chunks(*old(cursor)).len(),
        r == regex_is_match(
            *regex,
            joined(cursor_chunks(*old(cursor))).subrange(start as int, end as int),
        ),
{
    let mut input = regex_cursor::Input::new(cursor);
    input.slice(start..end);
    regex.is_match(input)
}

/// The joined text is as long as all chunks together, each chunk lies in it
/// where it starts, and chunk starts grow with the index.
pub proof fn lemma_joined(chunks: Seq<Seq<u8>>, i: int)
    requires
        0 <= i < chunks.len(),
    ensures
        joined(chunks).len() == chunk_start(chunks, chunks.len() as int),
        0 <= chunk_start(chunks, i),
        chunk_start(chunks, i + 1) == chunk_start(chunks, i) + chunks[i].len(),
        chunk_start(chunks, i + 1) <= joined(chunks).len(),
        joined(chunks).subrange(chunk_start(chunks, i), chunk_start(chunks, i + 1)) == chunks[i],
    decreases chunks.len(),
{
    let n = chunks.len() as int;
    let front = chunks.drop_last();
    lemma_chunk_start_prefix(chunks, front, n - 1);
    if n > 1 {
        lemma_joined(front, 0);
    }
    assert(joined(front).len() == chunk_start(chunks, n - 1));
    if i == n - 1 {
        assert(joined(chunks).subrange(chunk_start(chunks, i), chunk_start(chunks, i + 1))
            =~= chunks[i]);
    } else {
        lemma_joined(front, i);
        lemma_chunk_start_prefix(chunks, front, i + 1);
        assert(joined(chunks).subrange(chunk_start(chunks, i), chunk_start(chunks, i + 1))
            =~= joined(front).subrange(chunk_start(front, i), chunk_start(front, i + 1)));
    }
}

/// Chunk starts depend only on the chunks before.
pub proof fn lemma_chunk_start_prefix(chunks: Seq<Seq<u8>>, front: Seq<Seq<u8>>, i: int)
    requires
        0 <= i <= front.len() <= chunks.len(),
        forall|k: int| 0 <= k < front.len() ==> front[k] == chunks[k],
    ensures
        chunk_start(front, i) == chunk_start(chunks, i),
        0 <= chunk_start(chunks, i),
    decreases i,
{
    if i > 0 {
        lemma_chunk_start_prefix(chunks, front, i - 1);
    }
}

/// How far ahead of its cursor an offset may lie before the cursor is set
/// anew instead of walked forward.
pub const RESEAT_DISTANCE: usize = 4906;

/// A rope slice read through a chunk cursor, for forward scans with
/// occasional far jumps.
pub struct RopeInput<'a> {
    src: ropey::RopeSlice<'a>,
    cursor: regex_cursor::RopeyCursor<'a>,
}

impl<'a> RopeInput<'a> {
    /// An input over `src`, with its cursor on the first chunk.
    pub fn new(src: ropey::RopeSlice<'a>) -> (input: Self)
        ensures
            input.wf(),
            input.text() == rope_bytes(src),
            input.spec_chunk_offset() == 0,
    {
        RopeInput { src, cursor: cursor_new(src) }
    }

    /// The text of a range that lies within the text, between characters.
    pub fn byte_slice(&self, start: u32, end: u32) -> (r: String)
        requires
            self.wf(),
            start <= end <= self.text().len(),
            is_char_boundary(self.text(), start as int),
            is_char_boundary(self.text(), end as int),
        ensures
            encode_utf8(r@) == self.text().subrange(start as int, end as int),
    {
        rope_range_text(&self.src, start as usize, end as usize)
    }
}

impl<'a> IntoTsInput for ropey::RopeSlice<'a> {
    type TsInput = RopeInput<'a>;

    open spec fn source_text(&self) -> Seq<u8> {
        rope_bytes(*self)
    }

    open spec fn source_wf(&self) -> bool {
        true
    }

    fn into_ts_input(self) -> (input: RopeInput<'a>) {
        RopeInput::new(self)
    }
}

impl<'a> TsInput for RopeInput<'a> {
    /// The cursor stands on a chunk of the text of `src`.
    closed spec fn wf(&self) -> bool {
        cursor_on(self.cursor, rope_bytes(self.src))
    }

    /// The bytes of the whole text.
    closed spec fn text(&self) -> Seq<u8> {
        rope_bytes(self.src)
    }

    /// Where the cursor's chunk starts in the text.
    closed spec fn spec_chunk_offset(&self) -> int {
        chunk_start(cursor_chunks(self.cursor), cursor_index(self.cursor))
    }

    /// The bytes of the cursor's chunk.
    closed spec fn spec_chunk(&self) -> Seq<u8> {
        cursor_chunks(self.cursor)[cursor_index(self.cursor)]
    }

    /// How many chunks lie behind the cursor's chunk.
    closed spec fn chunks_left(&self) -> nat {
        (cursor_chunks(self.cursor).len() - 1 - cursor_index(self.cursor)) as nat
    }

    /// The cursor's chunk is the part of the text that starts at the
    /// chunk's offset, and only an empty text has an empty chunk.
    proof fn lemma_chunk_in_text(&self) {
        vstd::utf8::encode_utf8_valid_utf8(rope_text(self.src));
        lemma_joined(cursor_chunks(self.cursor), cursor_index(self.cursor));
        if self.spec_chunk().len() == 0 {
            assert(cursor_chunks(self.cursor).len() == 1);
        }
    }

    /// The number of bytes of the whole text.
    fn len(&self) -> (n: usize) {
        rope_len(&self.src)
    }

    /// Where the cursor's chunk starts in the text.
    fn chunk_offset(&self) -> (n: usize) {
        cursor_offset(&self.cursor)
    }

    /// The bytes of the cursor's chunk.
    fn chunk(&self) -> (chunk: &[u8]) {
        cursor_chunk(&self.cursor)
    }

    /// Moves the cursor to the next chunk, if there is one, and says whether
    /// it moved.
    fn advance(&mut self) -> (moved: bool) {
        proof {
            lemma_joined(cursor_chunks(self.cursor), cursor_index(self.cursor));
        }
        let moved = cursor_advance(&mut self.cursor);
        proof {
            lemma_joined(cursor_chunks(self.cursor), cursor_index(self.cursor));
        }
        moved
    }

    /// Puts the cursor on the chunk that holds byte `offset`; on the last
    /// chunk, where `offset` is the end of the text. An offset behind the
    /// cursor's chunk, or far ahead of it, sets the cursor anew; one a little
    /// ahead walks it forward chunk by chunk.
    fn cursor_at(&mut self, offset: u32) {
        let offset = offset as usize;
        let at = self.chunk_offset();
        if offset < at || offset - at > RESEAT_DISTANCE {
            self.cursor = cursor_seek(self.src, offset);
        }
        loop
            invariant
                self.wf(),
                self.text() == old(self).text(),
                offset <= self.text().len(),
                self.spec_chunk_offset() <= offset,
            ensures
                self.wf(),
                self.text() == old(self).text(),
                self.spec_chunk_offset() <= offset,
                offset <= self.spec_chunk_offset() + self.spec_chunk().len(),
                offset < self.text().len() ==> offset < self.spec_chunk_offset()
                    + self.spec_chunk().len(),
            decreases self.chunks_left(),
        {
            proof {
                self.lemma_chunk_in_text();
            }
            if offset - self.chunk_offset() < self.chunk().len() {
                break ;
            }
            if !self.advance() {
                break ;
            }
        }
    }

    /// Whether two ranges of the text hold the same bytes. Both ranges lie
    /// within the text, between characters.
    fn eq(&mut self, range1: core::ops::Range<u32>, range2: core::ops::Range<u32>) -> (r: bool) {
        rope_ranges_eq(
            &self.src,
            range1.start as usize,
            range1.end as usize,
            range2.start as usize,
            range2.end as usize,
        )
    }

    /// Whether `regex` matches somewhere in the bytes of a range of the
    /// text, taken as a haystack of their own.
    fn is_match(&mut self, regex: &Regex, start: u32, end: u32) -> (r: bool) {
        self.cursor_at(start);
        cursor_is_match(regex, &mut self.cursor, start as usize, end as usize)
    }
}

} // verus!
