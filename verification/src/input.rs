//! What text predicates read a document through: a text held in chunks,
//! with a cursor that stands on one of them.

use vstd::prelude::*;
use vstd::string::StringSliceAdditionalSpecFns;
use vstd::utf8::is_char_boundary;
use regex_cursor::engines::meta::Regex;
use crate::regex::regex_is_match;
use crate::text::bytes_eq;

verus! {

/// A text held in chunks, read through a cursor that stands on one chunk
/// and moves forward from chunk to chunk.
pub trait TsInput {
    /// The cursor stands on a chunk of the text.
    spec fn wf(&self) -> bool;

    /// The bytes of the whole text.
    spec fn text(&self) -> Seq<u8>;

    /// Where the cursor's chunk starts in the text.
    spec fn spec_chunk_offset(&self) -> int;

    /// The bytes of the cursor's chunk.
    spec fn spec_chunk(&self) -> Seq<u8>;

    /// How many chunks lie behind the cursor's chunk.
    spec fn chunks_left(&self) -> nat;

    /// The cursor's chunk is the part of the text that starts at the
    /// chunk's offset, and only an empty text has an empty chunk.
    proof fn lemma_chunk_in_text(&self)
        requires
            self.wf(),
        ensures
            vstd::utf8::valid_utf8(self.text()),
            0 <= self.spec_chunk_offset(),
            self.spec_chunk_offset() + self.spec_chunk().len() <= self.text().len(),
            self.text().subrange(
                self.spec_chunk_offset(),
                self.spec_chunk_offset() + self.spec_chunk().len(),
            ) == self.spec_chunk(),
            self.chunks_left() == 0 ==> self.spec_chunk_offset() + self.spec_chunk().len()
                == self.text().len(),
            self.spec_chunk().len() == 0 ==> self.text().len() == 0,
    ;

    /// The number of bytes of the whole text.
    fn len(&self) -> (n: usize)
        requires
            self.wf(),
        ensures
            n == self.text().len(),
    ;

    /// Where the cursor's chunk starts in the text.
    fn chunk_offset(&self) -> (n: usize)
        requires
            self.wf(),
        ensures
            n == self.spec_chunk_offset(),
    ;

    /// The bytes of the cursor's chunk.
    fn chunk(&self) -> (chunk: &[u8])
        requires
            self.wf(),
        ensures
            chunk@ == self.spec_chunk(),
    ;

    /// Moves the cursor to the next chunk, if there is one, and says whether
    /// it moved.
    fn advance(&mut self) -> (moved: bool)
        requires
            old(self).wf(),
        ensures
            final(self).wf(),
            final(self).text() == old(self).text(),
            moved == (old(self).chunks_left() > 0),
            moved ==> final(self).spec_chunk_offset() == old(self).spec_chunk_offset() + old(
                self,
            ).spec_chunk().len(),
            moved ==> final(self).chunks_left() == old(self).chunks_left() - 1,
            !moved ==> final(self).spec_chunk_offset() == old(self).spec_chunk_offset(),
            !moved ==> final(self).spec_chunk() == old(self).spec_chunk(),
            !moved ==> final(self).chunks_left() == old(self).chunks_left(),
    ;

    /// Puts the cursor on the chunk that holds byte `offset`; on the last
    /// chunk, where `offset` is the end of the text.
    fn cursor_at(&mut self, offset: u32)
        requires
            old(self).wf(),
            offset <= old(self).text().len(),
        ensures
            final(self).wf(),
            final(self).text() == old(self).text(),
            final(self).spec_chunk_offset() <= offset,
            offset <= final(self).spec_chunk_offset() + final(self).spec_chunk().len(),
            offset < final(self).text().len() ==> offset < final(self).spec_chunk_offset()
                + final(self).spec_chunk().len(),
    ;

    /// Whether two ranges of the text hold the same bytes. Both ranges lie
    /// within the text, between characters.
    fn eq(&mut self, range1: core::ops::Range<u32>, range2: core::ops::Range<u32>) -> (r: bool)
        requires
            old(self).wf(),
            range1.start <= range1.end <= old(self).text().len(),
            range2.start <= range2.end <= old(self).text().len(),
            is_char_boundary(old(self).text(), range1.start as int),
            is_char_boundary(old(self).text(), range1.end as int),
            is_char_boundary(old(self).text(), range2.start as int),
            is_char_boundary(old(self).text(), range2.end as int),
        ensures
            final(self).wf(),
            final(self).text() == old(self).text(),
            r == (old(self).text().subrange(range1.start as int, range1.end as int) == old(
                self,
            ).text().subrange(range2.start as int, range2.end as int)),
    ;

    /// Whether `regex` matches somewhere in the bytes of a range of the
    /// text, taken as a haystack of their own.
    fn is_match(&mut self, regex: &Regex, start: u32, end: u32) -> (r: bool)
        requires
            old(self).wf(),
            start <= end <= old(self).text().len(),
        ensures
            final(self).wf(),
            final(self).text() == old(self).text(),
            r == regex_is_match(*regex, old(self).text().subrange(start as int, end as int)),
    ;
}

/// What an input can be made of. An input is made of itself.
pub trait IntoTsInput {
    type TsInput: TsInput;

    /// The bytes of the text that the input will hold.
    spec fn source_text(&self) -> Seq<u8>;

    /// Whether the input that is made can be read at once.
    spec fn source_wf(&self) -> bool;

    /// The input over the text of `self`.
    fn into_ts_input(self) -> (input: Self::TsInput)
        ensures
            input.text() == self.source_text(),
            input.wf() == self.source_wf(),
    ;
}

impl<T: TsInput> IntoTsInput for T {
    type TsInput = T;

    open spec fn source_text(&self) -> Seq<u8> {
        self.text()
    }

    open spec fn source_wf(&self) -> bool {
        self.wf()
    }

    fn into_ts_input(self) -> (input: T) {
        self
    }
}

/// Whether the range lies within a text and is as long as the string.
pub open spec fn may_match(str: Seq<u8>, start: u32, end: u32, text: Seq<u8>) -> bool {
    start <= end <= text.len() && str.len() == end - start
}

/// Whether the bytes of `range` in the input's text are those of `str`. The
/// comparison runs chunk by chunk and stops at the first difference. A range
/// that does not lie within the text holds no bytes to match. Where the
/// range does not lie within the text, or is not as long as the string, the
/// answer is given without a look at the text: the input is as it was, its
/// cursor on the chunk that it was on.
pub fn input_matches_str<I: TsInput>(str: &str, range: core::ops::Range<u32>, input: &mut I) -> (r: bool)
    requires
        old(input).wf(),
    ensures
        final(input).wf(),
        final(input).text() == old(input).text(),
        r == (range.start <= range.end <= old(input).text().len() && old(input).text().subrange(
            range.start as int,
            range.end as int,
        ) == str.spec_bytes()),
        !may_match(str.spec_bytes(), range.start, range.end, old(input).text()) ==> {
            &&& *final(input) == *old(input)
            &&& final(input).spec_chunk_offset() == old(input).spec_chunk_offset()
            &&& final(input).spec_chunk() == old(input).spec_chunk()
            &&& final(input).chunks_left() == old(input).chunks_left()
        },
{
    let s = str.as_bytes();
    if range.start > range.end || range.end as usize > input.len() {
        return false;
    }
    let start = range.start as usize;
    let end = range.end as usize;
    if s.len() != end - start {
        return false;
    }
    input.cursor_at(range.start);
    let ghost text = input.text();
    let mut done: usize = 0;
    loop
        invariant
            input.wf(),
            input.text() == text,
            text == old(input).text(),
            s@ == str.spec_bytes(),
            start == range.start,
            end == range.end,
            start <= end <= text.len(),
            s@.len() == end - start,
            done <= s@.len(),
            input.spec_chunk_offset() <= start + done <= input.spec_chunk_offset()
                + input.spec_chunk().len(),
            text.subrange(start as int, start + done) == s@.subrange(0, done as int),
        decreases input.chunks_left(),
    {
        proof {
            input.lemma_chunk_in_text();
        }
        let offset = input.chunk_offset();
        let chunk = input.chunk();
        let from = start + done - offset;
        let avail = chunk.len() - from;
        let need = s.len() - done;
        if need <= avail {
            let r = bytes_eq(
                vstd::slice::slice_subrange(chunk, from, from + need),
                vstd::slice::slice_subrange(s, done, s.len()),
            );
            proof {
                let a = text.subrange(start as int, end as int);
                assert(chunk@.subrange(from as int, from + need) =~= a.subrange(
                    done as int,
                    a.len() as int,
                ));
                assert(a.subrange(0, done as int) =~= text.subrange(start as int, start + done));
                if r {
                    assert(a =~= s@) by {
                        assert forall|k: int| 0 <= k < a.len() implies a[k] == s@[k] by {
                            if k < done {
                                assert(a.subrange(0, done as int)[k] == s@.subrange(
                                    0,
                                    done as int,
                                )[k]);
                            } else {
                                assert(a.subrange(done as int, a.len() as int)[k - done]
                                    == s@.subrange(done as int, s@.len() as int)[k - done]);
                            }
                        }
                    }
                } else {
                    if a == s@ {
                        assert(a.subrange(done as int, a.len() as int) == s@.subrange(
                            done as int,
                            s@.len() as int,
                        ));
                    }
                }
            }
            return r;
        }
        let same = bytes_eq(
            vstd::slice::slice_subrange(chunk, from, chunk.len()),
            vstd::slice::slice_subrange(s, done, done + avail),
        );
        proof {
            let a = text.subrange(start as int, end as int);
            assert(chunk@.subrange(from as int, chunk@.len() as int) =~= a.subrange(
                done as int,
                done + avail,
            ));
            if same {
                assert(text.subrange(start as int, start + done + avail) =~= s@.subrange(
                    0,
                    done + avail,
                )) by {
                    assert forall|k: int| 0 <= k < done + avail implies text[start + k]
                        == s@[k] by {
                        if k < done {
                            assert(text.subrange(start as int, start + done)[k] == s@.subrange(
                                0,
                                done as int,
                            )[k]);
                        } else {
                            assert(a.subrange(done as int, done + avail)[k - done]
                                == s@.subrange(done as int, done + avail)[k - done]);
                        }
                    }
                }
            } else {
                if a == s@ {
                    assert(a.subrange(done as int, done + avail) == s@.subrange(
                        done as int,
                        done + avail,
                    ));
                }
            }
        }
        if !same {
            return false;
        }
        done += avail;
        if !input.advance() {
            return false;
        }
    }
}

/// Whether the offset lies within the text or at its end, between
/// characters.
pub fn at_char_boundary<I: TsInput>(input: &mut I, offset: u32) -> (b: bool)
    requires
        old(input).wf(),
    ensures
        final(input).wf(),
        final(input).text() == old(input).text(),
        b == is_char_boundary(old(input).text(), offset as int),
{
    let len = input.len();
    proof {
        input.lemma_chunk_in_text();
    }
    if offset as usize > len {
        return false;
    }
    if offset as usize == len {
        proof {
            vstd::utf8::is_char_boundary_start_end_of_seq(input.text());
        }
        return true;
    }
    input.cursor_at(offset);
    proof {
        input.lemma_chunk_in_text();
        vstd::utf8::is_char_boundary_iff_not_is_continuation_byte(input.text(), offset as int);
    }
    let at = offset as usize - input.chunk_offset();
    let byte = input.chunk()[at];
    assert(byte == input.text().subrange(
        input.spec_chunk_offset(),
        input.spec_chunk_offset() + input.spec_chunk().len(),
    )[at as int]);
    !(0x80 <= byte && byte <= 0xbf)
}

} // verus!
