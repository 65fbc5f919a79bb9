//! Where in a query's source an error lies: line, column, and the lines
//! around it.

use vstd::prelude::*;
use vstd::string::StringSliceAdditionalSpecFns;
use vstd::utf8::*;
use crate::text::{
    decimal, decimal_string, lemma_boundary_after_ascii, push_repeated, repeat, str_slice,
    CARRIAGE_RETURN, NEWLINE,
};

verus! {

/// What a [`ParserErrorLocation`] holds, as mathematical values.
pub struct LocationView {
    pub line: u32,
    pub column: u32,
    pub len: u32,
    pub line_content: Seq<char>,
    pub line_before: Option<Seq<char>>,
    pub line_after: Option<Seq<char>>,
}

/// The place of an error in a query's source, with the lines around it.
#[derive(Debug, Clone, PartialEq, Eq)]
pub struct ParserErrorLocation {
    /// at which line the error occurred (counted from one)
    pub line: u32,
    /// at which codepoint the error starts in the line (counted from one)
    pub column: u32,
    /// how many codepoints the error takes up
    pub len: u32,
    /// the line of the error, without its line ending
    pub line_content: String,
    /// the line before it, unless there is none or it is empty
    pub line_before: Option<String>,
    /// the line after it, unless there is none or it is empty
    pub line_after: Option<String>,
}

impl View for ParserErrorLocation {
    type V = LocationView;

    open spec fn view(&self) -> LocationView {
        LocationView {
            line: self.line,
            column: self.column,
            len: self.len,
            line_content: self.line_content@,
            line_before: match self.line_before {
                Some(s) => Some(s@),
                None => None,
            },
            line_after: match self.line_after {
                Some(s) => Some(s@),
                None => None,
            },
        }
    }
}

/// The offset at which the line around `at` starts: behind the last line
/// break before `at`, or at the start of the text.
pub open spec fn line_start(bytes: Seq<u8>, at: int) -> int
    decreases at,
{
    if at <= 0 {
        0
    } else if bytes[at - 1] == NEWLINE {
        at
    } else {
        line_start(bytes, at - 1)
    }
}

/// The offset at which the line around `at` ends: the first line break at
/// or behind `at`, or the end of the text.
pub open spec fn line_end(bytes: Seq<u8>, at: int) -> int
    decreases bytes.len() - at,
{
    if at >= bytes.len() {
        bytes.len() as int
    } else if bytes[at] == NEWLINE {
        at
    } else {
        line_end(bytes, at + 1)
    }
}

/// How many line breaks lie before `at`.
pub open spec fn newlines_before(bytes: Seq<u8>, at: int) -> nat
    decreases at,
{
    if at <= 0 {
        0
    } else if bytes[at - 1] == NEWLINE {
        newlines_before(bytes, at - 1) + 1
    } else {
        newlines_before(bytes, at - 1)
    }
}

/// Where a line's content ends once a carriage return at its end is left out.
pub open spec fn content_end(bytes: Seq<u8>, from: int, to: int) -> int {
    if from < to && bytes[to - 1] == CARRIAGE_RETURN {
        to - 1
    } else {
        to
    }
}

/// The text between two offsets; none if it is empty.
pub open spec fn nonempty_text(bytes: Seq<u8>, from: int, to: int) -> Option<Seq<char>> {
    if from < to {
        Some(decode_utf8(bytes.subrange(from, to)))
    } else {
        None
    }
}

/// The line before the one that starts at `ls`.
pub open spec fn line_before(bytes: Seq<u8>, ls: int) -> Option<Seq<char>> {
    if ls <= 0 {
        None
    } else {
        let from = line_start(bytes, ls - 1);
        nonempty_text(bytes, from, content_end(bytes, from, ls - 1))
    }
}

/// The line after the one that ends at `le`. A last line that no line break
/// ends keeps a carriage return at its end.
pub open spec fn line_after(bytes: Seq<u8>, le: int) -> Option<Seq<char>> {
    if le >= bytes.len() {
        None
    } else {
        let to = line_end(bytes, le + 1);
        if to < bytes.len() {
            nonempty_text(bytes, le + 1, content_end(bytes, le + 1, to))
        } else {
            nonempty_text(bytes, le + 1, to)
        }
    }
}

/// The location of the `len` codepoints at byte `start` of a text. Lines
/// and columns count from one: the line is one more than the line breaks
/// before `start`, the column one more than the codepoints between the
/// start of the line and `start`. An offset on a line break lies in the line
/// that the break ends. An offset behind the end of the text lies in no
/// line: it is put at the start, line one and column one, with no line
/// content.
pub open spec fn locate(bytes: Seq<u8>, start: int, len: int) -> LocationView {
    if start > bytes.len() {
        LocationView {
            line: 1,
            column: 1,
            len: len as u32,
            line_content: Seq::empty(),
            line_before: None,
            line_after: None,
        }
    } else {
        let ls = line_start(bytes, start);
        let le = line_end(bytes, start);
        LocationView {
            line: (newlines_before(bytes, start) + 1) as u32,
            column: (decode_utf8(bytes.subrange(ls, start)).len() + 1) as u32,
            len: len as u32,
            line_content: decode_utf8(bytes.subrange(ls, content_end(bytes, ls, le))),
            line_before: line_before(bytes, ls),
            line_after: line_after(bytes, le),
        }
    }
}

/// A line starts at the start of the text or behind a line break, and holds
/// no line break before `at`.
pub proof fn lemma_line_start(bytes: Seq<u8>, at: int)
    requires
        0 <= at <= bytes.len(),
    ensures
        0 <= line_start(bytes, at) <= at,
        line_start(bytes, at) == 0 || bytes[line_start(bytes, at) - 1] == NEWLINE,
        forall|k: int| line_start(bytes, at) <= k < at ==> bytes[k] != NEWLINE,
    decreases at,
{
    if at > 0 && bytes[at - 1] != NEWLINE {
        lemma_line_start(bytes, at - 1);
    }
}

/// A line ends at a line break or at the end of the text, and holds no line
/// break from `at` on.
pub proof fn lemma_line_end(bytes: Seq<u8>, at: int)
    requires
        0 <= at <= bytes.len(),
    ensures
        at <= line_end(bytes, at) <= bytes.len(),
        line_end(bytes, at) == bytes.len() || bytes[line_end(bytes, at)] == NEWLINE,
        forall|k: int| at <= k < line_end(bytes, at) ==> bytes[k] != NEWLINE,
    decreases bytes.len() - at,
{
    if at < bytes.len() && bytes[at] != NEWLINE {
        lemma_line_end(bytes, at + 1);
    }
}

/// The ends of a line, and the end of its content, lie between characters.
pub proof fn lemma_line_boundaries(bytes: Seq<u8>, at: int)
    requires
        valid_utf8(bytes),
        0 <= at <= bytes.len(),
    ensures
        is_char_boundary(bytes, line_start(bytes, at)),
        is_char_boundary(bytes, line_end(bytes, at)),
        line_end(bytes, at) < bytes.len() ==> is_char_boundary(bytes, line_end(bytes, at) + 1),
{
    lemma_line_start(bytes, at);
    lemma_line_end(bytes, at);
    let ls = line_start(bytes, at);
    let le = line_end(bytes, at);
    if ls == 0 {
        is_char_boundary_start_end_of_seq(bytes);
    } else {
        lemma_boundary_after_ascii(bytes, ls - 1);
    }
    if le == bytes.len() {
        is_char_boundary_start_end_of_seq(bytes);
    } else {
        lemma_boundary_after_ascii(bytes, le);
    }
}

/// The end of a line's content lies between characters.
pub proof fn lemma_content_end_boundary(bytes: Seq<u8>, from: int, to: int)
    requires
        valid_utf8(bytes),
        0 <= from <= to <= bytes.len(),
        is_char_boundary(bytes, to),
    ensures
        from <= content_end(bytes, from, to) <= to,
        is_char_boundary(bytes, content_end(bytes, from, to)),
{
    if from < to && bytes[to - 1] == CARRIAGE_RETURN {
        lemma_boundary_after_ascii(bytes, to - 1);
    }
}

fn find_line_start(bytes: &[u8], at: usize) -> (ls: usize)
    requires
        at <= bytes@.len(),
    ensures
        ls == line_start(bytes@, at as int),
{
    let mut i: usize = at;
    while i > 0 && bytes[i - 1] != NEWLINE
        invariant
            i <= at <= bytes@.len(),
            line_start(bytes@, at as int) == line_start(bytes@, i as int),
        decreases i,
    {
        i -= 1;
    }
    i
}

fn find_line_end(bytes: &[u8], at: usize) -> (le: usize)
    requires
        at <= bytes@.len(),
    ensures
        le == line_end(bytes@, at as int),
{
    let mut i: usize = at;
    while i < bytes.len() && bytes[i] != NEWLINE
        invariant
            at <= i <= bytes@.len(),
            line_end(bytes@, at as int) == line_end(bytes@, i as int),
        decreases bytes@.len() - i,
    {
        i += 1;
    }
    i
}

fn count_newlines(bytes: &[u8], at: usize) -> (n: usize)
    requires
        at <= bytes@.len(),
    ensures
        n == newlines_before(bytes@, at as int),
{
    let mut i: usize = 0;
    let mut n: usize = 0;
    while i < at
        invariant
            i <= at <= bytes@.len(),
            n <= i,
            n == newlines_before(bytes@, i as int),
        decreases at - i,
    {
        if bytes[i] == NEWLINE {
            n += 1;
        }
        i += 1;
    }
    n
}

fn find_content_end(bytes: &[u8], from: usize, to: usize) -> (e: usize)
    requires
        from <= to <= bytes@.len(),
    ensures
        e == content_end(bytes@, from as int, to as int),
{
    if from < to && bytes[to - 1] == CARRIAGE_RETURN {
        to - 1
    } else {
        to
    }
}

fn owned_nonempty(source: &str, from: usize, to: usize) -> (r: Option<String>)
    requires
        from <= to <= source.spec_bytes().len(),
        is_char_boundary(source.spec_bytes(), from as int),
        is_char_boundary(source.spec_bytes(), to as int),
    ensures
        match r {
            Some(s) => Some(s@),
            None => None,
        } == nonempty_text(source.spec_bytes(), from as int, to as int),
{
    if from < to {
        Some(str_slice(source, from, to).to_owned())
    } else {
        None
    }
}

impl ParserErrorLocation {
    /// Finds the line around byte `start` of `source`, the column of `start`
    /// in it, both counted from one, and the lines before and after.
    pub fn new(source: &str, start: usize, len: usize) -> (loc: ParserErrorLocation)
        requires
            start <= source.spec_bytes().len() ==> is_char_boundary(
                source.spec_bytes(),
                start as int,
            ),
        ensures
            loc@ == locate(source.spec_bytes(), start as int, len as int),
    {
        let bytes = source.as_bytes();
        if start > bytes.len() {
            return ParserErrorLocation {
                line: 1,
                column: 1,
                len: #[verifier::truncate]
                (len as u32),
                line_content: String::new(),
                line_before: None,
                line_after: None,
            };
        }
        let ghost b = source.spec_bytes();
        let ls = find_line_start(bytes, start);
        let le = find_line_end(bytes, start);
        let line = count_newlines(bytes, start);
        proof {
            encode_utf8_valid_utf8(source@);
            lemma_line_start(b, start as int);
            lemma_line_end(b, start as int);
            lemma_line_boundaries(b, start as int);
            lemma_content_end_boundary(b, ls as int, le as int);
        }
        let column = str_slice(source, ls, start).unicode_len();
        let ce = find_content_end(bytes, ls, le);
        let line_content = str_slice(source, ls, ce).to_owned();
        let line_before = if ls == 0 {
            None
        } else {
            let from = find_line_start(bytes, ls - 1);
            proof {
                lemma_line_start(b, ls - 1);
                lemma_line_boundaries(b, ls - 1);
                lemma_boundary_after_ascii(b, ls - 1);
                lemma_content_end_boundary(b, from as int, ls - 1);
            }
            let to = find_content_end(bytes, from, ls - 1);
            owned_nonempty(source, from, to)
        };
        let line_after = if le >= bytes.len() {
            None
        } else {
            let to = find_line_end(bytes, le + 1);
            proof {
                lemma_line_end(b, le + 1);
                lemma_line_boundaries(b, le + 1);
                lemma_content_end_boundary(b, le + 1, to as int);
            }
            if to < bytes.len() {
                let e = find_content_end(bytes, le + 1, to);
                owned_nonempty(source, le + 1, e)
            } else {
                owned_nonempty(source, le + 1, to)
            }
        };
        let line_number: u128 = line as u128 + 1;
        let column_number: u128 = column as u128 + 1;
        ParserErrorLocation {
            line: #[verifier::truncate]
            (line_number as u32),
            column: #[verifier::truncate]
            (column_number as u32),
            len: #[verifier::truncate]
            (len as u32),
            line_content,
            line_before,
            line_after,
        }
    }
}

/// A source line with its number before it.
pub open spec fn numbered_line(number: nat, content: Seq<char>) -> Seq<char> {
    " "@ + decimal(number) + " | "@ + content + "\n"@
}

/// A source line with its number before it, where there is such a line.
pub open spec fn optional_line(number: nat, content: Option<Seq<char>>) -> Seq<char> {
    match content {
        Some(c) => numbered_line(number, c),
        None => Seq::empty(),
    }
}

/// The margin of the lines that hold no source: as wide as the greatest
/// line number shown.
pub open spec fn margin(v: LocationView) -> Seq<char> {
    let greatest = if v.line_after is Some {
        v.line + 1
    } else {
        v.line as int
    };
    " "@ + repeat(' ', decimal(greatest as nat).len()) + " |"@
}

/// The number of the line before a line; zero before the first.
pub open spec fn line_above(line: u32) -> nat {
    if line > 0 {
        (line - 1) as nat
    } else {
        0
    }
}

/// The location for a reader: a header with line and column as they are;
/// then, between two empty margins, the line before, the line itself,
/// carets under the place of the error, and the line after, each line with
/// its number. The carets stand as many places behind the margin as the
/// column says.
pub open spec fn rendered(v: LocationView) -> Seq<char> {
    let carets = if v.len == 0 {
        1nat
    } else {
        v.len as nat
    };
    "  --> "@ + decimal(v.line as nat) + ":"@ + decimal(v.column as nat) + "\n"@ + margin(v)
        + "\n"@ + optional_line(line_above(v.line), v.line_before) + numbered_line(
        v.line as nat,
        v.line_content,
    ) + margin(v) + repeat(' ', v.column as nat) + repeat('^', carets) + "\n"@ + optional_line(
        (v.line + 1) as nat,
        v.line_after,
    ) + margin(v) + "\n"@
}

fn push_numbered_line(s: &mut String, number: u64, content: &str)
    ensures
        final(s)@ == old(s)@ + numbered_line(number as nat, content@),
{
    s.append(" ");
    s.append(decimal_string(number).as_str());
    s.append(" | ");
    s.append(content);
    s.append("\n");
    assert(s@ =~= old(s)@ + numbered_line(number as nat, content@));
}

impl ParserErrorLocation {
    fn push_margin(&self, s: &mut String)
        ensures
            final(s)@ == old(s)@ + margin(self@),
    {
        let greatest: u64 = if self.line_after.is_some() {
            self.line as u64 + 1
        } else {
            self.line as u64
        };
        let width = decimal_string(greatest).as_str().unicode_len();
        proof {
            reveal_strlit(" ");
        }
        s.append(" ");
        push_repeated(s, " ", width);
        s.append(" |");
        assert(s@ =~= old(s)@ + margin(self@));
    }

    /// Writes the location for a reader.
    pub fn to_string(&self) -> (s: String)
        ensures
            s@ == rendered(self@),
    {
        proof {
            reveal_strlit(" ");
            reveal_strlit("^");
        }
        let mut s = "  --> ".to_owned();
        s.append(decimal_string(self.line as u64).as_str());
        s.append(":");
        s.append(decimal_string(self.column as u64).as_str());
        s.append("\n");
        self.push_margin(&mut s);
        s.append("\n");
        let ghost head = s@;
        let above: u32 = if self.line > 0 {
            self.line - 1
        } else {
            0
        };
        match &self.line_before {
            Some(before) => {
                push_numbered_line(&mut s, above as u64, before.as_str());
            },
            None => {},
        }
        assert(s@ =~= head + optional_line(line_above(self.line), self@.line_before));
        push_numbered_line(&mut s, self.line as u64, self.line_content.as_str());
        self.push_margin(&mut s);
        push_repeated(&mut s, " ", self.column as usize);
        let carets: usize = if self.len == 0 {
            1
        } else {
            self.len as usize
        };
        push_repeated(&mut s, "^", carets);
        s.append("\n");
        let ghost body = s@;
        match &self.line_after {
            Some(after) => {
                push_numbered_line(&mut s, self.line as u64 + 1, after.as_str());
            },
            None => {},
        }
        assert(s@ =~= body + optional_line((self.line + 1) as nat, self@.line_after));
        self.push_margin(&mut s);
        s.append("\n");
        assert(s@ =~= rendered(self@));
        s
    }
}

} // verus!
