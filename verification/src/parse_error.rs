//! The errors that compiling a query can end in, and where in the source
//! they lie.

use vstd::prelude::*;
use vstd::string::StringSliceAdditionalSpecFns;
use vstd::utf8::{decode_utf8, encode_utf8, is_char_boundary};
use crate::location::{locate, rendered, LocationView, ParserErrorLocation};
use crate::predicate::{InvalidPredicateError, InvalidPredicateView};
use crate::text::{
    debug_quoted, find_bytes, first_occurrence, leading_word, str_debug, str_slice, take_word,
};

verus! {

/// What a [`ParseError`] holds, as mathematical values.
pub enum ParseErrorView {
    UnexpectedEof,
    SyntaxError(LocationView),
    InvalidNodeType { node: Seq<char>, location: LocationView },
    InvalidFieldName { field: Seq<char>, location: LocationView },
    InvalidCaptureName { capture: Seq<char>, location: LocationView },
    InvalidPredicate { message: Seq<char>, location: LocationView },
    ImpossiblePattern(LocationView),
}

/// Why a query's source cannot be compiled.
#[derive(Debug, PartialEq, Eq)]
pub enum ParseError {
    /// The source ends too early.
    UnexpectedEof,
    /// The source is no well-formed list of patterns.
    SyntaxError(ParserErrorLocation),
    /// The grammar has no node of that type.
    InvalidNodeType { node: String, location: ParserErrorLocation },
    /// The grammar has no field of that name.
    InvalidFieldName { field: String, location: ParserErrorLocation },
    /// A predicate names a capture that the pattern lacks.
    InvalidCaptureName { capture: String, location: ParserErrorLocation },
    /// A predicate has the wrong arguments, or is refused by the user.
    InvalidPredicate { message: String, location: ParserErrorLocation },
    /// No tree of the grammar can match the pattern.
    ImpossiblePattern(ParserErrorLocation),
}

impl View for ParseError {
    type V = ParseErrorView;

    open spec fn view(&self) -> ParseErrorView {
        match self {
            ParseError::UnexpectedEof => ParseErrorView::UnexpectedEof,
            ParseError::SyntaxError(l) => ParseErrorView::SyntaxError(l@),
            ParseError::InvalidNodeType { node, location } => ParseErrorView::InvalidNodeType {
                node: node@,
                location: location@,
            },
            ParseError::InvalidFieldName { field, location } => ParseErrorView::InvalidFieldName {
                field: field@,
                location: location@,
            },
            ParseError::InvalidCaptureName {
                capture,
                location,
            } => ParseErrorView::InvalidCaptureName { capture: capture@, location: location@ },
            ParseError::InvalidPredicate {
                message,
                location,
            } => ParseErrorView::InvalidPredicate { message: message@, location: location@ },
            ParseError::ImpossiblePattern(l) => ParseErrorView::ImpossiblePattern(l@),
        }
    }
}

/// What the grammar library found wrong with a query's source.
#[derive(Debug, Clone, Copy, PartialEq, Eq, Structural)]
pub enum RawQueryError {
    Syntax,
    NodeType,
    Field,
    Capture,
    Structure,
}

/// A failure of the grammar library to compile a query: what is wrong, and
/// the byte offset in the source at which it is.
#[derive(Debug, Clone, Copy)]
pub struct CompileFailure {
    pub kind: RawQueryError,
    pub offset: u32,
}

impl CompileFailure {
    /// The offset lies between characters of the source; where the failure
    /// names a word, within the source.
    pub open spec fn wf(&self, bytes: Seq<u8>) -> bool {
        &&& self.offset <= bytes.len() ==> is_char_boundary(bytes, self.offset as int)
        &&& self.kind != RawQueryError::Syntax && self.kind != RawQueryError::Structure
            ==> self.offset <= bytes.len()
    }
}

impl CompileFailure {
    /// Whether the failure can be located in the source.
    pub fn check(&self, source: &str) -> (fits: bool)
        ensures
            fits == self.wf(source.spec_bytes()),
    {
        let offset = self.offset as usize;
        if offset <= source.as_bytes().len() {
            source.is_char_boundary(offset)
        } else {
            match self.kind {
                RawQueryError::Syntax => true,
                RawQueryError::Structure => true,
                _ => false,
            }
        }
    }
}

/// The name that starts at byte `offset` of a text.
pub open spec fn word_at(bytes: Seq<u8>, offset: int) -> Seq<char> {
    leading_word(decode_utf8(bytes.subrange(offset, bytes.len() as int)))
}

/// The error that a compile failure amounts to: for an unknown node type,
/// field or capture, the location spans the name at the offset.
pub open spec fn failure_error(bytes: Seq<u8>, failure: CompileFailure) -> ParseErrorView {
    let offset = failure.offset as int;
    let word = word_at(bytes, offset);
    match failure.kind {
        RawQueryError::NodeType => ParseErrorView::InvalidNodeType {
            node: word,
            location: locate(bytes, offset, word.len() as int),
        },
        RawQueryError::Field => ParseErrorView::InvalidFieldName {
            field: word,
            location: locate(bytes, offset, word.len() as int),
        },
        RawQueryError::Capture => ParseErrorView::InvalidCaptureName {
            capture: word,
            location: locate(bytes, offset, word.len() as int),
        },
        RawQueryError::Structure => ParseErrorView::ImpossiblePattern(locate(bytes, offset, 0)),
        RawQueryError::Syntax => ParseErrorView::SyntaxError(locate(bytes, offset, 0)),
    }
}

/// Whether the place of a refused predicate can be found in the source: the
/// name of an unknown predicate occurs behind the start of its pattern, with
/// a character before it; the name of an unknown property occurs there.
pub open spec fn locatable(bytes: Seq<u8>, pattern_start: int, err: InvalidPredicateView) -> bool {
    match err {
        InvalidPredicateView::UnknownPredicate { name } => {
            &&& 0 <= pattern_start <= bytes.len()
            &&& is_char_boundary(bytes, pattern_start)
            &&& first_occurrence(bytes, encode_utf8(name), pattern_start) is Some
            &&& first_occurrence(bytes, encode_utf8(name), pattern_start)->Some_0 >= 1
            &&& is_char_boundary(
                bytes,
                first_occurrence(bytes, encode_utf8(name), pattern_start)->Some_0 - 1,
            )
        },
        InvalidPredicateView::UnknownProperty { property } => {
            &&& 0 <= pattern_start <= bytes.len()
            &&& is_char_boundary(bytes, pattern_start)
            &&& first_occurrence(bytes, encode_utf8(property), pattern_start) is Some
        },
        InvalidPredicateView::Other { msg } => pattern_start <= bytes.len() ==> is_char_boundary(
            bytes,
            pattern_start,
        ),
    }
}

/// The error for a refused predicate of the pattern that starts at
/// `pattern_start`. An unknown predicate is located at the `#` before the
/// first occurrence of its name behind the start of the pattern, an unknown
/// property at the first occurrence of its name, anything else at the start
/// of the pattern.
pub open spec fn predicate_error(bytes: Seq<u8>, pattern_start: int, err: InvalidPredicateView) -> ParseErrorView {
    match err {
        InvalidPredicateView::UnknownPredicate { name } => ParseErrorView::InvalidPredicate {
            message: "unknown predicate #"@ + name,
            location: locate(
                bytes,
                first_occurrence(bytes, encode_utf8(name), pattern_start)->Some_0 - 1,
                (name.len() + 1) as int,
            ),
        },
        InvalidPredicateView::UnknownProperty { property } => ParseErrorView::InvalidPredicate {
            message: "unknown property '"@ + property + "'"@,
            location: locate(
                bytes,
                first_occurrence(bytes, encode_utf8(property), pattern_start)->Some_0,
                property.len() as int,
            ),
        },
        InvalidPredicateView::Other { msg } => ParseErrorView::InvalidPredicate {
            message: msg,
            location: locate(bytes, pattern_start, 0),
        },
    }
}

/// The error for a reader: what is wrong and, on the lines behind, where.
pub open spec fn parse_error_text(e: ParseErrorView) -> Seq<char> {
    match e {
        ParseErrorView::UnexpectedEof => "unexpected EOF"@,
        ParseErrorView::SyntaxError(l) => "invalid query syntax\n"@ + rendered(l),
        ParseErrorView::InvalidNodeType { node, location } => "invalid node type "@ + str_debug(
            node,
        ) + "\n"@ + rendered(location),
        ParseErrorView::InvalidFieldName { field, location } => "invalid field name "@
            + str_debug(field) + "\n"@ + rendered(location),
        ParseErrorView::InvalidCaptureName { capture, location } => "invalid capture name "@
            + str_debug(capture) + "\n"@ + rendered(location),
        ParseErrorView::InvalidPredicate { message, location } => message + "\n"@ + rendered(
            location,
        ),
        ParseErrorView::ImpossiblePattern(l) => "impossible pattern\n"@ + rendered(l),
    }
}

fn named_error(lead: &str, name: &str, location: &ParserErrorLocation) -> (s: String)
    ensures
        s@ == lead@ + str_debug(name@) + "\n"@ + rendered(location@),
{
    let mut s = lead.to_owned();
    s.append(debug_quoted(name).as_str());
    s.append("\n");
    s.append(location.to_string().as_str());
    s
}

impl ParseError {
    /// Writes the error for a reader.
    pub fn to_string(&self) -> (s: String)
        ensures
            s@ == parse_error_text(self@),
    {
        match self {
            ParseError::UnexpectedEof => "unexpected EOF".to_owned(),
            ParseError::SyntaxError(location) => {
                let mut s = "invalid query syntax\n".to_owned();
                s.append(location.to_string().as_str());
                s
            },
            ParseError::InvalidNodeType { node, location } => named_error(
                "invalid node type ",
                node.as_str(),
                location,
            ),
            ParseError::InvalidFieldName { field, location } => named_error(
                "invalid field name ",
                field.as_str(),
                location,
            ),
            ParseError::InvalidCaptureName { capture, location } => named_error(
                "invalid capture name ",
                capture.as_str(),
                location,
            ),
            ParseError::InvalidPredicate { message, location } => {
                let mut s = message.clone();
                s.append("\n");
                s.append(location.to_string().as_str());
                s
            },
            ParseError::ImpossiblePattern(location) => {
                let mut s = "impossible pattern\n".to_owned();
                s.append(location.to_string().as_str());
                s
            },
        }
    }

    /// The error that a compile failure of the grammar library amounts to.
    pub fn from_failure(source: &str, failure: CompileFailure) -> (e: ParseError)
        requires
            failure.wf(source.spec_bytes()),
        ensures
            e@ == failure_error(source.spec_bytes(), failure),
    {
        let offset = failure.offset as usize;
        match failure.kind {
            RawQueryError::NodeType => {
                let word = error_word(source, offset);
                let len = word.as_str().unicode_len();
                ParseError::InvalidNodeType {
                    location: ParserErrorLocation::new(source, offset, len),
                    node: word,
                }
            },
            RawQueryError::Field => {
                let word = error_word(source, offset);
                let len = word.as_str().unicode_len();
                ParseError::InvalidFieldName {
                    location: ParserErrorLocation::new(source, offset, len),
                    field: word,
                }
            },
            RawQueryError::Capture => {
                let word = error_word(source, offset);
                let len = word.as_str().unicode_len();
                ParseError::InvalidCaptureName {
                    location: ParserErrorLocation::new(source, offset, len),
                    capture: word,
                }
            },
            RawQueryError::Structure => ParseError::ImpossiblePattern(
                ParserErrorLocation::new(source, offset, 0),
            ),
            RawQueryError::Syntax => ParseError::SyntaxError(
                ParserErrorLocation::new(source, offset, 0),
            ),
        }
    }

    /// The error for a predicate that was refused with `err`, in the pattern
    /// that starts at byte `pattern_start` of the source.
    pub fn from_predicate(source: &str, pattern_start: usize, err: InvalidPredicateError) -> (e:
        ParseError)
        requires
            locatable(source.spec_bytes(), pattern_start as int, err@),
        ensures
            e@ == predicate_error(source.spec_bytes(), pattern_start as int, err@),
    {
        let ghost bytes = source.spec_bytes();
        proof {
            vstd::utf8::encode_utf8_valid_utf8(source@);
        }
        match err {
            InvalidPredicateError::UnknownPredicate { name } => {
                let hay = source.as_bytes();
                let ghost total = hay.len();
                let found = find_bytes(hay, name.as_str().as_bytes(), pattern_start);
                let offset = found.unwrap() - 1;
                let mut message = "unknown predicate #".to_owned();
                message.append(name.as_str());
                let len = name.as_str().unicode_len();
                proof {
                    crate::text::lemma_first_occurrence(
                        bytes,
                        encode_utf8(name@),
                        pattern_start as int,
                    );
                    crate::text::lemma_chars_fit(name@);
                }
                ParseError::InvalidPredicate {
                    message,
                    location: ParserErrorLocation::new(source, offset, len + 1),
                }
            },
            InvalidPredicateError::UnknownProperty { property } => {
                let found = find_bytes(
                    source.as_bytes(),
                    property.as_str().as_bytes(),
                    pattern_start,
                );
                let offset = found.unwrap();
                proof {
                    if property@.len() == 0 {
                        assert(bytes.subrange(pattern_start as int, pattern_start + 0)
                            =~= encode_utf8(property@));
                    }
                    crate::text::lemma_first_occurrence(
                        bytes,
                        encode_utf8(property@),
                        pattern_start as int,
                    );
                    crate::text::lemma_occurrence_boundary(bytes, property@, offset as int);
                }
                let mut message = "unknown property '".to_owned();
                message.append(property.as_str());
                message.append("'");
                let len = property.as_str().unicode_len();
                ParseError::InvalidPredicate {
                    message,
                    location: ParserErrorLocation::new(source, offset, len),
                }
            },
            InvalidPredicateError::Other { msg } => ParseError::InvalidPredicate {
                message: msg,
                location: ParserErrorLocation::new(source, pattern_start, 0),
            },
        }
    }
}

fn error_word(source: &str, offset: usize) -> (word: String)
    requires
        offset <= source.spec_bytes().len(),
        is_char_boundary(source.spec_bytes(), offset as int),
    ensures
        word@ == word_at(source.spec_bytes(), offset as int),
{
    proof {
        vstd::utf8::encode_utf8_valid_utf8(source@);
        vstd::utf8::is_char_boundary_start_end_of_seq(source.spec_bytes());
    }
    take_word(str_slice(source, offset, source.as_bytes().len())).to_owned()
}

} // verus!
