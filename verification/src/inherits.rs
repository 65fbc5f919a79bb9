//! The `inherits` directive of query files: a comment at the top of a
//! query that names the languages whose queries the query builds on.

use vstd::prelude::*;
use vstd::string::StringSliceAdditionalSpecFns;
use vstd::utf8::{decode_utf8, encode_utf8, is_char_boundary, valid_utf8};
use crate::text::{lemma_boundary_after_ascii, str_slice};

verus! {

/// The directive, as a regex: `; inherits: a,b` with any number of
/// semicolons, an optional colon, and space where one expects it. Its one
/// group holds the list of languages.
pub const INHERITS_PATTERN: &'static str = r";+\s*inherits\s*:?\s*([a-z_,()-]+)\s*";

/// The comma that parts the languages of a directive.
pub const COMMA: u8 = 44;

/// A match of a regex with one group: the bytes that the match spans, and
/// those that its group spans if the group took part in the match.
pub struct GroupSpan {
    pub whole: Option<(usize, usize)>,
    pub group: Option<(usize, usize)>,
}

/// The matches of a regex in a text, one after the other without overlap,
/// each with the span of its first group; none if the pattern is no regex.
pub uninterp spec fn regex_group_spans(pattern: Seq<char>, text: Seq<char>) -> Seq<GroupSpan>;

/// The span lies within the text, between characters.
pub open spec fn span_wf(span: (usize, usize), bytes: Seq<u8>) -> bool {
    &&& span.0 <= span.1 <= bytes.len()
    &&& is_char_boundary(bytes, span.0 as int)
    &&& is_char_boundary(bytes, span.1 as int)
}

/// Each match and each group lies within the text, between characters,
/// the group within its match, and each match behind the one before.
pub open spec fn spans_wf(spans: Seq<GroupSpan>, bytes: Seq<u8>) -> bool {
    &&& forall|i: int|
        0 <= i < spans.len() ==> {
            &&& (#[trigger] spans[i]).whole is Some
            &&& span_wf(spans[i].whole->Some_0, bytes)
            &&& match spans[i].group {
                Some(group) => {
                    &&& span_wf(group, bytes)
                    &&& spans[i].whole->Some_0.0 <= group.0
                    &&& group.1 <= spans[i].whole->Some_0.1
                },
                None => true,
            }
        }
    &&& forall|i: int, j: int|
        0 <= i < j < spans.len() ==> (#[trigger] spans[i]).whole->Some_0.1 <= (
        #[trigger] spans[j]).whole->Some_0.0
}

/// `Regex::new` and `Regex::captures_iter`, with `Captures::get` for the
/// match and its first group: the successive matches of the pattern in the
/// text, which do not overlap, with offsets between characters. Each match
/// has its whole span. A pattern that is no regex has no match.
#[verifier::external_body]
fn group_spans(pattern: &str, text: &str) -> (spans: Vec<GroupSpan>)
    ensures
        spans@ == regex_group_spans(pattern@, text@),
        spans_wf(spans@, encode_utf8(text@)),
{
    match regex::Regex::new(pattern) {
        Ok(regex) => regex
            .captures_iter(text)
            .map(|c| GroupSpan {
                whole: c.get(0).map(|m| (m.start(), m.end())),
                group: c.get(1).map(|m| (m.start(), m.end())),
            })
            .collect(),
        Err(_) => Vec::new(),
    }
}

/// An `inherits` directive in a query: the bytes that it spans, and the
/// languages that it names.
#[derive(Debug, Clone, PartialEq, Eq)]
pub struct Inherits {
    pub start: usize,
    pub end: usize,
    pub languages: Vec<String>,
}

/// The texts of a list of strings.
pub open spec fn string_views(v: Seq<String>) -> Seq<Seq<char>> {
    Seq::new(v.len(), |i: int| v[i]@)
}

/// The pieces between the commas of a range of a text, where the piece
/// at hand started at `start` and holds no comma before `at`.
pub open spec fn comma_scan(bytes: Seq<u8>, start: int, at: int, to: int) -> Seq<Seq<char>>
    decreases to - at,
{
    if at >= to {
        seq![decode_utf8(bytes.subrange(start, to))]
    } else if bytes[at] == COMMA {
        seq![decode_utf8(bytes.subrange(start, at))] + comma_scan(bytes, at + 1, at + 1, to)
    } else {
        comma_scan(bytes, start, at + 1, to)
    }
}

/// The pieces between the commas of a range of a text: one more than there
/// are commas.
pub open spec fn comma_pieces(bytes: Seq<u8>, from: int, to: int) -> Seq<Seq<char>> {
    comma_scan(bytes, from, from, to)
}

/// The directives among the matches: those whose group took part.
pub open spec fn directives_of(spans: Seq<GroupSpan>, bytes: Seq<u8>, n: int) -> Seq<
    (int, int, Seq<Seq<char>>),
>
    decreases n,
{
    if n <= 0 {
        Seq::empty()
    } else {
        match (spans[n - 1].whole, spans[n - 1].group) {
            (Some(whole), Some(group)) => directives_of(spans, bytes, n - 1).push(
                (
                    whole.0 as int,
                    whole.1 as int,
                    comma_pieces(bytes, group.0 as int, group.1 as int),
                ),
            ),
            _ => directives_of(spans, bytes, n - 1),
        }
    }
}

/// What directives hold, as mathematical values.
pub open spec fn directive_views(v: Seq<Inherits>) -> Seq<(int, int, Seq<Seq<char>>)> {
    Seq::new(v.len(), |i: int| (v[i].start as int, v[i].end as int, string_views(v[i].languages@)))
}

/// The directives lie within the text, between characters, one behind the
/// other.
pub open spec fn directives_wf(v: Seq<Inherits>, bytes: Seq<u8>) -> bool {
    &&& forall|i: int|
        0 <= i < v.len() ==> {
            &&& (#[trigger] v[i]).start <= v[i].end <= bytes.len()
            &&& is_char_boundary(bytes, v[i].start as int)
            &&& is_char_boundary(bytes, v[i].end as int)
        }
    &&& forall|i: int, j: int|
        0 <= i < j < v.len() ==> (#[trigger] v[i]).end <= (#[trigger] v[j]).start
}

fn split_commas(text: &str, from: usize, to: usize) -> (pieces: Vec<String>)
    requires
        from <= to <= text.spec_bytes().len(),
        is_char_boundary(text.spec_bytes(), from as int),
        is_char_boundary(text.spec_bytes(), to as int),
    ensures
        string_views(pieces@) == comma_pieces(text.spec_bytes(), from as int, to as int),
{
    let bytes = text.as_bytes();
    let ghost b = text.spec_bytes();
    let mut pieces: Vec<String> = Vec::new();
    let mut start: usize = from;
    let mut at: usize = from;
    proof {
        vstd::utf8::encode_utf8_valid_utf8(text@);
        assert(string_views(pieces@) + comma_scan(b, start as int, at as int, to as int)
            =~= comma_pieces(b, from as int, to as int));
    }
    while at < to
        invariant
            bytes@ == b,
            b == text.spec_bytes(),
            valid_utf8(b),
            from <= start <= at <= to <= b.len(),
            is_char_boundary(b, start as int),
            is_char_boundary(b, to as int),
            string_views(pieces@) + comma_scan(b, start as int, at as int, to as int)
                == comma_pieces(b, from as int, to as int),
        decreases to - at,
    {
        if bytes[at] == COMMA {
            proof {
                lemma_boundary_after_ascii(b, at as int);
            }
            let piece = str_slice(text, start, at).to_owned();
            proof {
                let rest = comma_scan(b, at + 1, at + 1, to as int);
                assert(string_views(pieces@.push(piece)) + rest =~= string_views(pieces@) + (seq![
                    piece@,
                ] + rest));
            }
            pieces.push(piece);
            start = at + 1;
        }
        at += 1;
    }
    let piece = str_slice(text, start, to).to_owned();
    proof {
        assert(string_views(pieces@.push(piece)) =~= string_views(pieces@) + seq![piece@]);
    }
    pieces.push(piece);
    pieces
}

/// The `inherits` directives of a query, in the order of the text.
pub fn inherits_directives(query: &str) -> (directives: Vec<Inherits>)
    ensures
        directives_wf(directives@, query.spec_bytes()),
        directive_views(directives@) == directives_of(
            regex_group_spans(INHERITS_PATTERN@, query@),
            query.spec_bytes(),
            regex_group_spans(INHERITS_PATTERN@, query@).len() as int,
        ),
{
    let spans = group_spans(INHERITS_PATTERN, query);
    let ghost b = query.spec_bytes();
    let mut directives: Vec<Inherits> = Vec::new();
    let mut i: usize = 0;
    proof {
        assert(directive_views(directives@) =~= directives_of(spans@, b, 0));
    }
    while i < spans.len()
        invariant
            b == query.spec_bytes(),
            spans_wf(spans@, b),
            i <= spans@.len(),
            directive_views(directives@) == directives_of(spans@, b, i as int),
            directives_wf(directives@, b),
            forall|k: int|
                0 <= k < directives@.len() ==> exists|j: int|
                    0 <= j < i && (#[trigger] spans@[j]).whole->Some_0.1 == (
                    #[trigger] directives@[k]).end,
        decreases spans@.len() - i,
    {
        let ghost before = directives@;
        match (spans[i].whole, spans[i].group) {
            (Some((start, end)), Some((from, to))) => {
                let languages = split_commas(query, from, to);
                let found = Inherits { start, end, languages };
                proof {
                    assert(directive_views(directives@.push(found)) =~= directive_views(
                        directives@,
                    ).push((found.start as int, found.end as int, string_views(found.languages@))));
                    assert forall|a: int, c: int|
                        0 <= a < c < directives@.len() + 1 implies (#[trigger] directives@.push(
                        found,
                    )[a]).end <= (#[trigger] directives@.push(found)[c]).start by {
                        if c == directives@.len() {
                            let j = choose|j: int|
                                0 <= j < i && (#[trigger] spans@[j]).whole->Some_0.1
                                    == directives@[a].end;
                            assert(spans@[j].whole->Some_0.1 <= spans@[i as int].whole->Some_0.0);
                        }
                    }
                }
                directives.push(found);
            },
            _ => {},
        }
        proof {
            assert forall|k: int| 0 <= k < directives@.len() implies exists|j: int|
                0 <= j < i + 1 && (#[trigger] spans@[j]).whole->Some_0.1 == (
                #[trigger] directives@[k]).end by {
                if k < before.len() {
                    let j = choose|j: int|
                        0 <= j < i && (#[trigger] spans@[j]).whole->Some_0.1 == before[k].end;
                    assert(spans@[j].whole->Some_0.1 == directives@[k].end);
                } else {
                    assert(spans@[i as int].whole->Some_0.1 == directives@[k].end);
                }
            }
        }
        i += 1;
    }
    directives
}

/// The texts, each between two line breaks.
pub open spec fn wrapped(texts: Seq<Seq<char>>, n: int) -> Seq<char>
    decreases n,
{
    if n <= 0 {
        Seq::empty()
    } else {
        wrapped(texts, n - 1) + "\n"@ + texts[n - 1] + "\n"@
    }
}

/// The query up to the end of its first `n` directives, with each
/// directive replaced by the queries that it inherits.
pub open spec fn spliced_upto(
    bytes: Seq<u8>,
    directives: Seq<Inherits>,
    inherited: Seq<Vec<String>>,
    n: int,
) -> Seq<char>
    decreases n,
{
    if n <= 0 {
        Seq::empty()
    } else {
        let from = if n == 1 {
            0
        } else {
            directives[n - 2].end as int
        };
        spliced_upto(bytes, directives, inherited, n - 1) + decode_utf8(
            bytes.subrange(from, directives[n - 1].start as int),
        ) + wrapped(string_views(inherited[n - 1]@), inherited[n - 1]@.len() as int)
    }
}

/// The query with each directive replaced by the queries that it inherits,
/// each between two line breaks.
pub open spec fn spliced(bytes: Seq<u8>, directives: Seq<Inherits>, inherited: Seq<Vec<String>>) -> Seq<
    char,
> {
    let from = if directives.len() == 0 {
        0
    } else {
        directives.last().end as int
    };
    spliced_upto(bytes, directives, inherited, directives.len() as int) + decode_utf8(
        bytes.subrange(from, bytes.len() as int),
    )
}

/// Replaces each directive of a query by the queries that it inherits:
/// `inherited` holds, for each directive, the query of each of its
/// languages.
pub fn expand_inherits(query: &str, directives: &[Inherits], inherited: &[Vec<String>]) -> (expanded:
    String)
    requires
        directives_wf(directives@, query.spec_bytes()),
        inherited@.len() == directives@.len(),
    ensures
        expanded@ == spliced(query.spec_bytes(), directives@, inherited@),
{
    let ghost b = query.spec_bytes();
    let total = query.as_bytes().len();
    let mut expanded = String::new();
    let mut from: usize = 0;
    let mut i: usize = 0;
    proof {
        vstd::utf8::encode_utf8_valid_utf8(query@);
        vstd::utf8::is_char_boundary_start_end_of_seq(b);
    }
    while i < directives.len()
        invariant
            b == query.spec_bytes(),
            valid_utf8(b),
            total == b.len(),
            directives_wf(directives@, b),
            inherited@.len() == directives@.len(),
            i <= directives@.len(),
            from == if i == 0 {
                0
            } else {
                directives@[i - 1].end as int
            },
            from <= b.len(),
            is_char_boundary(b, from as int),
            is_char_boundary(b, b.len() as int),
            expanded@ == spliced_upto(b, directives@, inherited@, i as int),
        decreases directives@.len() - i,
    {
        let directive = &directives[i];
        proof {
            if i > 0 {
                assert(directives@[i - 1].end <= directives@[i as int].start);
            }
        }
        expanded.append(str_slice(query, from, directive.start));
        let texts = &inherited[i];
        let ghost head = expanded@;
        let mut k: usize = 0;
        while k < texts.len()
            invariant
                k <= texts@.len(),
                expanded@ == head + wrapped(string_views(texts@), k as int),
            decreases texts@.len() - k,
        {
            expanded.append("\n");
            expanded.append(texts[k].as_str());
            expanded.append("\n");
            k += 1;
            proof {
                assert(string_views(texts@)[k - 1] == texts@[k - 1]@);
                assert(expanded@ =~= head + wrapped(string_views(texts@), k as int));
            }
        }
        from = directive.end;
        i += 1;
        proof {
            assert(expanded@ =~= spliced_upto(b, directives@, inherited@, i as int));
        }
    }
    expanded.append(str_slice(query, from, total));
    proof {
        assert(expanded@ =~= spliced(b, directives@, inherited@));
    }
    expanded
}

} // verus!
