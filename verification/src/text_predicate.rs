//! Text predicates: tests on the text of the nodes that a match captured.

use vstd::prelude::*;
use vstd::utf8::{encode_utf8, is_char_boundary};
use regex_cursor::engines::meta::Regex;
use crate::Range;
use crate::classify::text_predicate_wf;
use crate::query::{Capture, Pattern, Query, QueryDataView, QueryStr};
use crate::regex::regex_is_match;
use crate::input::{at_char_boundary, input_matches_str, TsInput};

verus! {

/// What a [`TextPredicateKind`] holds, as mathematical values.
pub enum TextPredicateKindView {
    EqString(QueryStr),
    EqCapture(Capture),
    MatchString(Regex),
    AnyString(Seq<QueryStr>),
}

/// The test that a text predicate makes on the text of a captured node.
#[derive(Debug)]
pub enum TextPredicateKind {
    /// The text is that of a string literal.
    EqString(QueryStr),
    /// The text is that of the node that another capture holds at the same
    /// place.
    EqCapture(Capture),
    /// The regex matches somewhere in the text.
    MatchString(Regex),
    /// The text is that of one of the string literals.
    AnyString(Vec<QueryStr>),
}

impl View for TextPredicateKind {
    type V = TextPredicateKindView;

    open spec fn view(&self) -> TextPredicateKindView {
        match self {
            TextPredicateKind::EqString(s) => TextPredicateKindView::EqString(*s),
            TextPredicateKind::EqCapture(c) => TextPredicateKindView::EqCapture(*c),
            TextPredicateKind::MatchString(r) => TextPredicateKindView::MatchString(*r),
            TextPredicateKind::AnyString(v) => TextPredicateKindView::AnyString(v@),
        }
    }
}

/// What a [`TextPredicate`] holds, as mathematical values.
pub struct TextPredicateView {
    pub capture: Capture,
    pub kind: TextPredicateKindView,
    pub negated: bool,
    pub match_all: bool,
}

/// A test on the nodes that a match holds under one capture. With
/// `match_all` every such node must pass, else one of them; with `negated` a
/// node passes where the test fails.
#[derive(Debug)]
pub struct TextPredicate {
    pub capture: Capture,
    pub kind: TextPredicateKind,
    pub negated: bool,
    pub match_all: bool,
}

impl View for TextPredicate {
    type V = TextPredicateView;

    open spec fn view(&self) -> TextPredicateView {
        TextPredicateView {
            capture: self.capture,
            kind: self.kind@,
            negated: self.negated,
            match_all: self.match_all,
        }
    }
}

/// A node that a match captured: the span of the node, the capture that
/// holds it, and the pattern that matched.
#[derive(Debug, Clone, Copy)]
pub struct MatchedNode {
    pub node: Range,
    pub capture: Capture,
    pub pattern: Pattern,
}

/// The span lies within the text, between characters.
pub open spec fn span_in_text(span: Range, text: Seq<u8>) -> bool {
    &&& span.start_byte <= span.end_byte <= text.len()
    &&& is_char_boundary(text, span.start_byte as int)
    &&& is_char_boundary(text, span.end_byte as int)
}

/// The span lies within the text.
pub open spec fn span_in_bounds(span: Range, text: Seq<u8>) -> bool {
    span.start_byte <= span.end_byte <= text.len()
}

/// What a predicate asks of a node of a match. A node that its capture
/// holds lies within the text. The nodes that the two captures of an
/// `EqCapture` hold lie between characters as well, as their texts are
/// taken out of the text. Of the nodes of other captures nothing is asked.
pub open spec fn node_fits(p: TextPredicateView, text: Seq<u8>, node: MatchedNode) -> bool {
    match p.kind {
        TextPredicateKindView::EqCapture(other) => (node.capture == p.capture || node.capture
            == other) ==> span_in_text(node.node, text),
        _ => node.capture == p.capture ==> span_in_bounds(node.node, text),
    }
}

/// What a predicate asks of the nodes of a match, of each of them.
pub open spec fn nodes_fit(p: TextPredicateView, text: Seq<u8>, nodes: Seq<MatchedNode>) -> bool {
    forall|i: int| 0 <= i < nodes.len() ==> node_fits(p, text, #[trigger] nodes[i])
}

/// Whether the span lies within the text that `input` reads, between
/// characters.
pub fn span_fits<I: TsInput>(input: &mut I, span: Range) -> (fits: bool)
    requires
        old(input).wf(),
    ensures
        final(input).wf(),
        final(input).text() == old(input).text(),
        fits == span_in_text(span, old(input).text()),
{
    if span.start_byte > span.end_byte || span.end_byte as usize > input.len() {
        return false;
    }
    let starts = at_char_boundary(input, span.start_byte);
    let ends = at_char_boundary(input, span.end_byte);
    starts && ends
}

/// The bytes of a span of the text.
pub open spec fn span_text(text: Seq<u8>, span: Range) -> Seq<u8> {
    text.subrange(span.start_byte as int, span.end_byte as int)
}

/// The spans of the nodes that the capture holds, in the order of the
/// match.
pub open spec fn spans_of(nodes: Seq<MatchedNode>, capture: Capture) -> Seq<Range>
    decreases nodes.len(),
{
    if nodes.len() == 0 {
        Seq::empty()
    } else if nodes.last().capture == capture {
        spans_of(nodes.drop_last(), capture).push(nodes.last().node)
    } else {
        spans_of(nodes.drop_last(), capture)
    }
}

/// Whether the text of one node passes the test of a predicate that looks
/// at one node at a time.
pub open spec fn span_passes(
    kind: TextPredicateKindView,
    data: QueryDataView,
    text: Seq<u8>,
    span: Range,
) -> bool {
    match kind {
        TextPredicateKindView::EqString(s) => span_text(text, span) == encode_utf8(data.string(s)),
        TextPredicateKindView::MatchString(regex) => regex_is_match(regex, span_text(text, span)),
        TextPredicateKindView::AnyString(ids) => exists|j: int|
            0 <= j < ids.len() && span_text(text, span) == encode_utf8(
                data.string(#[trigger] ids[j]),
            ),
        TextPredicateKindView::EqCapture(_) => false,
    }
}

/// Whether the results of the test on each node satisfy the predicate:
/// with `match_all` all of them count, else one of them; with `negated` a
/// node counts where the test fails.
pub open spec fn reduce(results: Seq<bool>, negated: bool, match_all: bool) -> bool {
    if match_all {
        forall|i: int| 0 <= i < results.len() ==> #[trigger] results[i] != negated
    } else {
        exists|i: int| 0 <= i < results.len() && #[trigger] results[i] != negated
    }
}

/// The result of the test on each node of a capture.
pub open spec fn span_results(
    kind: TextPredicateKindView,
    data: QueryDataView,
    text: Seq<u8>,
    spans: Seq<Range>,
) -> Seq<bool> {
    Seq::new(spans.len(), |i: int| span_passes(kind, data, text, spans[i]))
}

/// Whether the texts of each pair of nodes are the same; a capture's
/// nodes beyond those of the other capture have no pair.
pub open spec fn pair_results(text: Seq<u8>, mine: Seq<Range>, others: Seq<Range>) -> Seq<bool> {
    Seq::new(
        if mine.len() <= others.len() {
            mine.len()
        } else {
            others.len()
        },
        |i: int| span_text(text, mine[i]) == span_text(text, others[i]),
    )
}

/// Whether a match satisfies a text predicate. A predicate on one capture
/// tests each node that the capture holds. `EqCapture` pairs the nodes of
/// its two captures in the order of the match and compares the texts of
/// each pair; with `match_all` both captures must hold equally many nodes.
pub open spec fn satisfied_by(
    p: TextPredicateView,
    data: QueryDataView,
    text: Seq<u8>,
    nodes: Seq<MatchedNode>,
) -> bool {
    let mine = spans_of(nodes, p.capture);
    match p.kind {
        TextPredicateKindView::EqCapture(other) => {
            let others = spans_of(nodes, other);
            &&& reduce(pair_results(text, mine, others), p.negated, p.match_all)
            &&& (p.match_all ==> mine.len() == others.len())
        },
        _ => reduce(span_results(p.kind, data, text, mine), p.negated, p.match_all),
    }
}

/// The spans that a longer list of nodes gives start with those that the
/// shorter list gives.
pub proof fn lemma_spans_of_push(nodes: Seq<MatchedNode>, node: MatchedNode, capture: Capture)
    ensures
        spans_of(nodes.push(node), capture) == if node.capture == capture {
            spans_of(nodes, capture).push(node.node)
        } else {
            spans_of(nodes, capture)
        },
{
    assert(nodes.push(node).drop_last() =~= nodes);
}

/// Whether one of the nodes that the capture holds has that span.
pub open spec fn span_among(nodes: Seq<MatchedNode>, capture: Capture, span: Range) -> bool {
    exists|i: int|
        0 <= i < nodes.len() && (#[trigger] nodes[i]).node == span && nodes[i].capture == capture
}

/// The spans of the nodes that the capture holds, in the order of the
/// match.
pub fn capture_spans(nodes: &[MatchedNode], capture: Capture) -> (spans: Vec<Range>)
    ensures
        spans@ == spans_of(nodes@, capture),
        forall|k: int| 0 <= k < spans@.len() ==> span_among(nodes@, capture, #[trigger] spans@[k]),
{
    let mut spans: Vec<Range> = Vec::new();
    let mut i: usize = 0;
    while i < nodes.len()
        invariant
            i <= nodes@.len(),
            spans@ == spans_of(nodes@.take(i as int), capture),
            forall|k: int| 0 <= k < spans@.len() ==> span_among(nodes@, capture, #[trigger] spans@[k]),
        decreases nodes@.len() - i,
    {
        proof {
            lemma_spans_of_push(nodes@.take(i as int), nodes@[i as int], capture);
            assert(nodes@.take(i as int).push(nodes@[i as int]) =~= nodes@.take(i + 1));
        }
        if nodes[i].capture == capture {
            let ghost before = spans@;
            spans.push(nodes[i].node);
            assert forall|k: int| 0 <= k < spans@.len() implies span_among(
                nodes@,
                capture,
                #[trigger] spans@[k],
            ) by {
                if k < before.len() {
                    assert(spans@[k] == before[k]);
                } else {
                    assert(nodes@[i as int].node == spans@[k]);
                }
            }
        }
        i += 1;
    }
    assert(nodes@.take(nodes@.len() as int) =~= nodes@);
    spans
}

impl TextPredicate {
    fn span_test<I: TsInput>(&self, input: &mut I, span: Range, query: &Query) -> (r: bool)
        requires
            old(input).wf(),
            query.wf(),
            text_predicate_wf(query@.data, self@),
            !(self.kind is EqCapture),
            span.start_byte <= span.end_byte <= old(input).text().len(),
        ensures
            final(input).wf(),
            final(input).text() == old(input).text(),
            r == span_passes(self@.kind, query@.data, old(input).text(), span),
    {
        match &self.kind {
            TextPredicateKind::EqString(str) => input_matches_str(
                query.get_string(*str),
                span.start_byte..span.end_byte,
                input,
            ),
            TextPredicateKind::MatchString(regex) => input.is_match(
                regex,
                span.start_byte,
                span.end_byte,
            ),
            TextPredicateKind::AnyString(strings) => {
                let ghost text = input.text();
                let len = (span.end_byte - span.start_byte) as usize;
                let mut j: usize = 0;
                assert(self@.kind == TextPredicateKindView::AnyString(strings@));
                assert(text_predicate_wf(query@.data, self@));
                assert(self@.kind->AnyString_0 == strings@);
                assert(forall|i: int|
                    0 <= i < self@.kind->AnyString_0.len() ==> (
                    #[trigger] self@.kind->AnyString_0[i]).0 < query@.data.strings.len());
                while j < strings.len()
                    invariant
                        input.wf(),
                        input.text() == text,
                        text == old(input).text(),
                        self@.kind == TextPredicateKindView::AnyString(strings@),
                        query.wf(),
                        j <= strings@.len(),
                        len == span.end_byte - span.start_byte,
                        span.start_byte <= span.end_byte <= text.len(),
                        forall|k: int|
                            0 <= k < strings@.len() ==> (#[trigger] strings@[k]).0
                                < query@.data.strings.len(),
                        forall|k: int|
                            0 <= k < j ==> span_text(text, span) != encode_utf8(
                                query@.data.string(#[trigger] strings@[k]),
                            ),
                    decreases strings@.len() - j,
                {
                    let str = query.get_string(strings[j]);
                    if str.as_bytes().len() == len && input_matches_str(
                        str,
                        span.start_byte..span.end_byte,
                        input,
                    ) {
                        assert(span_text(text, span) == encode_utf8(
                            query@.data.string(self@.kind->AnyString_0[j as int]),
                        ));
                        return true;
                    }
                    j += 1;
                }
                false
            },
            TextPredicateKind::EqCapture(_) => false,
        }
    }

    /// Whether the nodes of a match satisfy the predicate on the text that
    /// `input` reads. The nodes that the predicate looks at lie within the
    /// text; those of the two captures of an `EqCapture` between characters.
    pub fn satisfied<I: TsInput>(&self, input: &mut I, matched_nodes: &[MatchedNode], query: &Query) -> (r: bool)
        requires
            old(input).wf(),
            query.wf(),
            text_predicate_wf(query@.data, self@),
            nodes_fit(self@, old(input).text(), matched_nodes@),
        ensures
            final(input).wf(),
            final(input).text() == old(input).text(),
            r == satisfied_by(self@, query@.data, old(input).text(), matched_nodes@),
    {
        let ghost text = input.text();
        let mine = capture_spans(matched_nodes, self.capture);
        assert forall|i: int| 0 <= i < mine@.len() implies span_in_bounds(
            #[trigger] mine@[i],
            text,
        ) && (self.kind is EqCapture ==> span_in_text(mine@[i], text)) by {
            assert(span_among(matched_nodes@, self.capture, mine@[i]));
            let w = choose|w: int|
                0 <= w < matched_nodes@.len() && (#[trigger] matched_nodes@[w]).node == mine@[i]
                    && matched_nodes@[w].capture == self.capture;
            assert(node_fits(self@, text, matched_nodes@[w]));
        }
        match &self.kind {
            TextPredicateKind::EqCapture(other) => {
                let others = capture_spans(matched_nodes, *other);
                assert forall|i: int| 0 <= i < others@.len() implies span_in_text(
                    #[trigger] others@[i],
                    text,
                ) by {
                    assert(span_among(matched_nodes@, *other, others@[i]));
                    let w = choose|w: int|
                        0 <= w < matched_nodes@.len() && (#[trigger] matched_nodes@[w]).node
                            == others@[i] && matched_nodes@[w].capture == *other;
                    assert(node_fits(self@, text, matched_nodes@[w]));
                }
                let pairs = if mine.len() <= others.len() {
                    mine.len()
                } else {
                    others.len()
                };
                let ghost results = pair_results(text, mine@, others@);
                let mut k: usize = 0;
                while k < pairs
                    invariant
                        input.wf(),
                        input.text() == text,
                        text == old(input).text(),
                        self@.kind == TextPredicateKindView::EqCapture(*other),
                        mine@ == spans_of(matched_nodes@, self.capture),
                        others@ == spans_of(matched_nodes@, *other),
                        k <= pairs,
                        pairs <= mine@.len(),
                        pairs <= others@.len(),
                        results == pair_results(text, mine@, others@),
                        results.len() == pairs,
                        forall|i: int| 0 <= i < mine@.len() ==> span_in_text(#[trigger] mine@[i], text),
                        forall|i: int|
                            0 <= i < others@.len() ==> span_in_text(#[trigger] others@[i], text),
                        forall|i: int|
                            0 <= i < k ==> (#[trigger] results[i] != self.negated) == self.match_all,
                    decreases pairs - k,
                {
                    let a = mine[k];
                    let b = others[k];
                    let same = input.eq(a.start_byte..a.end_byte, b.start_byte..b.end_byte);
                    assert(same == results[k as int]);
                    if (same != self.negated) != self.match_all {
                        return !self.match_all;
                    }
                    k += 1;
                }
                self.match_all && mine.len() == others.len()
            },
            _ => {
                let ghost results = span_results(self@.kind, query@.data, text, mine@);
                let mut k: usize = 0;
                while k < mine.len()
                    invariant
                        input.wf(),
                        input.text() == text,
                        text == old(input).text(),
                        mine@ == spans_of(matched_nodes@, self.capture),
                        query.wf(),
                        text_predicate_wf(query@.data, self@),
                        !(self.kind is EqCapture),
                        k <= mine@.len(),
                        results == span_results(self@.kind, query@.data, text, mine@),
                        forall|i: int|
                            0 <= i < mine@.len() ==> span_in_bounds(#[trigger] mine@[i], text),
                        forall|i: int|
                            0 <= i < k ==> (#[trigger] results[i] != self.negated) == self.match_all,
                    decreases mine@.len() - k,
                {
                    let matched = self.span_test(input, mine[k], query);
                    assert(matched == results[k as int]);
                    if (matched != self.negated) != self.match_all {
                        return !self.match_all;
                    }
                    k += 1;
                }
                self.match_all
            },
        }
    }
}

} // verus!
