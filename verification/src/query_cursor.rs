//! The matches of a query that its text predicates let through.

use vstd::prelude::*;
use crate::classify::{pattern_classified, text_predicate_wf, texts_of};
use crate::compile::text_views;
use crate::query::{Pattern, Query, QueryDataView};
use crate::input::TsInput;
use crate::text_predicate::{
    node_fits, nodes_fit, satisfied_by, span_in_text, MatchedNode, TextPredicateView,
};

verus! {

/// One match of a pattern: the nodes that the pattern's captures hold, in
/// the order of the match.
#[derive(Debug, Clone)]
pub struct QueryMatch {
    pub pattern: Pattern,
    pub matched_nodes: Vec<MatchedNode>,
}

/// Whether the nodes satisfy each of the text predicates.
pub open spec fn all_satisfied(
    predicates: Seq<TextPredicateView>,
    data: QueryDataView,
    text: Seq<u8>,
    nodes: Seq<MatchedNode>,
) -> bool {
    forall|i: int|
        0 <= i < predicates.len() ==> satisfied_by(#[trigger] predicates[i], data, text, nodes)
}

/// Whether a match satisfies the text predicates of its pattern.
pub open spec fn match_passes(data: QueryDataView, text: Seq<u8>, m: QueryMatch) -> bool {
    all_satisfied(texts_of(pattern_classified(data, m.pattern.0 as int)), data, text, m.matched_nodes@)
}

/// The nodes are such as each of the text predicates asks: the nodes that
/// a predicate looks at lie within the text, and those of the two captures
/// of an `EqCapture` between characters.
pub open spec fn all_fit(predicates: Seq<TextPredicateView>, text: Seq<u8>, nodes: Seq<MatchedNode>) -> bool {
    forall|i: int| 0 <= i < predicates.len() ==> nodes_fit(#[trigger] predicates[i], text, nodes)
}

/// The match is one of a pattern of the query, on nodes such as the text
/// predicates of the pattern ask.
pub open spec fn match_wf(data: QueryDataView, text: Seq<u8>, m: QueryMatch) -> bool {
    &&& m.pattern.0 < data.pattern_starts.len()
    &&& all_fit(texts_of(pattern_classified(data, m.pattern.0 as int)), text, m.matched_nodes@)
}

/// Nodes that all lie within the text, between characters, are such as
/// any text predicates ask.
pub proof fn lemma_nodes_in_text_fit(
    predicates: Seq<TextPredicateView>,
    text: Seq<u8>,
    nodes: Seq<MatchedNode>,
)
    requires
        forall|i: int| 0 <= i < nodes.len() ==> span_in_text((#[trigger] nodes[i]).node, text),
    ensures
        all_fit(predicates, text, nodes),
{
    assert forall|i: int| 0 <= i < predicates.len() implies nodes_fit(
        #[trigger] predicates[i],
        text,
        nodes,
    ) by {
        assert forall|k: int| 0 <= k < nodes.len() implies node_fits(
            predicates[i],
            text,
            #[trigger] nodes[k],
        ) by {
            assert(span_in_text(nodes[k].node, text));
        }
    }
}

/// The matches among the first `n` that pass, in order.
pub open spec fn passing(data: QueryDataView, text: Seq<u8>, matches: Seq<QueryMatch>, n: int) -> Seq<
    QueryMatch,
>
    decreases n,
{
    if n <= 0 {
        Seq::empty()
    } else if match_passes(data, text, matches[n - 1]) {
        passing(data, text, matches, n - 1).push(matches[n - 1])
    } else {
        passing(data, text, matches, n - 1)
    }
}

impl Query {
    /// Whether the nodes of a match of `pattern` satisfy each text
    /// predicate of the pattern. The nodes are such as the predicates ask;
    /// nodes that all lie within the text, between characters, are.
    pub fn match_satisfies<I: TsInput>(&self, input: &mut I, pattern: Pattern, matched_nodes: &[MatchedNode]) -> (r:
        bool)
        requires
            self.wf(),
            old(input).wf(),
            pattern.0 < self@.patterns.len(),
            all_fit(
                texts_of(pattern_classified(self@.data, pattern.0 as int)),
                old(input).text(),
                matched_nodes@,
            ),
        ensures
            final(input).wf(),
            final(input).text() == old(input).text(),
            r == all_satisfied(
                texts_of(pattern_classified(self@.data, pattern.0 as int)),
                self@.data,
                old(input).text(),
                matched_nodes@,
            ),
    {
        let predicates = self.pattern_text_predicates(pattern);
        let ghost views = texts_of(pattern_classified(self@.data, pattern.0 as int));
        let ghost text = input.text();
        let mut i: usize = 0;
        while i < predicates.len()
            invariant
                self.wf(),
                input.wf(),
                input.text() == text,
                text == old(input).text(),
                i <= predicates@.len(),
                text_views(predicates@) == views,
                views == texts_of(pattern_classified(self@.data, pattern.0 as int)),
                forall|k: int|
                    0 <= k < predicates@.len() ==> text_predicate_wf(
                        self@.data,
                        (#[trigger] predicates@[k])@,
                    ),
                all_fit(views, text, matched_nodes@),
                forall|k: int|
                    0 <= k < i ==> satisfied_by(#[trigger] views[k], self@.data, text, matched_nodes@),
            decreases predicates@.len() - i,
        {
            proof {
                assert(views.len() == predicates@.len());
                assert(views[i as int] == predicates@[i as int]@);
                assert(nodes_fit(views[i as int], text, matched_nodes@));
            }
            let held = predicates[i].satisfied(input, matched_nodes, self);
            if !held {
                return false;
            }
            i += 1;
        }
        true
    }

    /// The matches that satisfy the text predicates of their patterns, in
    /// the order in which they came.
    pub fn filter_matches<I: TsInput>(&self, input: &mut I, matches: Vec<QueryMatch>) -> (kept: Vec<
        QueryMatch,
    >)
        requires
            self.wf(),
            old(input).wf(),
            forall|i: int|
                0 <= i < matches@.len() ==> match_wf(
                    self@.data,
                    old(input).text(),
                    #[trigger] matches@[i],
                ),
        ensures
            final(input).wf(),
            final(input).text() == old(input).text(),
            kept@ == passing(self@.data, old(input).text(), matches@, matches@.len() as int),
    {
        let ghost text = input.text();
        let ghost all = matches@;
        let mut kept: Vec<QueryMatch> = Vec::new();
        for m in it: matches
            invariant
                self.wf(),
                input.wf(),
                input.text() == text,
                it.seq() == all,
                forall|k: int| 0 <= k < all.len() ==> match_wf(self@.data, text, #[trigger] all[k]),
                kept@ == passing(self@.data, text, all, it.index() as int),
        {
            proof {
                assert(m == all[it.index() as int]);
                assert(match_wf(self@.data, text, all[it.index() as int]));
            }
            if self.match_satisfies(input, m.pattern, m.matched_nodes.as_slice()) {
                kept.push(m);
            }
        }
        kept
    }
}

} // verus!
