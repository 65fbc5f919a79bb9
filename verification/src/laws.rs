//! What holds of queries and of the composition of highlights, whatever
//! the document.

use vstd::prelude::*;
use crate::classify::{pattern_classified, texts_of};
use crate::config::LanguageLoader;
use crate::highlight_query::Highlight;
use crate::highlighter::{
    advance_spec, handle_events, highlights_of, lemma_push_keeps, match_base, push_match,
    step_replaces_older, step_start,
    first_after, top_end, truncate_ends, ComposerState, HighlightedNode, Pass,
};
use crate::locals::{innermost, lookup};
use crate::query::{Query, QueryDataView};
use crate::query_cursor::{match_passes, passing, QueryMatch};
use crate::query_iter::{
    in_byte_order, lemma_sources_wf, next_start, no_empty_match, sources, Move, Progress,
    QueryIterEvent, Sources,
};
use crate::syntax::{Injection, Layer, Syntax};
use crate::text_predicate::{span_text, MatchedNode};

verus! {

/// Compiling is a function of what the grammar library holds of the query:
/// two queries made of the same captures, strings and predicate steps hold
/// the same pattern count and, for each pattern, the same text predicates.
pub proof fn lemma_compilation_deterministic(a: Query, b: Query, pattern: int)
    requires
        a.wf(),
        b.wf(),
        a@.data == b@.data,
        0 <= pattern < a@.patterns.len(),
    ensures
        a@.patterns.len() == b@.patterns.len(),
        a@.text_predicates == b@.text_predicates,
        a@.patterns[pattern] == b@.patterns[pattern],
        a@.text_predicates.subrange(a@.patterns[pattern].0, a@.patterns[pattern].1)
            == b@.text_predicates.subrange(b@.patterns[pattern].0, b@.patterns[pattern].1),
        a@.text_predicates.subrange(a@.patterns[pattern].0, a@.patterns[pattern].1) == texts_of(
            pattern_classified(a@.data, pattern),
        ),
{
    a.lemma_pattern_range(pattern);
    b.lemma_pattern_range(pattern);
}

/// Each match that the filter lets through satisfies every text predicate
/// of its pattern, and is one of the matches that came in.
pub proof fn lemma_kept_matches_pass(
    data: QueryDataView,
    text: Seq<u8>,
    matches: Seq<QueryMatch>,
    n: int,
    i: int,
)
    requires
        0 <= n <= matches.len(),
        0 <= i < passing(data, text, matches, n).len(),
    ensures
        match_passes(data, text, passing(data, text, matches, n)[i]),
        exists|k: int| 0 <= k < n && matches[k] == passing(data, text, matches, n)[i],
    decreases n,
{
    if n > 0 {
        let before = passing(data, text, matches, n - 1);
        if i < before.len() {
            lemma_kept_matches_pass(data, text, matches, n - 1, i);
            let k = choose|k: int| 0 <= k < n - 1 && matches[k] == before[i];
            assert(matches[k] == passing(data, text, matches, n)[i]);
        } else {
            assert(matches[n - 1] == passing(data, text, matches, n)[i]);
        }
    }
}

/// A reference to a local whose text no scope around it defines brings no
/// highlight: the match is dropped, and the highlights in force stay as
/// they are.
pub proof fn lemma_undefined_reference_is_dropped<L: LanguageLoader>(
    pass: Pass<L>,
    layer: Layer,
    node: MatchedNode,
    stack: Seq<HighlightedNode>,
    first: bool,
)
    requires
        pass.config(layer) is Some,
        pass.config(layer)->Some_0.highlight_query@.local_reference == Some(node.capture),
        lookup(
            pass.syntax.layers@[layer.0 as int].locals@,
            innermost(
                pass.syntax.layers@[layer.0 as int].locals@,
                node.node.start_byte,
                pass.syntax.layers@[layer.0 as int].locals@.len() as int,
            ),
            vstd::utf8::decode_utf8(span_text(pass.text, node.node)),
        ) is None,
    ensures
        pass.match_highlight(layer, node) is None,
        push_match(stack, first, node.node.end_byte, pass.match_highlight(layer, node)) == stack,
        first_after(first, pass.match_highlight(layer, node)) == first,
{
}

/// Of two matches on one node, the later one wins: where both bring a
/// highlight, the highlight of the first is in force no more, and that of
/// the second is the innermost.
pub proof fn lemma_last_match_wins(
    stack: Seq<HighlightedNode>,
    first: bool,
    end: u32,
    h1: Highlight,
    h2: Highlight,
)
    requires
        h1 != Highlight::spec_none(),
        h2 != Highlight::spec_none(),
    ensures
        push_match(
            push_match(stack, first, end, Some(h1)),
            first_after(first, Some(h1)),
            end,
            Some(h2),
        ) == match_base(stack, first, end).push(HighlightedNode { end, highlight: h2 }),
{
    let base = match_base(stack, first, end);
    let one = push_match(stack, first, end, Some(h1));
    assert(one == base.push(HighlightedNode { end, highlight: h1 }));
    assert(one.drop_last() =~= base);
}

/// What the caller holds after a step: all highlights that the step hands
/// out where it says that they have changed, else those that the caller
/// held with those that the step hands out on top.
pub open spec fn materialize(shown: Seq<Highlight>, refresh: bool, handed: Seq<Highlight>) -> Seq<
    Highlight,
> {
    if refresh {
        handed
    } else {
        shown + handed
    }
}

/// What a step hands out: all highlights in force where it says that they
/// have changed, else those above the ones that were in force before.
pub open spec fn handed_out<L: LanguageLoader>(pass: Pass<L>, s: ComposerState) -> Seq<Highlight> {
    let after = advance_spec(pass, s);
    if after.refresh {
        highlights_of(after.state.stack)
    } else {
        highlights_of(after.state.stack.skip(s.stack.len() as int))
    }
}

/// A caller that holds the highlights in force and follows the steps holds
/// the highlights in force after each step, as long as no match of a step
/// takes the place of a highlight that was in force before the step.
pub proof fn lemma_round_trip<L: LanguageLoader>(pass: Pass<L>, s: ComposerState)
    requires
        !step_replaces_older(pass, s),
    ensures
        materialize(highlights_of(s.stack), advance_spec(pass, s).refresh, handed_out(pass, s))
            == highlights_of(advance_spec(pass, s).state.stack),
{
    lemma_push_keeps(pass, s);
    let after = advance_spec(pass, s);
    if !after.refresh {
        let n = s.stack.len() as int;
        assert(after.state.stack =~= after.state.stack.take(n) + after.state.stack.skip(n));
        assert(highlights_of(s.stack) + highlights_of(after.state.stack.skip(n)) =~= highlights_of(
            after.state.stack,
        ));
    }
}

/// The highlights of a layer that were in force when an injection into it
/// ended, and that is entered again, are in force again when the layer is
/// entered next, on top of those that are in force then.
pub proof fn lemma_dormant_highlights_return(
    s: ComposerState,
    layer: Layer,
    next: u32,
    later: ComposerState,
)
    requires
        layer.0 < s.layers.len(),
        layer.0 < later.layers.len(),
        s.layers[layer.0 as int].parent_highlights <= s.stack.len(),
        later.layers[layer.0 as int] == s.exit(layer, false, next).layers[layer.0 as int],
    ensures
        s.exit(layer, false, next).layers[layer.0 as int].dormant == s.layers[
            layer.0 as int
        ].dormant + s.stack.skip(s.layers[layer.0 as int].parent_highlights as int),
        later.enter(layer).stack == later.stack + s.layers[layer.0 as int].dormant + s.stack.skip(
            s.layers[layer.0 as int].parent_highlights as int,
        ),
        later.enter(layer).layers[layer.0 as int].dormant.len() == 0,
{
    assert(later.enter(layer).stack =~= later.stack + s.layers[layer.0 as int].dormant
        + s.stack.skip(s.layers[layer.0 as int].parent_highlights as int));
}

/// The highlights end in order: none ends before one that lies above it.
pub open spec fn sorted(stack: Seq<HighlightedNode>) -> bool {
    forall|i: int, j: int|
        0 <= i <= j < stack.len() ==> (#[trigger] stack[i]).end >= (#[trigger] stack[j]).end
}

/// Whether a highlight in force stems from a match among the first `n`
/// events whose node spans the byte.
pub open spec fn covers<L: LanguageLoader>(pass: Pass<L>, n: int, entry: HighlightedNode, pos: u32) -> bool {
    exists|w: int|
        0 <= w < n && w < pass.events.len() && (#[trigger] pass.events[w]) is Match
            && pass.events[w]->Match_0.node.end_byte == entry.end
            && pass.events[w]->Match_0.node.start_byte <= pos < entry.end
}

/// The events are those of properly nested nodes: they come in the order
/// of their bytes, no match is empty, of two matches the later lies within
/// the earlier or behind it, and no layer is left to be entered again.
pub open spec fn orderly<L: LanguageLoader>(pass: Pass<L>) -> bool {
    &&& in_byte_order(pass.events)
    &&& no_empty_match(pass.events)
    &&& forall|i: int, j: int|
        0 <= i < j < pass.events.len() && (#[trigger] pass.events[i]) is Match && (
        #[trigger] pass.events[j]) is Match ==> pass.events[i]->Match_0.node.end_byte
            <= pass.events[j]->Match_0.node.start_byte || pass.events[j]->Match_0.node.end_byte
            <= pass.events[i]->Match_0.node.end_byte
    &&& forall|i: int|
        0 <= i < pass.events.len() && (#[trigger] pass.events[i]) is ExitInjection
            ==> pass.events[i]->ExitInjection_finished
}

/// Whether a highlight stems from a match among the first `n` events whose
/// node starts at the byte or before it.
pub open spec fn stems<L: LanguageLoader>(pass: Pass<L>, n: int, entry: HighlightedNode, pos: u32) -> bool {
    exists|w: int|
        0 <= w < n && w < pass.events.len() && (#[trigger] pass.events[w]) is Match
            && pass.events[w]->Match_0.node.end_byte == entry.end
            && pass.events[w]->Match_0.node.start_byte <= pos
}

/// Each dormant highlight of layer `l` stems from a match whose node starts
/// at the byte or before it.
pub open spec fn dormant_stem<L: LanguageLoader>(pass: Pass<L>, s: ComposerState, l: int, pos: u32) -> bool {
    forall|k: int|
        0 <= k < s.layers[l].dormant.len() ==> stems(
            pass,
            s.consumed as int,
            #[trigger] s.layers[l].dormant[k],
            pos,
        )
}

/// No layer holds dormant highlights.
pub open spec fn settled(s: ComposerState) -> bool {
    forall|l: int| 0 <= l < s.layers.len() ==> (#[trigger] s.layers[l]).dormant.len() == 0
}

/// The discipline of the stack at a byte: the highlights in force end in
/// order, each stems from a match whose node spans the byte, each dormant
/// highlight stems from a match whose node has started, and the events to
/// come start at the byte or behind.
pub open spec fn disciplined<L: LanguageLoader>(pass: Pass<L>, s: ComposerState, pos: u32) -> bool {
    &&& s.consumed <= pass.events.len()
    &&& s.layers.len() == pass.syntax.layers@.len()
    &&& sorted(s.stack)
    &&& forall|k: int|
        0 <= k < s.stack.len() ==> covers(pass, s.consumed as int, #[trigger] s.stack[k], pos)
    &&& forall|l: int| 0 <= l < s.layers.len() ==> #[trigger] dormant_stem(pass, s, l, pos)
    &&& forall|i: int|
        s.consumed <= i < pass.events.len() ==> (#[trigger] pass.events[i]).spec_start_byte()
            >= pos
}

/// The stack is in its discipline at a byte, and the end of the innermost
/// highlight is known: what a pass over properly nested nodes keeps from
/// step to step.
pub open spec fn in_discipline<L: LanguageLoader>(pass: Pass<L>, s: ComposerState, pos: u32) -> bool {
    disciplined(pass, s, pos) && s.next_end == top_end(s.stack)
}

/// A pass starts in the discipline of the stack: with no highlight in
/// force, before the first event.
pub proof fn lemma_discipline_at_start<L: LanguageLoader>(pass: Pass<L>, s: ComposerState)
    requires
        s.at_start(pass.syntax),
    ensures
        disciplined(pass, s, 0),
        settled(s),
        s.next_end == top_end(s.stack),
{
    lemma_settled_stems(pass, s, 0);
}

/// Where no layer holds dormant highlights, each dormant highlight stems
/// from a match.
pub proof fn lemma_settled_stems<L: LanguageLoader>(pass: Pass<L>, s: ComposerState, pos: u32)
    requires
        settled(s),
    ensures
        forall|l: int| 0 <= l < s.layers.len() ==> #[trigger] dormant_stem(pass, s, l, pos),
{
    assert forall|l: int| 0 <= l < s.layers.len() implies #[trigger] dormant_stem(
        pass,
        s,
        l,
        pos,
    ) by {
        assert(s.layers[l].dormant.len() == 0);
    }
}

/// Taking the highlights that end at a byte off a stack in order leaves
/// none that ends there.
pub proof fn lemma_truncate_sorted(stack: Seq<HighlightedNode>, pos: u32)
    requires
        sorted(stack),
        forall|k: int| 0 <= k < stack.len() ==> (#[trigger] stack[k]).end >= pos,
    ensures
        truncate_ends(stack, pos).len() <= stack.len(),
        truncate_ends(stack, pos) == stack.take(truncate_ends(stack, pos).len() as int),
        forall|k: int|
            0 <= k < truncate_ends(stack, pos).len() ==> (#[trigger] truncate_ends(
                stack,
                pos,
            )[k]).end > pos,
        stack.len() > 0 && stack.last().end == pos ==> truncate_ends(stack, pos).len()
            < stack.len(),
    decreases stack.len(),
{
    if stack.len() > 0 && stack.last().end == pos {
        let rest = stack.drop_last();
        assert forall|i: int, j: int| 0 <= i <= j < rest.len() implies (#[trigger] rest[i]).end >= (
        #[trigger] rest[j]).end by {
            assert(stack[i].end >= stack[j].end);
        }
        assert forall|k: int| 0 <= k < rest.len() implies (#[trigger] rest[k]).end >= pos by {
            assert(stack[k].end >= pos);
        }
        lemma_truncate_sorted(rest, pos);
        let n = truncate_ends(stack, pos).len() as int;
        assert(rest.take(n) =~= stack.take(n));
    } else {
        assert(stack.take(stack.len() as int) =~= stack);
        assert forall|k: int| 0 <= k < stack.len() implies (#[trigger] stack[k]).end > pos by {
            assert(stack[k].end >= stack[stack.len() - 1].end);
        }
    }
}

/// Dealing with the events at a byte keeps the discipline of the stack.
pub proof fn lemma_handle_disciplined<L: LanguageLoader>(
    pass: Pass<L>,
    s: ComposerState,
    pos: u32,
    first: bool,
    refresh: bool,
)
    requires
        pass.wf(),
        orderly(pass),
        disciplined(pass, s, pos),
        settled(s),
    ensures
        disciplined(pass, handle_events(pass, s, pos, first, refresh).state, pos),
        settled(handle_events(pass, s, pos, first, refresh).state),
    decreases pass.events.len() - s.consumed,
{
    if s.consumed >= pass.events.len() || pass.events[s.consumed as int].spec_start_byte() != pos {
    } else {
        let c = s.consumed as int;
        assert(pass.event_ok(c));
        match pass.events[c] {
            QueryIterEvent::EnterInjection(injection) => {
                let next = s.enter(injection.layer);
                assert(s.layers[injection.layer.0 as int].dormant.len() == 0);
                assert(next.stack =~= s.stack);
                assert(settled(next)) by {
                    assert forall|l: int| 0 <= l < next.layers.len() implies (
                    #[trigger] next.layers[l]).dormant.len() == 0 by {
                        if l != injection.layer.0 {
                            assert(s.layers[l].dormant.len() == 0);
                        }
                    }
                }
                lemma_settled_stems(pass, next, pos);
                assert forall|k: int| 0 <= k < next.stack.len() implies covers(
                    pass,
                    next.consumed as int,
                    #[trigger] next.stack[k],
                    pos,
                ) by {
                    lemma_covers_more(pass, c, s.stack[k], pos);
                }
                lemma_handle_disciplined(pass, next, pos, first, refresh);
            },
            QueryIterEvent::Match(node) => {
                let h = pass.match_highlight(pass.layer_before(c), node);
                let stack = push_match(s.stack, first, node.node.end_byte, h);
                let next = ComposerState { stack, consumed: s.consumed + 1, ..s };
                let base = match_base(s.stack, first, node.node.end_byte);
                assert forall|k: int| 0 <= k < stack.len() implies covers(
                    pass,
                    c + 1,
                    #[trigger] stack[k],
                    pos,
                ) by {
                    if k < base.len() && k < s.stack.len() && stack[k] == s.stack[k] {
                        lemma_covers_more(pass, c, s.stack[k], pos);
                    } else {
                        assert(pass.events[c] is Match);
                    }
                }
                assert forall|i: int, j: int| 0 <= i <= j < stack.len() implies (
                #[trigger] stack[i]).end >= (#[trigger] stack[j]).end by {
                    if j < base.len() && j < s.stack.len() {
                        assert(s.stack[i].end >= s.stack[j].end);
                    } else if i < j {
                        let entry = s.stack[i];
                        assert(covers(pass, c, entry, pos));
                        let w = choose|w: int|
                            0 <= w < c && w < pass.events.len() && (#[trigger] pass.events[w])
                                is Match && pass.events[w]->Match_0.node.end_byte == entry.end
                                && pass.events[w]->Match_0.node.start_byte <= pos < entry.end;
                        assert(pass.events[w] is Match && pass.events[c] is Match);
                    }
                }
                lemma_handle_disciplined(pass, next, pos, first_after(first, h), refresh);
            },
            QueryIterEvent::ExitInjection { injection, finished } => {
                assert(pass.events[c] is ExitInjection);
                let next = s.exit(injection.layer, finished, next_start(pass.events, c + 1));
                assert forall|k: int| 0 <= k < next.stack.len() implies covers(
                    pass,
                    next.consumed as int,
                    #[trigger] next.stack[k],
                    pos,
                ) by {
                    lemma_covers_more(pass, c, s.stack[k], pos);
                }
                lemma_handle_disciplined(pass, next, pos, first, refresh || !finished);
            },
        }
    }
}

/// A highlight that stems from a match among some events stems from a
/// match among more of them.
pub proof fn lemma_covers_more<L: LanguageLoader>(pass: Pass<L>, n: int, entry: HighlightedNode, pos: u32)
    requires
        covers(pass, n, entry, pos),
    ensures
        covers(pass, n + 1, entry, pos),
{
    let w = choose|w: int|
        0 <= w < n && w < pass.events.len() && (#[trigger] pass.events[w]) is Match
            && pass.events[w]->Match_0.node.end_byte == entry.end
            && pass.events[w]->Match_0.node.start_byte <= pos < entry.end;
    assert(0 <= w < n + 1 && pass.events[w] is Match);
}

/// The nodes of all highlights in force span the byte of the step that
/// has just been made: where the events are those of properly nested nodes,
/// each step keeps the discipline of the stack, and moves on to a byte at
/// or behind the one before.
pub proof fn lemma_stack_discipline<L: LanguageLoader>(pass: Pass<L>, s: ComposerState, before: u32)
    requires
        pass.wf(),
        orderly(pass),
        disciplined(pass, s, before),
        settled(s),
        s.next_end == top_end(s.stack),
    ensures
        before <= s.next_event_offset(pass),
        disciplined(pass, advance_spec(pass, s).state, s.next_event_offset(pass)),
        settled(advance_spec(pass, s).state),
        advance_spec(pass, s).state.next_end == top_end(advance_spec(pass, s).state.stack),
{
    let pos = s.next_event_offset(pass);
    let ended = s.next_end == pos;
    if s.stack.len() > 0 {
        assert(covers(pass, s.consumed as int, s.stack[s.stack.len() - 1], before));
    }
    if s.consumed < pass.events.len() {
        assert(pass.events[s.consumed as int].spec_start_byte() >= before);
    }
    assert(before <= pos);
    assert forall|k: int| 0 <= k < s.stack.len() implies (#[trigger] s.stack[k]).end >= pos by {
        assert(s.stack[k].end >= s.stack[s.stack.len() - 1].end);
    }
    let kept = if ended {
        truncate_ends(s.stack, pos)
    } else {
        s.stack
    };
    if ended {
        lemma_truncate_sorted(s.stack, pos);
    } else {
        assert forall|k: int| 0 <= k < s.stack.len() implies (#[trigger] s.stack[k]).end > pos by {
            assert(s.stack[k].end >= s.stack[s.stack.len() - 1].end);
        }
    }
    let start = ComposerState { stack: kept, ..s };
    assert forall|k: int| 0 <= k < kept.len() implies covers(
        pass,
        s.consumed as int,
        #[trigger] kept[k],
        pos,
    ) by {
        assert(kept[k] == s.stack[k]);
        assert(covers(pass, s.consumed as int, s.stack[k], before));
        let w = choose|w: int|
            0 <= w < s.consumed && w < pass.events.len() && (#[trigger] pass.events[w]) is Match
                && pass.events[w]->Match_0.node.end_byte == s.stack[k].end
                && pass.events[w]->Match_0.node.start_byte <= before < s.stack[k].end;
        assert(pass.events[w] is Match && pass.events[w]->Match_0.node.start_byte <= pos
            < kept[k].end);
    }
    assert forall|i: int, j: int| 0 <= i <= j < kept.len() implies (#[trigger] kept[i]).end >= (
    #[trigger] kept[j]).end by {
        assert(s.stack[i].end >= s.stack[j].end);
    }
    assert forall|i: int| s.consumed <= i < pass.events.len() implies (
    #[trigger] pass.events[i]).spec_start_byte() >= pos by {
        assert(pass.events[s.consumed as int].spec_start_byte() <= pass.events[i].spec_start_byte());
    }
    lemma_settled_stems(pass, start, pos);
    assert(start == step_start(pass, s));
    lemma_handle_disciplined(pass, start, pos, true, ended);
}

/// Once the events are dealt with, each step takes highlights off the
/// stack until none is left: after a pass over the whole document, no
/// highlight is in force.
pub proof fn lemma_stack_drains<L: LanguageLoader>(pass: Pass<L>, s: ComposerState, before: u32)
    requires
        disciplined(pass, s, before),
        s.next_end == top_end(s.stack),
        s.consumed == pass.events.len(),
    ensures
        advance_spec(pass, s).state.consumed == s.consumed,
        s.stack.len() > 0 ==> advance_spec(pass, s).state.stack.len() < s.stack.len(),
        s.stack.len() == 0 ==> s.next_event_offset(pass) == u32::MAX && advance_spec(
            pass,
            s,
        ).state.stack.len() == 0,
{
    let pos = s.next_event_offset(pass);
    assert(pos == s.next_end);
    if s.stack.len() > 0 {
        assert forall|k: int| 0 <= k < s.stack.len() implies (#[trigger] s.stack[k]).end >= pos by {
            assert(s.stack[k].end >= s.stack[s.stack.len() - 1].end);
        }
        lemma_truncate_sorted(s.stack, pos);
    }
}

/// Every highlight ends behind the byte.
pub open spec fn live(stack: Seq<HighlightedNode>, pos: u32) -> bool {
    forall|k: int| 0 <= k < stack.len() ==> (#[trigger] stack[k]).end > pos
}

/// Whether each highlight that comes into force while the events at `pos`
/// are dealt with ends behind `pos` and within the highlight below it: the
/// highlight of each match, and each dormant highlight that returns when
/// its layer is entered.
pub open spec fn nests<L: LanguageLoader>(pass: Pass<L>, s: ComposerState, pos: u32, first: bool) -> bool
    decreases pass.events.len() - s.consumed,
{
    if s.consumed >= pass.events.len() || pass.events[s.consumed as int].spec_start_byte() != pos {
        true
    } else {
        match pass.events[s.consumed as int] {
            QueryIterEvent::EnterInjection(injection) => {
                &&& sorted(s.stack + s.layers[injection.layer.0 as int].dormant)
                &&& live(s.layers[injection.layer.0 as int].dormant, pos)
                &&& nests(pass, s.enter(injection.layer), pos, first)
            },
            QueryIterEvent::Match(node) => {
                let h = pass.match_highlight(pass.layer_before(s.consumed as int), node);
                let base = match_base(s.stack, first, node.node.end_byte);
                &&& pos < node.node.end_byte
                &&& base.len() > 0 ==> node.node.end_byte <= base.last().end
                &&& nests(
                    pass,
                    ComposerState {
                        stack: push_match(s.stack, first, node.node.end_byte, h),
                        consumed: s.consumed + 1,
                        ..s
                    },
                    pos,
                    first_after(first, h),
                )
            },
            QueryIterEvent::ExitInjection { injection, finished } => nests(
                pass,
                s.exit(injection.layer, finished, next_start(pass.events, s.consumed as int + 1)),
                pos,
                first,
            ),
        }
    }
}

/// Taking highlights off the top leaves the highlights below as they are.
pub proof fn lemma_truncate_prefix(stack: Seq<HighlightedNode>, pos: u32)
    ensures
        truncate_ends(stack, pos).len() <= stack.len(),
        truncate_ends(stack, pos) == stack.take(truncate_ends(stack, pos).len() as int),
    decreases stack.len(),
{
    if stack.len() > 0 && stack.last().end == pos {
        lemma_truncate_prefix(stack.drop_last(), pos);
        let n = truncate_ends(stack, pos).len() as int;
        assert(stack.drop_last().take(n) =~= stack.take(n));
    } else {
        assert(stack.take(stack.len() as int) =~= stack);
    }
}

/// The highlights below a highlight of a stack in order are in order, and
/// end behind the byte if all do.
pub proof fn lemma_prefix_in_order(stack: Seq<HighlightedNode>, n: int, pos: u32)
    requires
        0 <= n <= stack.len(),
        sorted(stack),
    ensures
        sorted(stack.take(n)),
        live(stack, pos) ==> live(stack.take(n), pos),
{
    assert forall|i: int, j: int| 0 <= i <= j < n implies (#[trigger] stack.take(n)[i]).end >= (
    #[trigger] stack.take(n)[j]).end by {
        assert(stack[i].end >= stack[j].end);
    }
    if live(stack, pos) {
        assert forall|k: int| 0 <= k < n implies (#[trigger] stack.take(n)[k]).end > pos by {
            assert(stack[k].end > pos);
        }
    }
}

/// Where each highlight that comes into force nests in the one below it,
/// dealing with the events at a byte leaves the stack in order, with every
/// highlight in force ending behind the byte.
pub proof fn lemma_handle_nested<L: LanguageLoader>(
    pass: Pass<L>,
    s: ComposerState,
    pos: u32,
    first: bool,
    refresh: bool,
)
    requires
        sorted(s.stack),
        live(s.stack, pos),
        nests(pass, s, pos, first),
    ensures
        sorted(handle_events(pass, s, pos, first, refresh).state.stack),
        live(handle_events(pass, s, pos, first, refresh).state.stack, pos),
    decreases pass.events.len() - s.consumed,
{
    if s.consumed >= pass.events.len() || pass.events[s.consumed as int].spec_start_byte() != pos {
    } else {
        match pass.events[s.consumed as int] {
            QueryIterEvent::EnterInjection(injection) => {
                let next = s.enter(injection.layer);
                let dormant = s.layers[injection.layer.0 as int].dormant;
                assert forall|k: int| 0 <= k < next.stack.len() implies (
                #[trigger] next.stack[k]).end > pos by {
                    if k < s.stack.len() {
                        assert(s.stack[k].end > pos);
                    } else {
                        assert(dormant[k - s.stack.len()].end > pos);
                    }
                }
                lemma_handle_nested(pass, next, pos, first, refresh);
            },
            QueryIterEvent::Match(node) => {
                let h = pass.match_highlight(pass.layer_before(s.consumed as int), node);
                let base = match_base(s.stack, first, node.node.end_byte);
                let stack = push_match(s.stack, first, node.node.end_byte, h);
                let next = ComposerState { stack, consumed: s.consumed + 1, ..s };
                assert(base =~= s.stack.take(base.len() as int));
                lemma_prefix_in_order(s.stack, base.len() as int, pos);
                assert forall|i: int, j: int| 0 <= i <= j < stack.len() implies (
                #[trigger] stack[i]).end >= (#[trigger] stack[j]).end by {
                    if j < base.len() {
                        assert(base[i].end >= base[j].end);
                    } else if i < j {
                        assert(base[i].end >= base[base.len() - 1].end);
                    }
                }
                assert forall|k: int| 0 <= k < stack.len() implies (#[trigger] stack[k]).end
                    > pos by {
                    if k < base.len() {
                        assert(base[k].end > pos);
                    }
                }
                lemma_handle_nested(pass, next, pos, first_after(first, h), refresh);
            },
            QueryIterEvent::ExitInjection { injection, finished } => {
                let after = next_start(pass.events, s.consumed as int + 1);
                let next = s.exit(injection.layer, finished, after);
                if !finished {
                    let kept = s.layers[injection.layer.0 as int];
                    let below = if kept.parent_highlights <= s.stack.len() {
                        kept.parent_highlights as int
                    } else {
                        s.stack.len() as int
                    };
                    lemma_prefix_in_order(s.stack, below, pos);
                    lemma_truncate_prefix(s.stack.take(below), after);
                    lemma_prefix_in_order(s.stack.take(below), next.stack.len() as int, pos);
                }
                lemma_handle_nested(pass, next, pos, first, refresh || !finished);
            },
        }
    }
}

/// The stack keeps its discipline through a step in which each highlight
/// that comes into force nests in the one below it, with injections that
/// are entered again too: after the step the highlights in force end in
/// order, each behind the byte of the step.
pub proof fn lemma_nested_step<L: LanguageLoader>(pass: Pass<L>, s: ComposerState)
    requires
        sorted(s.stack),
        s.next_end == top_end(s.stack),
        nests(
            pass,
            ComposerState {
                stack: if s.next_end == s.next_event_offset(pass) {
                    truncate_ends(s.stack, s.next_event_offset(pass))
                } else {
                    s.stack
                },
                ..s
            },
            s.next_event_offset(pass),
            true,
        ),
    ensures
        sorted(advance_spec(pass, s).state.stack),
        live(advance_spec(pass, s).state.stack, s.next_event_offset(pass)),
        advance_spec(pass, s).state.next_end == top_end(advance_spec(pass, s).state.stack),
{
    let pos = s.next_event_offset(pass);
    let ended = s.next_end == pos;
    assert forall|k: int| 0 <= k < s.stack.len() implies (#[trigger] s.stack[k]).end >= pos by {
        assert(s.stack[k].end >= s.stack[s.stack.len() - 1].end);
    }
    let kept = if ended {
        truncate_ends(s.stack, pos)
    } else {
        s.stack
    };
    if ended {
        lemma_truncate_sorted(s.stack, pos);
        lemma_prefix_in_order(s.stack, kept.len() as int, pos);
    } else {
        assert forall|k: int| 0 <= k < s.stack.len() implies (#[trigger] s.stack[k]).end > pos by {
            assert(s.stack[k].end >= s.stack[s.stack.len() - 1].end);
        }
    }
    lemma_handle_nested(pass, ComposerState { stack: kept, ..s }, pos, true, ended);
}

/// A highlight that stems from a match among some events stems from a
/// match among more of them.
pub proof fn lemma_stems_more<L: LanguageLoader>(pass: Pass<L>, n: int, entry: HighlightedNode, pos: u32)
    requires
        stems(pass, n, entry, pos),
    ensures
        stems(pass, n + 1, entry, pos),
{
    let w = choose|w: int|
        0 <= w < n && w < pass.events.len() && (#[trigger] pass.events[w]) is Match
            && pass.events[w]->Match_0.node.end_byte == entry.end
            && pass.events[w]->Match_0.node.start_byte <= pos;
    assert(0 <= w < n + 1 && pass.events[w] is Match);
}

/// A highlight that stems from a match whose node spans the byte stems
/// from a match whose node has started.
pub proof fn lemma_covers_stems<L: LanguageLoader>(pass: Pass<L>, n: int, entry: HighlightedNode, pos: u32)
    requires
        covers(pass, n, entry, pos),
    ensures
        stems(pass, n, entry, pos),
        entry.end > pos,
{
    let w = choose|w: int|
        0 <= w < n && w < pass.events.len() && (#[trigger] pass.events[w]) is Match
            && pass.events[w]->Match_0.node.end_byte == entry.end
            && pass.events[w]->Match_0.node.start_byte <= pos < entry.end;
    assert(pass.events[w] is Match && pass.events[w]->Match_0.node.start_byte <= pos);
}

/// A highlight that stems from a match whose node has started, and that
/// ends behind the byte, stems from a match whose node spans the byte.
pub proof fn lemma_stems_covers<L: LanguageLoader>(pass: Pass<L>, n: int, entry: HighlightedNode, pos: u32)
    requires
        stems(pass, n, entry, pos),
        entry.end > pos,
    ensures
        covers(pass, n, entry, pos),
{
    let w = choose|w: int|
        0 <= w < n && w < pass.events.len() && (#[trigger] pass.events[w]) is Match
            && pass.events[w]->Match_0.node.end_byte == entry.end
            && pass.events[w]->Match_0.node.start_byte <= pos;
    assert(pass.events[w] is Match && pass.events[w]->Match_0.node.start_byte <= pos
        < entry.end);
}

/// Where each highlight that comes into force nests in the one below it,
/// dealing with the events at a byte keeps the discipline of the stack, in
/// passes with injections that are entered again too: the highlights that
/// go dormant stem from matches, and those that return span the byte.
pub proof fn lemma_handle_returning<L: LanguageLoader>(
    pass: Pass<L>,
    s: ComposerState,
    pos: u32,
    first: bool,
    refresh: bool,
)
    requires
        pass.wf(),
        disciplined(pass, s, pos),
        nests(pass, s, pos, first),
    ensures
        disciplined(pass, handle_events(pass, s, pos, first, refresh).state, pos),
    decreases pass.events.len() - s.consumed,
{
    if s.consumed >= pass.events.len() || pass.events[s.consumed as int].spec_start_byte() != pos {
    } else {
        let c = s.consumed as int;
        assert(pass.event_ok(c));
        assert(live(s.stack, pos)) by {
            assert forall|k: int| 0 <= k < s.stack.len() implies (#[trigger] s.stack[k]).end
                > pos by {
                lemma_covers_stems(pass, c, s.stack[k], pos);
            }
        }
        match pass.events[c] {
            QueryIterEvent::EnterInjection(injection) => {
                let layer = injection.layer.0 as int;
                let next = s.enter(injection.layer);
                let dormant = s.layers[layer].dormant;
                assert(dormant_stem(pass, s, layer, pos));
                assert forall|k: int| 0 <= k < next.stack.len() implies covers(
                    pass,
                    next.consumed as int,
                    #[trigger] next.stack[k],
                    pos,
                ) by {
                    if k < s.stack.len() {
                        assert(next.stack[k] == s.stack[k]);
                        lemma_covers_more(pass, c, s.stack[k], pos);
                    } else {
                        let d = dormant[k - s.stack.len()];
                        assert(next.stack[k] == d);
                        assert(stems(pass, c, d, pos));
                        assert(d.end > pos);
                        lemma_stems_covers(pass, c, d, pos);
                        lemma_covers_more(pass, c, d, pos);
                    }
                }
                assert forall|w: int| 0 <= w < next.layers.len() implies #[trigger] dormant_stem(
                    pass,
                    next,
                    w,
                    pos,
                ) by {
                    if w != layer {
                        assert(dormant_stem(pass, s, w, pos));
                        assert(next.layers[w] == s.layers[w]);
                        assert forall|k: int| 0 <= k < next.layers[w].dormant.len() implies stems(
                            pass,
                            next.consumed as int,
                            #[trigger] next.layers[w].dormant[k],
                            pos,
                        ) by {
                            lemma_stems_more(pass, c, s.layers[w].dormant[k], pos);
                        }
                    }
                }
                lemma_handle_returning(pass, next, pos, first, refresh);
            },
            QueryIterEvent::Match(node) => {
                let h = pass.match_highlight(pass.layer_before(c), node);
                let base = match_base(s.stack, first, node.node.end_byte);
                let stack = push_match(s.stack, first, node.node.end_byte, h);
                let next = ComposerState { stack, consumed: s.consumed + 1, ..s };
                assert(base =~= s.stack.take(base.len() as int));
                lemma_prefix_in_order(s.stack, base.len() as int, pos);
                assert forall|i: int, j: int| 0 <= i <= j < stack.len() implies (
                #[trigger] stack[i]).end >= (#[trigger] stack[j]).end by {
                    if j < base.len() {
                        assert(base[i].end >= base[j].end);
                    } else if i < j {
                        assert(base[i].end >= base[base.len() - 1].end);
                    }
                }
                assert forall|k: int| 0 <= k < stack.len() implies covers(
                    pass,
                    c + 1,
                    #[trigger] stack[k],
                    pos,
                ) by {
                    if k < base.len() {
                        assert(stack[k] == s.stack[k]);
                        lemma_covers_more(pass, c, s.stack[k], pos);
                    } else {
                        assert(stack[k].end == node.node.end_byte);
                        assert(pass.events[c] is Match && pass.events[c]->Match_0.node.end_byte
                            == stack[k].end && pass.events[c]->Match_0.node.start_byte <= pos
                            < stack[k].end);
                    }
                }
                assert forall|w: int| 0 <= w < next.layers.len() implies #[trigger] dormant_stem(
                    pass,
                    next,
                    w,
                    pos,
                ) by {
                    assert(dormant_stem(pass, s, w, pos));
                    assert forall|k: int| 0 <= k < next.layers[w].dormant.len() implies stems(
                        pass,
                        next.consumed as int,
                        #[trigger] next.layers[w].dormant[k],
                        pos,
                    ) by {
                        lemma_stems_more(pass, c, s.layers[w].dormant[k], pos);
                    }
                }
                lemma_handle_returning(pass, next, pos, first_after(first, h), refresh);
            },
            QueryIterEvent::ExitInjection { injection, finished } => {
                let layer = injection.layer.0 as int;
                let after = next_start(pass.events, c + 1);
                let next = s.exit(injection.layer, finished, after);
                let kept = s.layers[layer];
                let below = if kept.parent_highlights <= s.stack.len() {
                    kept.parent_highlights as int
                } else {
                    s.stack.len() as int
                };
                if !finished {
                    lemma_prefix_in_order(s.stack, below, pos);
                    lemma_truncate_prefix(s.stack.take(below), after);
                    lemma_prefix_in_order(s.stack.take(below), next.stack.len() as int, pos);
                }
                assert forall|k: int| 0 <= k < next.stack.len() implies covers(
                    pass,
                    next.consumed as int,
                    #[trigger] next.stack[k],
                    pos,
                ) by {
                    assert(next.stack[k] == s.stack[k]);
                    lemma_covers_more(pass, c, s.stack[k], pos);
                }
                assert forall|w: int| 0 <= w < next.layers.len() implies #[trigger] dormant_stem(
                    pass,
                    next,
                    w,
                    pos,
                ) by {
                    assert(dormant_stem(pass, s, w, pos));
                    assert forall|k: int| 0 <= k < next.layers[w].dormant.len() implies stems(
                        pass,
                        next.consumed as int,
                        #[trigger] next.layers[w].dormant[k],
                        pos,
                    ) by {
                        if w != layer {
                            assert(next.layers[w] == s.layers[w]);
                            lemma_stems_more(pass, c, s.layers[w].dormant[k], pos);
                        } else if k < kept.dormant.len() {
                            assert(next.layers[w].dormant[k] == kept.dormant[k]);
                            lemma_stems_more(pass, c, kept.dormant[k], pos);
                        } else {
                            let moved = s.stack[below + k - kept.dormant.len()];
                            assert(next.layers[w].dormant[k] == moved);
                            lemma_covers_stems(pass, c, moved, pos);
                            lemma_stems_more(pass, c, moved, pos);
                        }
                    }
                }
                lemma_handle_returning(pass, next, pos, first, refresh || !finished);
            },
        }
    }
}

/// Whether each highlight that comes into force in a step ends behind the
/// byte of the step and within the highlight below it.
pub open spec fn step_nests<L: LanguageLoader>(pass: Pass<L>, s: ComposerState) -> bool {
    nests(pass, step_start(pass, s), s.next_event_offset(pass), true)
}

/// The nodes of all highlights in force span the byte of the step that has
/// just been made, in passes with injections that are entered again too:
/// where the events come in the order of their bytes and each highlight
/// that comes into force in the step nests in the one below it, the step
/// keeps the discipline of the stack, and moves on to a byte at or behind
/// the one before.
pub proof fn lemma_returning_discipline<L: LanguageLoader>(
    pass: Pass<L>,
    s: ComposerState,
    before: u32,
)
    requires
        pass.wf(),
        in_byte_order(pass.events),
        disciplined(pass, s, before),
        s.next_end == top_end(s.stack),
        step_nests(pass, s),
    ensures
        before <= s.next_event_offset(pass),
        disciplined(pass, advance_spec(pass, s).state, s.next_event_offset(pass)),
        advance_spec(pass, s).state.next_end == top_end(advance_spec(pass, s).state.stack),
{
    let pos = s.next_event_offset(pass);
    let ended = s.next_end == pos;
    if s.stack.len() > 0 {
        lemma_covers_stems(pass, s.consumed as int, s.stack[s.stack.len() - 1], before);
    }
    if s.consumed < pass.events.len() {
        assert(pass.events[s.consumed as int].spec_start_byte() >= before);
    }
    assert(before <= pos);
    assert forall|k: int| 0 <= k < s.stack.len() implies (#[trigger] s.stack[k]).end >= pos by {
        assert(s.stack[k].end >= s.stack[s.stack.len() - 1].end);
    }
    let start = step_start(pass, s);
    let kept = start.stack;
    if ended {
        lemma_truncate_sorted(s.stack, pos);
        lemma_truncate_prefix(s.stack, pos);
    } else {
        assert forall|k: int| 0 <= k < s.stack.len() implies (#[trigger] s.stack[k]).end > pos by {
            assert(s.stack[k].end >= s.stack[s.stack.len() - 1].end);
        }
    }
    assert forall|k: int| 0 <= k < kept.len() implies covers(
        pass,
        s.consumed as int,
        #[trigger] kept[k],
        pos,
    ) by {
        assert(kept[k] == s.stack[k]);
        lemma_covers_stems(pass, s.consumed as int, s.stack[k], before);
        let w = choose|w: int|
            0 <= w < s.consumed && w < pass.events.len() && (#[trigger] pass.events[w]) is Match
                && pass.events[w]->Match_0.node.end_byte == s.stack[k].end
                && pass.events[w]->Match_0.node.start_byte <= before;
        assert(pass.events[w] is Match && pass.events[w]->Match_0.node.start_byte <= pos
            < kept[k].end);
    }
    assert forall|i: int, j: int| 0 <= i <= j < kept.len() implies (#[trigger] kept[i]).end >= (
    #[trigger] kept[j]).end by {
        assert(s.stack[i].end >= s.stack[j].end);
    }
    assert forall|l: int| 0 <= l < start.layers.len() implies #[trigger] dormant_stem(
        pass,
        start,
        l,
        pos,
    ) by {
        assert(dormant_stem(pass, s, l, before));
        assert forall|k: int| 0 <= k < start.layers[l].dormant.len() implies stems(
            pass,
            start.consumed as int,
            #[trigger] start.layers[l].dormant[k],
            pos,
        ) by {
            let d = s.layers[l].dormant[k];
            assert(stems(pass, s.consumed as int, d, before));
            let w = choose|w: int|
                0 <= w < s.consumed && w < pass.events.len() && (#[trigger] pass.events[w])
                    is Match && pass.events[w]->Match_0.node.end_byte == d.end
                    && pass.events[w]->Match_0.node.start_byte <= before;
            assert(pass.events[w] is Match && pass.events[w]->Match_0.node.start_byte <= pos);
        }
    }
    assert forall|i: int| s.consumed <= i < pass.events.len() implies (
    #[trigger] pass.events[i]).spec_start_byte() >= pos by {
        assert(pass.events[s.consumed as int].spec_start_byte() <= pass.events[i].spec_start_byte());
    }
    lemma_handle_returning(pass, start, pos, true, ended);
    let handled = handle_events(pass, start, pos, true, ended).state;
    let after = advance_spec(pass, s).state;
    assert forall|l: int| 0 <= l < after.layers.len() implies #[trigger] dormant_stem(
        pass,
        after,
        l,
        pos,
    ) by {
        assert(dormant_stem(pass, handled, l, pos));
    }
}

/// The match is one of those of a layer.
pub open spec fn match_of_a_layer(src: Sources, m: MatchedNode) -> bool {
    exists|l: int, k: int|
        0 <= l < src.matches.len() && 0 <= k < src.matches[l].len() && #[trigger] src.matches[l][k]
            == m
}

/// The injection is one of those of a layer.
pub open spec fn injection_of_a_layer(src: Sources, injection: Injection) -> bool {
    exists|l: int, k: int|
        0 <= l < src.injections.len() && 0 <= k < src.injections[l].len()
            && #[trigger] src.injections[l][k] == injection
}

/// What a merge hands out it has from the layers: each match is a match of
/// a layer, with a span that is not empty; each injection that is entered
/// is an injection of a layer.
pub proof fn lemma_merge_hands_out_what_layers_hold(src: Sources, p: Progress, i: int)
    requires
        src.wf(),
        src.fits(p),
        0 <= i < src.events_from(p).len(),
    ensures
        match src.events_from(p)[i] {
            QueryIterEvent::Match(m) => m.node.start_byte < m.node.end_byte && match_of_a_layer(
                src,
                m,
            ),
            QueryIterEvent::EnterInjection(injection) => injection_of_a_layer(src, injection),
            QueryIterEvent::ExitInjection { injection, finished } => true,
        },
    decreases src.left(p),
{
    src.lemma_move(p);
    let l = src.layer(p).0 as int;
    match src.next_move(p) {
        Move::Done => {},
        Move::Skip => {
            lemma_merge_hands_out_what_layers_hold(src, src.after(p), i);
        },
        _ => {
            if i > 0 {
                lemma_merge_hands_out_what_layers_hold(src, src.after(p), i - 1);
            } else {
                if src.next_move(p) is Match {
                    assert(src.matches[l][p.matches[l]] == src.pending_match(p)->Some_0);
                }
                if src.next_move(p) is Enter {
                    assert(src.injections[l][p.injections[l]] == src.pending_injection(p)->Some_0);
                }
            }
        },
    }
}

/// No match that a merge hands out has an empty span.
pub proof fn lemma_merged_matches_are_not_empty(src: Sources)
    requires
        src.wf(),
    ensures
        no_empty_match(src.events()),
{
    let events = src.events();
    assert forall|i: int| 0 <= i < events.len() && (#[trigger] events[i]) is Match implies events[i]->Match_0.node.start_byte
        < events[i]->Match_0.node.end_byte by {
        lemma_merge_hands_out_what_layers_hold(src, src.start(), i);
    }
}

/// The layer that the first `i` of the events lead into from a layer: that
/// of the last injection entered, or the parent of the last one left.
pub open spec fn layer_behind(syntax: &Syntax, from: Layer, events: Seq<QueryIterEvent>, i: int) -> Layer
    decreases i,
{
    if i <= 0 {
        from
    } else {
        match events[i - 1] {
            QueryIterEvent::EnterInjection(injection) => injection.layer,
            QueryIterEvent::ExitInjection { injection, finished } => syntax.spec_parent(
                injection.layer,
            ),
            QueryIterEvent::Match(_) => layer_behind(syntax, from, events, i - 1),
        }
    }
}

/// A pass starts in the root layer.
pub proof fn lemma_layer_behind_root<L: LanguageLoader>(pass: Pass<L>, i: int)
    requires
        0 <= i <= pass.events.len(),
    ensures
        pass.layer_before(i) == layer_behind(pass.syntax, pass.syntax.root, pass.events, i),
    decreases i,
{
    if i > 0 {
        lemma_layer_behind_root(pass, i - 1);
    }
}

/// The layer behind the events that follow a first event is the layer
/// behind them all.
pub proof fn lemma_layer_behind_rest(
    syntax: &Syntax,
    from: Layer,
    first: QueryIterEvent,
    rest: Seq<QueryIterEvent>,
    i: int,
)
    requires
        0 <= i <= rest.len(),
    ensures
        layer_behind(syntax, from, seq![first] + rest, i + 1) == layer_behind(
            syntax,
            layer_behind(syntax, from, seq![first], 1),
            rest,
            i,
        ),
    decreases i,
{
    let all = seq![first] + rest;
    reveal_with_fuel(layer_behind, 3);
    assert(seq![first][0] == first);
    if i > 0 {
        assert(all[i] == rest[i - 1]);
        lemma_layer_behind_rest(syntax, from, first, rest, i - 1);
    } else {
        assert(all[0] == first);
    }
}

/// Each injection that was entered leads into a child of the layer around
/// it.
pub open spec fn descends(syntax: &Syntax, entered: Seq<Injection>) -> bool {
    forall|k: int|
        0 <= k < entered.len() ==> syntax.spec_parent((#[trigger] entered[k]).layer) == if k == 0 {
            syntax.root
        } else {
            entered[k - 1].layer
        }
}

/// The match is one of those of the layer.
pub open spec fn match_of_layer(src: Sources, layer: Layer, m: MatchedNode) -> bool {
    exists|k: int| 0 <= k < src.matches[layer.0 as int].len() && #[trigger] src.matches[layer.0 as int][k] == m
}

/// From wherever a merge stands, each match that it hands out is a match of
/// the layer that the events before it lead into.
pub proof fn lemma_merge_keeps_layers(
    syntax: &Syntax,
    matches: Seq<Vec<MatchedNode>>,
    p: Progress,
    i: int,
)
    requires
        syntax.fits_together(),
        sources(syntax, matches).fits(p),
        descends(syntax, p.entered),
        0 <= i < sources(syntax, matches).events_from(p).len(),
        sources(syntax, matches).events_from(p)[i] is Match,
    ensures
        match_of_layer(
            sources(syntax, matches),
            layer_behind(
                syntax,
                sources(syntax, matches).layer(p),
                sources(syntax, matches).events_from(p),
                i,
            ),
            sources(syntax, matches).events_from(p)[i]->Match_0,
        ),
    decreases sources(syntax, matches).left(p),
{
    let src = sources(syntax, matches);
    lemma_sources_wf(syntax, matches);
    src.lemma_move(p);
    let l = src.layer(p).0 as int;
    let q = src.after(p);
    let events = src.events_from(p);
    match src.next_move(p) {
        Move::Done => {},
        Move::Skip => {
            lemma_merge_keeps_layers(syntax, matches, q, i);
        },
        _ => {
            let first = src.emitted(p)->Some_0;
            let rest = src.events_from(q);
            assert(events == seq![first] + rest);
            if i == 0 {
                assert(src.matches[l][p.matches[l]] == first->Match_0);
            } else {
                assert(events[i] == rest[i - 1]);
                assert(descends(syntax, q.entered)) by {
                    if src.next_move(p) is Enter {
                        assert(syntax.injection_fits(l, p.injections[l]));
                    }
                }
                assert(layer_behind(syntax, src.layer(p), seq![first], 1) == src.layer(q)) by {
                    reveal_with_fuel(layer_behind, 3);
                    assert(seq![first][0] == first);
                    if src.next_move(p) is Exit {
                        assert(syntax.spec_parent(p.entered[p.entered.len() - 1].layer)
                            == src.layer(q));
                    }
                }
                lemma_layer_behind_rest(syntax, src.layer(p), first, rest, i - 1);
                lemma_merge_keeps_layers(syntax, matches, q, i - 1);
            }
        },
    }
}

/// The composer takes each match for a match of the layer that handed it
/// out: in a pass over the merged matches of a document's layers, each
/// match is one of those of the layer that the pass is in.
pub proof fn lemma_matches_keep_their_layer<L: LanguageLoader>(pass: Pass<L>, matches: Seq<Vec<MatchedNode>>, i: int)
    requires
        pass.syntax.fits_together(),
        pass.events == sources(pass.syntax, matches).events(),
        0 <= i < pass.events.len(),
        pass.events[i] is Match,
    ensures
        match_of_layer(
            sources(pass.syntax, matches),
            pass.layer_before(i),
            pass.events[i]->Match_0,
        ),
{
    let src = sources(pass.syntax, matches);
    lemma_sources_wf(pass.syntax, matches);
    lemma_layer_behind_root(pass, i);
    lemma_merge_keeps_layers(pass.syntax, matches, src.start(), i);
}

} // verus!
