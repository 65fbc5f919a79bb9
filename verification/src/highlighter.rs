//! The composition of highlights: from the events of a document's matches
//! to the highlights that are in force at each byte.

use vstd::prelude::*;
use vstd::utf8::decode_utf8;
use std::sync::Arc;
use crate::config::{LanguageConfig, LanguageLoader};
use crate::definition_map::{highlight_in, DefinitionMap};
use crate::highlight_query::Highlight;
use crate::locals::{innermost, lookup, ScopeCursor};
use crate::query::Capture;
use crate::query_iter::{next_start, QueryIterEvent};
use crate::input::TsInput;
use crate::laws::{
    in_discipline, lemma_discipline_at_start, lemma_returning_discipline, lemma_stack_discipline,
    orderly, settled, step_nests,
};
use crate::query_iter::in_byte_order;
use crate::rope::{rope_bytes, RopeInput};
use crate::syntax::{Injection, Layer, Syntax};
use crate::text_predicate::{span_fits, span_in_text, span_text, MatchedNode};
use crate::{Point, Range};

verus! {

/// A highlight in force, and the byte at which it ends.
#[derive(Debug, Clone, Copy, PartialEq, Eq, Structural)]
pub struct HighlightedNode {
    pub end: u32,
    pub highlight: Highlight,
}

/// What a [`LayerData`] holds, as mathematical values.
pub struct LayerState {
    pub parent_highlights: nat,
    pub dormant: Seq<HighlightedNode>,
}

/// What the highlighter keeps of a layer: how many highlights were in
/// force when the layer was entered, the highlights of the layer that
/// outlived the injection they started in, and a cursor over the layer's
/// scopes.
#[derive(Debug)]
pub struct LayerData<'tree> {
    parent_highlights: usize,
    dormant_highlights: Vec<HighlightedNode>,
    scope_cursor: ScopeCursor<'tree>,
}

impl<'tree> View for LayerData<'tree> {
    type V = LayerState;

    closed spec fn view(&self) -> LayerState {
        LayerState {
            parent_highlights: self.parent_highlights as nat,
            dormant: self.dormant_highlights@,
        }
    }
}

impl<'tree> LayerData<'tree> {
    /// The scope cursor is well-formed and walks the scopes of `layer`.
    pub closed spec fn wf(&self, syntax: &Syntax, layer: Layer) -> bool {
        &&& self.scope_cursor.wf()
        &&& *self.scope_cursor.locals == syntax.layers@[layer.0 as int].locals
    }

    /// What the highlighter keeps of the layer of an injection before it
    /// has entered the layer.
    pub fn new(syntax: &'tree Syntax, injection: &Injection) -> (data: Self)
        requires
            syntax.wf(),
            injection.layer.0 < syntax.layers@.len(),
        ensures
            data.wf(syntax, injection.layer),
            data@.parent_highlights == 0,
            data@.dormant.len() == 0,
    {
        let scope_cursor = syntax.layer(injection.layer).locals.scope_cursor();
        Self { parent_highlights: 0, dormant_highlights: Vec::new(), scope_cursor }
    }
}

/// What a pass over a document reads and never changes: the layers, the
/// languages, the highlights of the captures of each language and of the
/// captures under which its locals define names, as they were when the pass
/// started, the text, and the events of the matches.
pub struct Pass<'a, L> {
    pub syntax: &'a Syntax,
    pub loader: &'a L,
    pub highlights: Seq<Option<Seq<Highlight>>>,
    pub definitions: Seq<Option<Map<u32, u32>>>,
    pub text: Seq<u8>,
    pub events: Seq<QueryIterEvent>,
}

/// The highlights of the captures under which the locals of each language
/// define names, as mathematical values.
pub open spec fn map_views(maps: Seq<Option<Arc<DefinitionMap>>>) -> Seq<Option<Map<u32, u32>>> {
    Seq::new(
        maps.len(),
        |l: int|
            match maps[l] {
                Some(map) => Some((*map)@),
                None => None,
            },
    )
}

/// The highlights of each language, as mathematical values.
pub open spec fn table_views(tables: Seq<Option<Vec<Highlight>>>) -> Seq<Option<Seq<Highlight>>> {
    Seq::new(
        tables.len(),
        |l: int|
            match tables[l] {
                Some(table) => Some(table@),
                None => None,
            },
    )
}

/// What changes in a pass: the highlights in force from the outermost to
/// the innermost, the byte at which the innermost ends, the number of
/// events dealt with, and what is kept of each layer.
pub struct ComposerState {
    pub stack: Seq<HighlightedNode>,
    pub next_end: u32,
    pub consumed: nat,
    pub layers: Seq<LayerState>,
}

/// What a step of the pass comes to: the state after it, and whether the
/// highlights that were in force before have changed.
pub struct Handled {
    pub state: ComposerState,
    pub refresh: bool,
}

impl<'a, L: LanguageLoader> Pass<'a, L> {
    /// The layer that the events before event `i` lead into.
    pub open spec fn layer_before(&self, i: int) -> Layer
        decreases i,
    {
        if i <= 0 {
            self.syntax.root
        } else {
            match self.events[i - 1] {
                QueryIterEvent::EnterInjection(injection) => injection.layer,
                QueryIterEvent::ExitInjection { injection, finished } => self.syntax.spec_parent(
                    injection.layer,
                ),
                QueryIterEvent::Match(_) => self.layer_before(i - 1),
            }
        }
    }

    /// The configuration of the language of a layer.
    pub open spec fn config(&self, layer: Layer) -> Option<LanguageConfig> {
        self.loader.spec_config(self.syntax.layers@[layer.0 as int].language)
    }

    /// The highlight of a capture under which the locals of the language of
    /// a layer define names; none where the language gives it none.
    pub open spec fn definition_highlight(&self, layer: Layer, capture: Capture) -> Highlight {
        let language = self.syntax.layers@[layer.0 as int].language;
        if language.0 < self.definitions.len() {
            match self.definitions[language.0 as int] {
                Some(map) => highlight_in(map, capture),
                None => Highlight::spec_none(),
            }
        } else {
            Highlight::spec_none()
        }
    }

    /// The highlights of the captures of the language of a layer.
    pub open spec fn table(&self, layer: Layer) -> Option<Seq<Highlight>> {
        let language = self.syntax.layers@[layer.0 as int].language;
        if language.0 < self.highlights.len() {
            self.highlights[language.0 as int]
        } else {
            None
        }
    }

    /// Whether the text of a match in a layer is read: it is for a
    /// reference to a local, and for a match of a pattern with `(#is-not?
    /// local)`.
    pub open spec fn reads_text(&self, layer: Layer, node: MatchedNode) -> bool {
        let config = self.config(layer)->Some_0;
        Some(node.capture) == config.highlight_query@.local_reference
            || config.highlight_query@.non_local.contains(node.pattern.0)
    }

    /// Event `i` names a layer of the document; a match lies in a layer
    /// whose language is configured, under a capture that has a highlight,
    /// and within the text, between characters, if its text is read.
    pub open spec fn event_ok(&self, i: int) -> bool {
        match self.events[i] {
            QueryIterEvent::EnterInjection(injection) => injection.layer.0
                < self.syntax.layers@.len(),
            QueryIterEvent::ExitInjection { injection, finished } => injection.layer.0
                < self.syntax.layers@.len(),
            QueryIterEvent::Match(node) => {
                &&& self.config(self.layer_before(i)) is Some
                &&& self.table(self.layer_before(i)) is Some
                &&& node.capture.0 < self.table(self.layer_before(i))->Some_0.len()
                &&& self.reads_text(self.layer_before(i), node) ==> span_in_text(
                    node.node,
                    self.text,
                )
            },
        }
    }

    /// The layers are well-formed, and so is each event.
    pub open spec fn wf(&self) -> bool {
        &&& self.syntax.wf()
        &&& forall|i: int| 0 <= i < self.events.len() ==> self.event_ok(i)
    }

    /// The highlight that a match in a layer stands for; none where the
    /// match is dropped. A reference to a local gets the highlight of the
    /// capture that defined the local, and is dropped where no scope around
    /// it defines its text. A match of a pattern with `(#is-not? local)` is
    /// dropped where a scope around it defines its text. Any other match
    /// gets the highlight of its capture.
    pub open spec fn match_highlight(&self, layer: Layer, node: MatchedNode) -> Option<Highlight> {
        let config = self.config(layer)->Some_0;
        let scopes = self.syntax.layers@[layer.0 as int].locals@;
        let name = decode_utf8(span_text(self.text, node.node));
        let definition = lookup(
            scopes,
            innermost(scopes, node.node.start_byte, scopes.len() as int),
            name,
        );
        if Some(node.capture) == config.highlight_query@.local_reference {
            match definition {
                None => None,
                Some(c) => Some(self.definition_highlight(layer, c)),
            }
        } else if config.highlight_query@.non_local.contains(node.pattern.0) && definition
            is Some {
            None
        } else {
            Some(self.table(layer)->Some_0[node.capture.0 as int])
        }
    }
}

/// The end of the innermost highlight in force; the greatest byte offset
/// if none is.
pub open spec fn top_end(stack: Seq<HighlightedNode>) -> u32 {
    if stack.len() > 0 {
        stack.last().end
    } else {
        u32::MAX
    }
}

/// The highlights in force without those at the top that end at `pos`.
pub open spec fn truncate_ends(stack: Seq<HighlightedNode>, pos: u32) -> Seq<HighlightedNode>
    decreases stack.len(),
{
    if stack.len() > 0 && stack.last().end == pos {
        truncate_ends(stack.drop_last(), pos)
    } else {
        stack
    }
}

/// The highlights in force after a match that ends at `end` and stands for
/// `h`. Unless it is the first at its byte to bring a highlight, the match
/// takes the place of an innermost highlight that ends where it ends: of
/// the matches on one node, the last one wins. A match that is dropped
/// changes nothing.
pub open spec fn push_match(stack: Seq<HighlightedNode>, first: bool, end: u32, h: Option<Highlight>) -> Seq<
    HighlightedNode,
> {
    match h {
        None => stack,
        Some(h) => {
            let base = match_base(stack, first, end);
            if h != Highlight::spec_none() {
                base.push(HighlightedNode { end, highlight: h })
            } else {
                base
            }
        },
    }
}

/// The highlights that a match that is not dropped leaves in force below
/// its own.
pub open spec fn match_base(stack: Seq<HighlightedNode>, first: bool, end: u32) -> Seq<
    HighlightedNode,
> {
    if !first && stack.len() > 0 && stack.last().end == end {
        stack.drop_last()
    } else {
        stack
    }
}

/// Whether the matches that follow at the same byte are still the first
/// to bring a highlight.
pub open spec fn first_after(first: bool, h: Option<Highlight>) -> bool {
    first && !(h is Some && h->Some_0 != Highlight::spec_none())
}

impl ComposerState {
    /// The state at the start of a pass: no highlight is in force, no event
    /// is dealt with, and nothing is kept of any layer.
    pub open spec fn at_start(self, syntax: &Syntax) -> bool {
        &&& self.stack.len() == 0
        &&& self.next_end == u32::MAX
        &&& self.consumed == 0
        &&& self.layers.len() == syntax.layers@.len()
        &&& forall|l: int|
            0 <= l < self.layers.len() ==> (#[trigger] self.layers[l]).parent_highlights == 0
                && self.layers[l].dormant.len() == 0
    }

    /// The state after an injection into `layer` starts: the layer notes
    /// how many highlights are in force, and its dormant highlights come
    /// into force on top of them.
    pub open spec fn enter(self, layer: Layer) -> ComposerState {
        ComposerState {
            stack: self.stack + self.layers[layer.0 as int].dormant,
            consumed: self.consumed + 1,
            layers: self.layers.update(
                layer.0 as int,
                LayerState { parent_highlights: self.stack.len(), dormant: Seq::empty() },
            ),
            ..self
        }
    }

    /// The state after an injection into `layer` ends. A layer that is
    /// finished forgets what it kept. The highlights of a layer that is not
    /// finished go dormant: those above the ones that were in force when
    /// the layer was entered leave the stack and join the layer's dormant
    /// highlights; of what stays in force, the highlights at the top that
    /// end where the next event starts leave too.
    pub open spec fn exit(self, layer: Layer, finished: bool, next: u32) -> ComposerState {
        let kept = self.layers[layer.0 as int];
        if finished {
            ComposerState {
                consumed: self.consumed + 1,
                layers: self.layers.update(
                    layer.0 as int,
                    LayerState { parent_highlights: 0, dormant: Seq::empty() },
                ),
                ..self
            }
        } else {
            let below = if kept.parent_highlights <= self.stack.len() {
                kept.parent_highlights as int
            } else {
                self.stack.len() as int
            };
            ComposerState {
                stack: truncate_ends(self.stack.take(below), next),
                consumed: self.consumed + 1,
                layers: self.layers.update(
                    layer.0 as int,
                    LayerState {
                        parent_highlights: kept.parent_highlights,
                        dormant: kept.dormant + self.stack.skip(below),
                    },
                ),
                ..self
            }
        }
    }

    /// The byte of the next step: the start of the next event or the end
    /// of the innermost highlight, whichever comes first.
    pub open spec fn next_event_offset<L: LanguageLoader>(self, pass: Pass<L>) -> u32 {
        if next_start(pass.events, self.consumed as int) <= self.next_end {
            next_start(pass.events, self.consumed as int)
        } else {
            self.next_end
        }
    }
}

/// The state after the events at `pos` are dealt with, one after the
/// other, and whether an injection's highlights went dormant on the way.
pub open spec fn handle_events<L: LanguageLoader>(
    pass: Pass<L>,
    s: ComposerState,
    pos: u32,
    first: bool,
    refresh: bool,
) -> Handled
    decreases pass.events.len() - s.consumed,
{
    if s.consumed >= pass.events.len() || pass.events[s.consumed as int].spec_start_byte() != pos {
        Handled { state: s, refresh }
    } else {
        match pass.events[s.consumed as int] {
            QueryIterEvent::EnterInjection(injection) => handle_events(
                pass,
                s.enter(injection.layer),
                pos,
                first,
                refresh,
            ),
            QueryIterEvent::Match(node) => {
                let h = pass.match_highlight(pass.layer_before(s.consumed as int), node);
                handle_events(
                    pass,
                    ComposerState {
                        stack: push_match(s.stack, first, node.node.end_byte, h),
                        consumed: s.consumed + 1,
                        ..s
                    },
                    pos,
                    first_after(first, h),
                    refresh,
                )
            },
            QueryIterEvent::ExitInjection { injection, finished } => handle_events(
                pass,
                s.exit(injection.layer, finished, next_start(pass.events, s.consumed as int + 1)),
                pos,
                first,
                refresh || !finished,
            ),
        }
    }
}

/// Whether one of the events at `pos`, from event `from` on, is the end of
/// an injection that is not finished: whether the highlights of an
/// injection go dormant at the byte.
pub open spec fn goes_dormant(events: Seq<QueryIterEvent>, from: int, pos: u32) -> bool
    decreases events.len() - from,
{
    if from < 0 || from >= events.len() || events[from].spec_start_byte() != pos {
        false
    } else {
        match events[from] {
            QueryIterEvent::ExitInjection { injection, finished } => !finished || goes_dormant(
                events,
                from + 1,
                pos,
            ),
            _ => goes_dormant(events, from + 1, pos),
        }
    }
}

/// Dealing with the events at a byte refreshes exactly where the
/// highlights of an injection go dormant.
pub proof fn lemma_refresh_causes<L: LanguageLoader>(
    pass: Pass<L>,
    s: ComposerState,
    pos: u32,
    first: bool,
    refresh: bool,
)
    ensures
        handle_events(pass, s, pos, first, refresh).refresh == (refresh || goes_dormant(
            pass.events,
            s.consumed as int,
            pos,
        )),
    decreases pass.events.len() - s.consumed,
{
    if s.consumed >= pass.events.len() || pass.events[s.consumed as int].spec_start_byte() != pos {
    } else {
        match pass.events[s.consumed as int] {
            QueryIterEvent::EnterInjection(injection) => {
                lemma_refresh_causes(pass, s.enter(injection.layer), pos, first, refresh);
            },
            QueryIterEvent::Match(node) => {
                let h = pass.match_highlight(pass.layer_before(s.consumed as int), node);
                let next = ComposerState {
                    stack: push_match(s.stack, first, node.node.end_byte, h),
                    consumed: s.consumed + 1,
                    ..s
                };
                lemma_refresh_causes(pass, next, pos, first_after(first, h), refresh);
            },
            QueryIterEvent::ExitInjection { injection, finished } => {
                let next = s.exit(
                    injection.layer,
                    finished,
                    next_start(pass.events, s.consumed as int + 1),
                );
                lemma_refresh_causes(pass, next, pos, first, refresh || !finished);
            },
        }
    }
}

/// Whether a match among the events at `pos` takes the place of a
/// highlight among the first `floor` of the stack: of one that was in force
/// before the step.
pub open spec fn replaces_older<L: LanguageLoader>(
    pass: Pass<L>,
    s: ComposerState,
    pos: u32,
    first: bool,
    floor: nat,
) -> bool
    decreases pass.events.len() - s.consumed,
{
    if s.consumed >= pass.events.len() || pass.events[s.consumed as int].spec_start_byte() != pos {
        false
    } else {
        match pass.events[s.consumed as int] {
            QueryIterEvent::EnterInjection(injection) => replaces_older(
                pass,
                s.enter(injection.layer),
                pos,
                first,
                floor,
            ),
            QueryIterEvent::Match(node) => {
                let h = pass.match_highlight(pass.layer_before(s.consumed as int), node);
                (h is Some && match_base(s.stack, first, node.node.end_byte).len() < floor)
                    || replaces_older(
                    pass,
                    ComposerState {
                        stack: push_match(s.stack, first, node.node.end_byte, h),
                        consumed: s.consumed + 1,
                        ..s
                    },
                    pos,
                    first_after(first, h),
                    floor,
                )
            },
            QueryIterEvent::ExitInjection { injection, finished } => replaces_older(
                pass,
                s.exit(injection.layer, finished, next_start(pass.events, s.consumed as int + 1)),
                pos,
                first,
                floor,
            ),
        }
    }
}

/// The state in which the events of a step are dealt with: that before the
/// step, without the highlights that end at the byte of the step.
pub open spec fn step_start<L: LanguageLoader>(pass: Pass<L>, s: ComposerState) -> ComposerState {
    ComposerState {
        stack: if s.next_end == s.next_event_offset(pass) {
            truncate_ends(s.stack, s.next_event_offset(pass))
        } else {
            s.stack
        },
        ..s
    }
}

/// Whether a match of the step takes the place of a highlight that was in
/// force before the step.
pub open spec fn step_replaces_older<L: LanguageLoader>(pass: Pass<L>, s: ComposerState) -> bool {
    replaces_older(pass, step_start(pass, s), s.next_event_offset(pass), true, s.stack.len())
}

/// One step of the pass, at the byte of the next step: the highlights that
/// end there leave the stack, and the events that start there are dealt
/// with. Highlights that end at a byte leave before any event at that byte
/// is dealt with, the end of an injection too. The step refreshes where a
/// highlight ended at the byte or the highlights of an injection went
/// dormant. It refreshes too where neither is so and yet fewer highlights
/// are in force than before: there is nothing then to hand out on top of
/// those that were in force. Any other step hands out what lies above as
/// many highlights as were in force before.
pub open spec fn advance_spec<L: LanguageLoader>(pass: Pass<L>, s: ComposerState) -> Handled {
    let pos = s.next_event_offset(pass);
    let ended = s.next_end == pos;
    let handled = handle_events(pass, step_start(pass, s), pos, true, ended);
    Handled {
        state: ComposerState { next_end: top_end(handled.state.stack), ..handled.state },
        refresh: handled.refresh || handled.state.stack.len() < s.stack.len(),
    }
}

/// Whether a highlight ended at the byte of the step, or the highlights of
/// an injection went dormant in it.
pub open spec fn step_refreshes<L: LanguageLoader>(pass: Pass<L>, s: ComposerState) -> bool {
    handle_events(
        pass,
        step_start(pass, s),
        s.next_event_offset(pass),
        true,
        s.next_end == s.next_event_offset(pass),
    ).refresh
}

/// The highlights of highlighted nodes.
pub open spec fn highlights_of(nodes: Seq<HighlightedNode>) -> Seq<Highlight> {
    Seq::new(nodes.len(), |i: int| nodes[i].highlight)
}

/// Highlights in force, from the outermost to the innermost, to be taken
/// from either end.
#[derive(Debug)]
pub struct HighlightList<'a> {
    nodes: &'a [HighlightedNode],
    front: usize,
    back: usize,
}

impl<'a> View for HighlightList<'a> {
    type V = Seq<Highlight>;

    closed spec fn view(&self) -> Seq<Highlight> {
        highlights_of(self.nodes@.subrange(self.front as int, self.back as int))
    }
}

impl<'a> HighlightList<'a> {
    /// The ends of the list lie in order within the nodes.
    pub closed spec fn wf(&self) -> bool {
        self.front <= self.back <= self.nodes@.len()
    }

    /// The highlights of `nodes`.
    pub fn new(nodes: &'a [HighlightedNode]) -> (list: Self)
        ensures
            list.wf(),
            list@ == highlights_of(nodes@),
    {
        assert(nodes@.subrange(0, nodes@.len() as int) =~= nodes@);
        HighlightList { nodes, front: 0, back: nodes.len() }
    }

    /// The number of highlights left.
    pub fn len(&self) -> (n: usize)
        requires
            self.wf(),
        ensures
            n == self@.len(),
    {
        self.back - self.front
    }

    /// The bounds on the number of highlights left.
    pub fn size_hint(&self) -> (bounds: (usize, Option<usize>))
        requires
            self.wf(),
        ensures
            bounds.0 == self@.len(),
            bounds.1 == Some(self@.len() as usize),
    {
        (self.back - self.front, Some(self.back - self.front))
    }

    /// Takes the outermost highlight off the list.
    pub fn next(&mut self) -> (h: Option<Highlight>)
        requires
            old(self).wf(),
        ensures
            final(self).wf(),
            match h {
                Some(h) => old(self)@.len() > 0 && h == old(self)@[0] && final(self)@ == old(
                    self,
                )@.drop_first(),
                None => old(self)@.len() == 0 && final(self)@ == old(self)@,
            },
    {
        if self.front < self.back {
            let h = self.nodes[self.front].highlight;
            self.front += 1;
            assert(self@ =~= old(self)@.drop_first());
            Some(h)
        } else {
            None
        }
    }

    /// Takes the innermost highlight off the list.
    pub fn next_back(&mut self) -> (h: Option<Highlight>)
        requires
            old(self).wf(),
        ensures
            final(self).wf(),
            match h {
                Some(h) => old(self)@.len() > 0 && h == old(self)@.last() && final(self)@ == old(
                    self,
                )@.drop_last(),
                None => old(self)@.len() == 0 && final(self)@ == old(self)@,
            },
    {
        if self.front < self.back {
            self.back -= 1;
            let h = self.nodes[self.back].highlight;
            assert(self@ =~= old(self)@.drop_last());
            Some(h)
        } else {
            None
        }
    }
}

/// What a step of the highlighter tells its caller.
#[derive(Debug)]
pub enum HighlightEvent<'a> {
    /// The highlights in force have changed: these are all of them.
    RefreshHighlights(HighlightList<'a>),
    /// The highlights that were in force stay: these come on top of them.
    PushHighlights(HighlightList<'a>),
}

/// Takes the highlights at the top that end at `pos` off the stack.
fn truncate_stack(stack: &mut Vec<HighlightedNode>, pos: u32)
    ensures
        final(stack)@ == truncate_ends(old(stack)@, pos),
{
    let mut i: usize = stack.len();
    proof {
        assert(stack@.take(stack@.len() as int) =~= stack@);
    }
    while i > 0 && stack[i - 1].end == pos
        invariant
            i <= stack@.len(),
            stack@ == old(stack)@,
            truncate_ends(stack@, pos) == truncate_ends(stack@.take(i as int), pos),
        decreases i,
    {
        proof {
            assert(stack@.take(i as int).drop_last() =~= stack@.take(i - 1));
        }
        i -= 1;
    }
    stack.truncate(i);
}

/// Whether the events fit the document: whether each names a layer of the
/// document, and each match lies in a layer whose language is configured,
/// under a capture that has a highlight, and within the text, between
/// characters, if its text is read.
fn events_fit<L: LanguageLoader>(
    syntax: &Syntax,
    loader: &L,
    highlights: &Vec<Option<Vec<Highlight>>>,
    definitions: &Vec<Option<Arc<DefinitionMap>>>,
    input: &mut RopeInput,
    events: &Vec<QueryIterEvent>,
) -> (fit: bool)
    requires
        syntax.wf(),
        old(input).wf(),
    ensures
        final(input).wf(),
        final(input).text() == old(input).text(),
        fit == (Pass {
            syntax,
            loader,
            highlights: table_views(highlights@),
            definitions: map_views(definitions@),
            text: old(input).text(),
            events: events@,
        }).wf(),
{
    let ghost pass = Pass {
        syntax,
        loader,
        highlights: table_views(highlights@),
        definitions: map_views(definitions@),
        text: input.text(),
        events: events@,
    };
    let layers = syntax.layers.len();
    let mut layer = syntax.root;
    let mut i: usize = 0;
    while i < events.len()
        invariant
            syntax.wf(),
            input.wf(),
            input.text() == old(input).text(),
            pass == (Pass {
                syntax,
                loader,
                highlights: table_views(highlights@),
                definitions: map_views(definitions@),
                text: old(input).text(),
                events: events@,
            }),
            layers == syntax.layers@.len(),
            i <= events@.len(),
            layer == pass.layer_before(i as int),
            layer.0 < layers,
            forall|k: int| 0 <= k < i ==> pass.event_ok(k),
        decreases events@.len() - i,
    {
        let fits = match events[i] {
            QueryIterEvent::EnterInjection(injection) => {
                if injection.layer.idx() < layers {
                    layer = injection.layer;
                    true
                } else {
                    false
                }
            },
            QueryIterEvent::ExitInjection { injection, finished } => {
                if injection.layer.idx() < layers {
                    layer = syntax.parent(injection.layer);
                    true
                } else {
                    false
                }
            },
            QueryIterEvent::Match(node) => {
                let language = syntax.layer(layer).language;
                let highlighted = language.idx() < highlights.len() && match &highlights[language.idx()] {
                    Some(table) => node.capture.idx() < table.len(),
                    None => false,
                };
                match loader.get_config(language) {
                    Some(config) => {
                        let reads = Some(node.capture)
                            == config.highlight_query.local_reference_capture()
                            || config.highlight_query.is_non_local(node.pattern);
                        let within = if reads {
                            span_fits(input, node.node)
                        } else {
                            true
                        };
                        highlighted && within
                    },
                    None => false,
                }
            },
        };
        proof {
            assert(fits == pass.event_ok(i as int));
        }
        if !fits {
            return false;
        }
        i += 1;
    }
    true
}

/// The highlights in force in a document, from each byte at which they
/// change to the next.
pub struct Highlighter<'a, L> {
    syntax: &'a Syntax,
    loader: &'a L,
    highlights: Vec<Option<Vec<Highlight>>>,
    definitions: Vec<Option<Arc<DefinitionMap>>>,
    src: RopeInput<'a>,
    events: Vec<QueryIterEvent>,
    /// The number of events dealt with; the next event is looked ahead at.
    next_event: usize,
    layers: Vec<LayerData<'a>>,
    active_highlights: Vec<HighlightedNode>,
    next_highlight_end: u32,
    next_highlight_start: u32,
    active_config: Option<&'a LanguageConfig>,
    /// The layer that the events dealt with lead into.
    current_layer: Layer,
}

/// The views of what is kept of each layer.
pub open spec fn layer_states(layers: Seq<LayerData>) -> Seq<LayerState> {
    Seq::new(layers.len(), |i: int| layers[i]@)
}

impl<'a, L: LanguageLoader> View for Highlighter<'a, L> {
    type V = ComposerState;

    closed spec fn view(&self) -> ComposerState {
        ComposerState {
            stack: self.active_highlights@,
            next_end: self.next_highlight_end,
            consumed: self.next_event as nat,
            layers: layer_states(self.layers@),
        }
    }
}

/// The layer that events lead into is a layer of the document.
pub proof fn lemma_layer_before<L: LanguageLoader>(pass: Pass<L>, i: int)
    requires
        pass.wf(),
        0 <= i <= pass.events.len(),
    ensures
        pass.layer_before(i).0 < pass.syntax.layers@.len(),
    decreases i,
{
    if i > 0 {
        assert(pass.event_ok(i - 1));
        match pass.events[i - 1] {
            QueryIterEvent::Match(_) => {
                lemma_layer_before(pass, i - 1);
            },
            QueryIterEvent::ExitInjection { injection, finished } => {
                assert(pass.syntax.layers@[injection.layer.0 as int].locals.wf());
            },
            _ => {},
        }
    }
}

impl<'a, L: LanguageLoader> Highlighter<'a, L> {
    /// What the pass reads and never changes.
    pub closed spec fn pass(&self) -> Pass<'a, L> {
        Pass {
            syntax: self.syntax,
            loader: self.loader,
            highlights: table_views(self.highlights@),
            definitions: map_views(self.definitions@),
            text: self.src.text(),
            events: self.events@,
        }
    }

    spec fn frame_wf(&self) -> bool {
        &&& self.pass().wf()
        &&& self.src.wf()
        &&& self.next_event <= self.events@.len()
        &&& self.layers@.len() == self.syntax.layers@.len()
        &&& forall|l: int|
            0 <= l < self.layers@.len() ==> (#[trigger] self.layers@[l]).wf(
                self.syntax,
                Layer(l as u32),
            )
        &&& self.current_layer == self.pass().layer_before(self.next_event as int)
        &&& self.current_layer.0 < self.syntax.layers@.len()
        &&& self.next_highlight_start == next_start(self.events@, self.next_event as int)
    }

    spec fn config_wf(&self) -> bool {
        match self.active_config {
            Some(c) => self.pass().config(self.current_layer) == Some(*c),
            None => self.pass().config(self.current_layer) is None,
        }
    }

    /// The highlighter is in a state that a pass over well-formed layers,
    /// languages and events leads to.
    pub closed spec fn wf(&self) -> bool {
        self.frame_wf() && self.config_wf()
    }

    spec fn same_pass(&self, other: &Self) -> bool {
        &&& self.syntax == other.syntax
        &&& self.loader == other.loader
        &&& self.highlights == other.highlights
        &&& self.definitions == other.definitions
        &&& self.src.text() == other.src.text()
        &&& self.events == other.events
    }

    /// The highlighter at the start of a pass over `src`, whose layers are
    /// those of `syntax`, with the languages of `loader`, the highlights of
    /// their captures and of the definitions of their locals as they are
    /// now, and the events of the matches of all layers.
    pub fn new(
        syntax: &'a Syntax,
        src: ropey::RopeSlice<'a>,
        loader: &'a L,
        highlights: Vec<Option<Vec<Highlight>>>,
        definitions: Vec<Option<Arc<DefinitionMap>>>,
        events: Vec<QueryIterEvent>,
    ) -> (h: Self)
        requires
            (Pass {
                syntax,
                loader,
                highlights: table_views(highlights@),
                definitions: map_views(definitions@),
                text: rope_bytes(src),
                events: events@,
            }).wf(),
        ensures
            h.wf(),
            h.pass() == (Pass {
                syntax,
                loader,
                highlights: table_views(highlights@),
                definitions: map_views(definitions@),
                text: rope_bytes(src),
                events: events@,
            }),
            h@.at_start(syntax),
            in_discipline(h.pass(), h@, 0),
            settled(h@),
    {
        let h = Self::start(syntax, RopeInput::new(src), loader, highlights, definitions, events);
        proof {
            lemma_discipline_at_start(h.pass(), h@);
        }
        h
    }

    /// The highlighter at the start of a pass, if the layers fit together,
    /// the scopes of each are well-formed, and the events fit the document:
    /// if each event names a layer of the document, and each match lies in a
    /// layer whose language is configured, under a capture that has a
    /// highlight, and within the text, between characters, if its text is
    /// read.
    pub fn checked(
        syntax: &'a Syntax,
        src: ropey::RopeSlice<'a>,
        loader: &'a L,
        highlights: Vec<Option<Vec<Highlight>>>,
        definitions: Vec<Option<Arc<DefinitionMap>>>,
        events: Vec<QueryIterEvent>,
    ) -> (r: Option<Self>)
        ensures
            r is Some <==> (Pass {
                syntax,
                loader,
                highlights: table_views(highlights@),
                definitions: map_views(definitions@),
                text: rope_bytes(src),
                events: events@,
            }).wf(),
            r is Some ==> {
                &&& r->Some_0.wf()
                &&& r->Some_0.pass() == (Pass {
                    syntax,
                    loader,
                    highlights: table_views(highlights@),
                    definitions: map_views(definitions@),
                    text: rope_bytes(src),
                    events: events@,
                })
                &&& r->Some_0@.at_start(syntax)
                &&& in_discipline(r->Some_0.pass(), r->Some_0@, 0)
                &&& settled(r->Some_0@)
            },
    {
        let mut input = RopeInput::new(src);
        if syntax.check() && syntax.check_scopes() && events_fit(
            syntax,
            loader,
            &highlights,
            &definitions,
            &mut input,
            &events,
        ) {
            let h = Self::start(syntax, input, loader, highlights, definitions, events);
            proof {
                lemma_discipline_at_start(h.pass(), h@);
            }
            Some(h)
        } else {
            None
        }
    }

    fn start(
        syntax: &'a Syntax,
        input: RopeInput<'a>,
        loader: &'a L,
        highlights: Vec<Option<Vec<Highlight>>>,
        definitions: Vec<Option<Arc<DefinitionMap>>>,
        events: Vec<QueryIterEvent>,
    ) -> (h: Self)
        requires
            input.wf(),
            (Pass {
                syntax,
                loader,
                highlights: table_views(highlights@),
                definitions: map_views(definitions@),
                text: input.text(),
                events: events@,
            }).wf(),
        ensures
            h.wf(),
            h.pass() == (Pass {
                syntax,
                loader,
                highlights: table_views(highlights@),
                definitions: map_views(definitions@),
                text: input.text(),
                events: events@,
            }),
            h@.at_start(syntax),
    {
        let mut layers: Vec<LayerData<'a>> = Vec::new();
        let n = syntax.layers.len();
        let mut l: usize = 0;
        while l < n
            invariant
                syntax.wf(),
                n == syntax.layers@.len(),
                l <= n,
                layers@.len() == l,
                forall|k: int|
                    0 <= k < l ==> (#[trigger] layers@[k]).wf(syntax, Layer(k as u32))
                        && layers@[k]@.parent_highlights == 0 && layers@[k]@.dormant.len() == 0,
            decreases n - l,
        {
            let injection = Injection {
                layer: Layer(l as u32),
                range: Range {
                    start_point: Point { row: 0, col: 0 },
                    end_point: Point { row: 0, col: 0 },
                    start_byte: 0,
                    end_byte: u32::MAX,
                },
                combined: false,
            };
            layers.push(LayerData::new(syntax, &injection));
            l += 1;
        }
        let next_highlight_start = if events.len() > 0 {
            events[0].start_byte()
        } else {
            u32::MAX
        };
        let h = Highlighter {
            syntax,
            loader,
            highlights,
            definitions,
            src: input,
            active_config: loader.get_config(syntax.layer(syntax.root).language),
            next_event: 0,
            current_layer: syntax.root,
            layers,
            active_highlights: Vec::new(),
            next_highlight_end: u32::MAX,
            next_highlight_start,
            events,
        };
        proof {
            assert(h.pass() == (Pass {
                syntax,
                loader,
                highlights: table_views(highlights@),
                definitions: map_views(definitions@),
                text: input.text(),
                events: events@,
            }));
        }
        h
    }

    /// The highlights in force, from the outermost to the innermost.
    pub fn active_highlights(&self) -> (list: HighlightList<'_>)
        ensures
            list.wf(),
            list@ == highlights_of(self@.stack),
    {
        HighlightList::new(self.active_highlights.as_slice())
    }

    /// The byte of the next step: the start of the next event or the end
    /// of the innermost highlight, whichever comes first.
    pub fn next_event_offset(&self) -> (pos: u32)
        requires
            self.wf(),
        ensures
            pos == self@.next_event_offset(self.pass()),
    {
        if self.next_highlight_start <= self.next_highlight_end {
            self.next_highlight_start
        } else {
            self.next_highlight_end
        }
    }

    /// Takes the highlights that end at `pos` off the top of the stack.
    fn process_highlight_end(&mut self, pos: u32)
        requires
            old(self).frame_wf(),
        ensures
            final(self).frame_wf(),
            final(self).same_pass(old(self)),
            final(self).active_config == old(self).active_config,
            final(self).layers == old(self).layers,
            final(self)@ == (ComposerState {
                stack: truncate_ends(old(self)@.stack, pos),
                ..old(self)@
            }),
    {
        truncate_stack(&mut self.active_highlights, pos);
    }

    /// Takes the event that was looked ahead at, and looks ahead at the
    /// one behind it.
    fn advance_query_iter(&mut self) -> (event: Option<QueryIterEvent>)
        requires
            old(self).frame_wf(),
        ensures
            final(self).frame_wf(),
            final(self).same_pass(old(self)),
            final(self).active_config == old(self).active_config,
            final(self).active_highlights == old(self).active_highlights,
            final(self).next_highlight_end == old(self).next_highlight_end,
            final(self).layers == old(self).layers,
            match event {
                Some(e) => old(self).next_event < old(self).events@.len() && e == old(
                    self,
                ).events@[old(self).next_event as int] && final(self).next_event == old(
                    self,
                ).next_event + 1,
                None => old(self).next_event == old(self).events@.len() && final(self).next_event
                    == old(self).next_event,
            },
    {
        if self.next_event < self.events.len() {
            let event = self.events[self.next_event];
            proof {
                assert(self.pass().event_ok(self.next_event as int));
                lemma_layer_before(self.pass(), self.next_event + 1);
            }
            self.current_layer = match event {
                QueryIterEvent::EnterInjection(injection) => injection.layer,
                QueryIterEvent::ExitInjection { injection, finished } => self.syntax.parent(
                    injection.layer,
                ),
                QueryIterEvent::Match(_) => self.current_layer,
            };
            self.next_event += 1;
            self.next_highlight_start = if self.next_event < self.events.len() {
                self.events[self.next_event].start_byte()
            } else {
                u32::MAX
            };
            Some(event)
        } else {
            None
        }
    }

    /// Deals with the start of an injection into the current layer: its
    /// language becomes the active one, and its dormant highlights come
    /// into force again.
    fn enter_injection(&mut self)
        requires
            old(self).frame_wf(),
        ensures
            final(self).wf(),
            final(self).same_pass(old(self)),
            final(self).next_event == old(self).next_event,
            final(self).next_highlight_end == old(self).next_highlight_end,
            final(self).active_highlights@ == old(self).active_highlights@ + old(
                self,
            )@.layers[old(self).current_layer.0 as int].dormant,
            layer_states(final(self).layers@) == old(self)@.layers.update(
                old(self).current_layer.0 as int,
                LayerState {
                    parent_highlights: old(self).active_highlights@.len(),
                    dormant: Seq::empty(),
                },
            ),
    {
        let layer = self.current_layer;
        let active_language = self.syntax.layer(layer).language;
        self.active_config = self.loader.get_config(active_language);
        let parent_highlights = self.active_highlights.len();
        let ghost before = self.layers@;
        assert(before[layer.0 as int].wf(self.syntax, layer));
        let data = &mut self.layers[layer.idx()];
        data.parent_highlights = parent_highlights;
        self.active_highlights.append(&mut data.dormant_highlights);
        proof {
            assert forall|l: int| 0 <= l < self.layers@.len() implies (#[trigger] self.layers@[l]).wf(
                self.syntax,
                Layer(l as u32),
            ) by {
                if l != layer.0 {
                    assert(self.layers@[l] == before[l]);
                    assert(before[l].wf(self.syntax, Layer(l as u32)));
                }
            }
            assert(layer_states(self.layers@) =~= old(self)@.layers.update(
                layer.0 as int,
                LayerState {
                    parent_highlights: old(self).active_highlights@.len(),
                    dormant: Seq::empty(),
                },
            ));
        }
    }

    /// Deals with the end of an injection into `layer`, which is entered
    /// again later: its highlights go dormant.
    fn deactivate_layer(&mut self, layer: Layer)
        requires
            old(self).frame_wf(),
            layer.0 < old(self).layers@.len(),
        ensures
            final(self).frame_wf(),
            final(self).same_pass(old(self)),
            final(self).active_config == old(self).active_config,
            final(self)@ == (ComposerState {
                consumed: old(self)@.consumed,
                ..(ComposerState {
                    consumed: (old(self)@.consumed - 1) as nat,
                    ..old(self)@
                }).exit(layer, false, old(self).next_highlight_start)
            }),
    {
        let ghost before = self.layers@;
        assert(before[layer.0 as int].wf(self.syntax, layer));
        let stored = self.layers[layer.idx()].parent_highlights;
        let parent_highlights = if stored <= self.active_highlights.len() {
            stored
        } else {
            self.active_highlights.len()
        };
        let mut dormant = self.active_highlights.split_off(parent_highlights);
        let data = &mut self.layers[layer.idx()];
        data.dormant_highlights.append(&mut dormant);
        let next = self.next_highlight_start;
        self.process_highlight_end(next);
        proof {
            assert forall|l: int| 0 <= l < self.layers@.len() implies (#[trigger] self.layers@[l]).wf(
                self.syntax,
                Layer(l as u32),
            ) by {
                if l != layer.0 {
                    assert(self.layers@[l] == before[l]);
                    assert(before[l].wf(self.syntax, Layer(l as u32)));
                }
            }
            let expected = (ComposerState {
                consumed: (old(self)@.consumed - 1) as nat,
                ..old(self)@
            }).exit(layer, false, old(self).next_highlight_start);
            assert(self@.layers =~= expected.layers);
            assert(old(self)@.stack.take(parent_highlights as int) =~= old(self)@.stack.subrange(
                0,
                parent_highlights as int,
            ));
            assert(old(self)@.stack.skip(parent_highlights as int) =~= old(self)@.stack.subrange(
                parent_highlights as int,
                old(self)@.stack.len() as int,
            ));
        }
    }

    /// The capture under which the scopes around a node of the current
    /// layer define the node's text, if they do.
    fn lookup_local(&mut self, node: MatchedNode) -> (definition: Option<Capture>)
        requires
            old(self).wf(),
            span_in_text(node.node, old(self).src.text()),
        ensures
            final(self).wf(),
            final(self).same_pass(old(self)),
            final(self).active_config == old(self).active_config,
            final(self).current_layer == old(self).current_layer,
            final(self)@ == old(self)@,
            definition == lookup(
                old(self).syntax.layers@[old(self).current_layer.0 as int].locals@,
                innermost(
                    old(self).syntax.layers@[old(self).current_layer.0 as int].locals@,
                    node.node.start_byte,
                    old(self).syntax.layers@[old(self).current_layer.0 as int].locals@.len() as int,
                ),
                decode_utf8(span_text(old(self).src.text(), node.node)),
            ),
    {
        let text = self.src.byte_slice(node.node.start_byte, node.node.end_byte);
        proof {
            vstd::utf8::encode_utf8_decode_utf8(text@);
        }
        let layer = self.current_layer;
        let ghost before = self.layers@;
        assert(before[layer.0 as int].wf(self.syntax, layer));
        let data = &mut self.layers[layer.idx()];
        let scope = data.scope_cursor.advance(node.node.start_byte);
        let definition = data.scope_cursor.locals.lookup_reference(scope, text.as_str());
        proof {
            assert forall|l: int| 0 <= l < self.layers@.len() implies (#[trigger] self.layers@[l]).wf(
                self.syntax,
                Layer(l as u32),
            ) by {
                if l != layer.0 {
                    assert(self.layers@[l] == before[l]);
                    assert(before[l].wf(self.syntax, Layer(l as u32)));
                }
            }
            assert(layer_states(self.layers@) =~= layer_states(before));
        }
        definition
    }

    /// Deals with a match in the current layer: unless the match is
    /// dropped, its highlight comes into force, in place of the highlight of
    /// an earlier match on the same node.
    fn start_highlight(&mut self, node: MatchedNode, first_highlight: &mut bool)
        requires
            old(self).wf(),
            old(self).pass().config(old(self).current_layer) is Some,
            old(self).pass().table(old(self).current_layer) is Some,
            node.capture.0 < old(self).pass().table(old(self).current_layer)->Some_0.len(),
            old(self).pass().reads_text(old(self).current_layer, node) ==> span_in_text(
                node.node,
                old(self).pass().text,
            ),
        ensures
            final(self).wf(),
            final(self).same_pass(old(self)),
            final(self).current_layer == old(self).current_layer,
            final(self)@ == (ComposerState {
                stack: push_match(
                    old(self)@.stack,
                    *old(first_highlight),
                    node.node.end_byte,
                    old(self).pass().match_highlight(old(self).current_layer, node),
                ),
                ..old(self)@
            }),
            *final(first_highlight) == first_after(
                *old(first_highlight),
                old(self).pass().match_highlight(old(self).current_layer, node),
            ),
    {
        let config = self.active_config.unwrap();
        let highlight = if Some(node.capture) == config.highlight_query.local_reference_capture() {
            // A reference to a local gets the highlight of what defined it.
            match self.lookup_local(node) {
                None => {
                    return ;
                },
                Some(capture) => {
                    let language = self.syntax.layer(self.current_layer).language;
                    if language.idx() < self.definitions.len() {
                        match &self.definitions[language.idx()] {
                            Some(map) => map.get(capture),
                            None => Highlight::none(),
                        }
                    } else {
                        Highlight::none()
                    }
                },
            }
        } else {
            // A pattern that is marked with `(#is-not? local)` does not
            // match where the node refers to a local.
            if config.highlight_query.is_non_local(node.pattern) {
                if self.lookup_local(node).is_some() {
                    return ;
                }
            }
            let language = self.syntax.layer(self.current_layer).language;
            match &self.highlights[language.idx()] {
                Some(table) => table[node.capture.idx()],
                None => Highlight::none(),
            }
        };
        // Of the patterns that match one node, the last one wins.
        if !*first_highlight && self.active_highlights.len() > 0
            && self.active_highlights[self.active_highlights.len() - 1].end == node.node.end_byte {
            self.active_highlights.pop();
        }
        if !highlight.is_none() {
            self.active_highlights.push(HighlightedNode { end: node.node.end_byte, highlight });
            *first_highlight = false;
        }
    }

    /// Makes one step, at the byte that `next_event_offset` gives: the
    /// highlights that end there leave the stack, and the events that start
    /// there are dealt with. Says whether the highlights that were in force
    /// before the step have changed.
    fn step(&mut self) -> (refresh: bool)
        requires
            old(self).wf(),
        ensures
            final(self).wf(),
            final(self).pass() == old(self).pass(),
            final(self)@ == advance_spec(old(self).pass(), old(self)@).state,
            refresh == advance_spec(old(self).pass(), old(self)@).refresh,
    {
        let mut refresh = false;
        let prev_stack_size = self.active_highlights.len();
        let pos = self.next_event_offset();
        if self.next_highlight_end == pos {
            self.process_highlight_end(pos);
            refresh = true;
        }
        let ghost pass = self.pass();
        let ghost target = handle_events(pass, self@, pos, true, refresh);
        let mut first_highlight = true;
        while self.next_highlight_start == pos && self.next_event < self.events.len()
            invariant
                self.wf(),
                self.pass() == pass,
                self.same_pass(old(self)),
                target == handle_events(pass, self@, pos, first_highlight, refresh),
            decreases self.events@.len() - self.next_event,
        {
            let ghost before = self@;
            let ghost index = self.next_event as int;
            proof {
                assert(pass.event_ok(index));
                assert(pass.events[index] == self.events@[index]);
            }
            match self.advance_query_iter() {
                None => {},
                Some(QueryIterEvent::EnterInjection(injection)) => {
                    self.enter_injection();
                    proof {
                        assert(self@ == before.enter(injection.layer));
                    }
                },
                Some(QueryIterEvent::Match(node)) => {
                    proof {
                        assert(self.current_layer == pass.layer_before(index));
                    }
                    self.start_highlight(node, &mut first_highlight);
                },
                Some(QueryIterEvent::ExitInjection { injection, finished }) => {
                    if finished {
                        self.layers.set(injection.layer.idx(), LayerData::new(self.syntax, &injection));
                        proof {
                            assert(self.layers@[injection.layer.0 as int]@.dormant
                                =~= Seq::<HighlightedNode>::empty());
                            assert(self@.layers =~= before.exit(
                                injection.layer,
                                finished,
                                self.next_highlight_start,
                            ).layers);
                        }
                    } else {
                        // The layer is entered again: its highlights are
                        // kept for then.
                        self.deactivate_layer(injection.layer);
                        refresh = true;
                    }
                    let active_language = self.syntax.layer(self.current_layer).language;
                    self.active_config = self.loader.get_config(active_language);
                },
            }
        }
        self.next_highlight_end = match self.active_highlights.last() {
            Some(node) => node.end,
            None => u32::MAX,
        };
        // With fewer highlights in force than before there is nothing to
        // hand out on top of those that were.
        refresh || self.active_highlights.len() < prev_stack_size
    }

    /// Makes one step, at the byte that `next_event_offset` gives: the
    /// highlights that end there leave the stack, and the events that start
    /// there are dealt with. Where a highlight ended at the byte or the
    /// highlights of an injection went dormant, the event holds all
    /// highlights in force; else those above as many as were in force
    /// before. Should fewer be in force than before though neither is so,
    /// the event holds all highlights in force too.
    /// In a pass over properly nested nodes the stack keeps its discipline:
    /// after the step each highlight in force stems from a match whose node
    /// spans the byte of the step. So it does in a pass with injections
    /// that are entered again, as long as each highlight that comes into
    /// force in the step, a dormant one that returns too, ends behind the
    /// byte and within the highlight below it.
    /// After every step the end of the innermost highlight is known: so
    /// where no step is left, at the greatest byte offset, no highlight is
    /// in force but one that ends there.
    pub fn advance(&mut self) -> (event: HighlightEvent<'_>)
        requires
            old(self).wf(),
        ensures
            final(self).wf(),
            final(self).pass() == old(self).pass(),
            final(self)@ == advance_spec(old(self).pass(), old(self)@).state,
            match event {
                HighlightEvent::RefreshHighlights(list) => {
                    &&& advance_spec(old(self).pass(), old(self)@).refresh
                    &&& list.wf()
                    &&& list@ == highlights_of(final(self)@.stack)
                },
                HighlightEvent::PushHighlights(list) => {
                    &&& !advance_spec(old(self).pass(), old(self)@).refresh
                    &&& list.wf()
                    &&& old(self)@.stack.len() <= final(self)@.stack.len()
                    &&& list@ == highlights_of(
                        final(self)@.stack.skip(old(self)@.stack.len() as int),
                    )
                },
            },
            final(self)@.next_end == top_end(final(self)@.stack),
            advance_spec(old(self).pass(), old(self)@).refresh == (old(self)@.next_end == old(
                self,
            )@.next_event_offset(old(self).pass()) || goes_dormant(
                old(self).pass().events,
                old(self)@.consumed as int,
                old(self)@.next_event_offset(old(self).pass()),
            ) || final(self)@.stack.len() < old(self)@.stack.len()),
            forall|before: u32|
                orderly(old(self).pass()) && settled(old(self)@) && #[trigger] in_discipline(
                    old(self).pass(),
                    old(self)@,
                    before,
                ) ==> before <= old(self)@.next_event_offset(old(self).pass()) && settled(
                    final(self)@,
                ) && in_discipline(
                    old(self).pass(),
                    final(self)@,
                    old(self)@.next_event_offset(old(self).pass()),
                ),
            forall|before: u32|
                in_byte_order(old(self).pass().events) && step_nests(old(self).pass(), old(self)@)
                    && #[trigger] in_discipline(old(self).pass(), old(self)@, before) ==> before
                    <= old(self)@.next_event_offset(old(self).pass()) && in_discipline(
                    old(self).pass(),
                    final(self)@,
                    old(self)@.next_event_offset(old(self).pass()),
                ),
    {
        let prev_stack_size = self.active_highlights.len();
        let refresh = self.step();
        proof {
            lemma_refresh_causes(
                old(self).pass(),
                step_start(old(self).pass(), old(self)@),
                old(self)@.next_event_offset(old(self).pass()),
                true,
                old(self)@.next_end == old(self)@.next_event_offset(old(self).pass()),
            );
            assert forall|before: u32|
                orderly(old(self).pass()) && settled(old(self)@) && #[trigger] in_discipline(
                    old(self).pass(),
                    old(self)@,
                    before,
                ) implies before <= old(self)@.next_event_offset(old(self).pass()) && settled(
                self@,
            ) && in_discipline(
                old(self).pass(),
                self@,
                old(self)@.next_event_offset(old(self).pass()),
            ) by {
                lemma_stack_discipline(old(self).pass(), old(self)@, before);
            }
            assert forall|before: u32|
                in_byte_order(old(self).pass().events) && step_nests(old(self).pass(), old(self)@)
                    && #[trigger] in_discipline(
                    old(self).pass(),
                    old(self)@,
                    before,
                ) implies before <= old(self)@.next_event_offset(old(self).pass())
                && in_discipline(
                old(self).pass(),
                self@,
                old(self)@.next_event_offset(old(self).pass()),
            ) by {
                lemma_returning_discipline(old(self).pass(), old(self)@, before);
            }
        }
        if refresh {
            HighlightEvent::RefreshHighlights(HighlightList::new(self.active_highlights.as_slice()))
        } else {
            let pushed = vstd::slice::slice_subrange(
                self.active_highlights.as_slice(),
                prev_stack_size,
                self.active_highlights.len(),
            );
            assert(pushed@ =~= self@.stack.skip(prev_stack_size as int));
            HighlightEvent::PushHighlights(HighlightList::new(pushed))
        }
    }
}

/// The highlights below `floor` stay what they are while events are dealt
/// with, unless the highlights of an injection go dormant or a match takes
/// the place of one of them.
pub proof fn lemma_handle_keeps<L: LanguageLoader>(
    pass: Pass<L>,
    s: ComposerState,
    pos: u32,
    first: bool,
    refresh: bool,
    floor: nat,
    kept: Seq<HighlightedNode>,
)
    requires
        kept.len() == floor,
        refresh || (floor <= s.stack.len() && s.stack.take(floor as int) == kept),
        !replaces_older(pass, s, pos, first, floor),
    ensures
        handle_events(pass, s, pos, first, refresh).refresh || (floor <= handle_events(
            pass,
            s,
            pos,
            first,
            refresh,
        ).state.stack.len() && handle_events(pass, s, pos, first, refresh).state.stack.take(
            floor as int,
        ) == kept),
    decreases pass.events.len() - s.consumed,
{
    if s.consumed >= pass.events.len() || pass.events[s.consumed as int].spec_start_byte() != pos {
    } else {
        match pass.events[s.consumed as int] {
            QueryIterEvent::EnterInjection(injection) => {
                let next = s.enter(injection.layer);
                if !refresh {
                    assert(next.stack.take(floor as int) =~= s.stack.take(floor as int));
                }
                lemma_handle_keeps(pass, next, pos, first, refresh, floor, kept);
            },
            QueryIterEvent::Match(node) => {
                let h = pass.match_highlight(pass.layer_before(s.consumed as int), node);
                let stack = push_match(s.stack, first, node.node.end_byte, h);
                let next = ComposerState { stack, consumed: s.consumed + 1, ..s };
                if !refresh {
                    assert(stack.take(floor as int) =~= s.stack.take(floor as int));
                }
                lemma_handle_keeps(pass, next, pos, first_after(first, h), refresh, floor, kept);
            },
            QueryIterEvent::ExitInjection { injection, finished } => {
                let next = s.exit(
                    injection.layer,
                    finished,
                    next_start(pass.events, s.consumed as int + 1),
                );
                lemma_handle_keeps(pass, next, pos, first, refresh || !finished, floor, kept);
            },
        }
    }
}

/// A step that does not refresh keeps the highlights that were in force,
/// below those that it adds, unless one of its matches takes the place of
/// one of them.
pub proof fn lemma_push_keeps<L: LanguageLoader>(pass: Pass<L>, s: ComposerState)
    requires
        !step_replaces_older(pass, s),
    ensures
        advance_spec(pass, s).refresh || (s.stack.len() <= advance_spec(pass, s).state.stack.len()
            && advance_spec(pass, s).state.stack.take(s.stack.len() as int) == s.stack),
{
    let pos = s.next_event_offset(pass);
    let ended = s.next_end == pos;
    if !ended {
        assert(s.stack.take(s.stack.len() as int) =~= s.stack);
    }
    lemma_handle_keeps(pass, step_start(pass, s), pos, true, ended, s.stack.len(), s.stack);
}

} // verus!
