//! The merge of the matches of all layers of a document into events in the
//! order of the document's bytes.

use vstd::prelude::*;
use crate::syntax::{Injection, Layer, Syntax};
use crate::text_predicate::MatchedNode;

verus! {

/// What the merged matches of a document's layers come to, one after the
/// other.
#[derive(Clone, Copy, Debug)]
pub enum QueryIterEvent {
    /// An injection starts: the matches that follow lie in its layer.
    EnterInjection(Injection),
    /// A capture holds a node.
    Match(MatchedNode),
    /// An injection ends: the matches that follow lie in the layer around
    /// it. A layer that is not `finished` is entered again later, by
    /// another injection that it is combined of.
    ExitInjection { injection: Injection, finished: bool },
}

impl QueryIterEvent {
    /// The byte at which the event takes place.
    pub open spec fn spec_start_byte(&self) -> u32 {
        match self {
            QueryIterEvent::EnterInjection(injection) => injection.range.start_byte,
            QueryIterEvent::Match(node) => node.node.start_byte,
            QueryIterEvent::ExitInjection { injection, finished } => injection.range.end_byte,
        }
    }

    /// The byte at which the event takes place.
    pub fn start_byte(&self) -> (at: u32)
        ensures
            at == self.spec_start_byte(),
    {
        match self {
            QueryIterEvent::EnterInjection(injection) => injection.range.start_byte,
            QueryIterEvent::Match(node) => node.node.start_byte,
            QueryIterEvent::ExitInjection { injection, finished } => injection.range.end_byte,
        }
    }
}

/// The events come in the order of their bytes.
pub open spec fn in_byte_order(events: Seq<QueryIterEvent>) -> bool {
    forall|i: int, j: int|
        0 <= i <= j < events.len() ==> (#[trigger] events[i]).spec_start_byte() <= (
        #[trigger] events[j]).spec_start_byte()
}

/// No match among the events has an empty span.
pub open spec fn no_empty_match(events: Seq<QueryIterEvent>) -> bool {
    forall|i: int|
        0 <= i < events.len() && (#[trigger] events[i]) is Match
            ==> events[i]->Match_0.node.start_byte < events[i]->Match_0.node.end_byte
}

/// The byte at which the first event behind the first `consumed` takes
/// place; the greatest byte offset if there is none.
pub open spec fn next_start(events: Seq<QueryIterEvent>, consumed: int) -> u32 {
    if 0 <= consumed < events.len() {
        events[consumed].spec_start_byte()
    } else {
        u32::MAX
    }
}

/// What is merged: of each layer of a document its injections and its
/// matches, each in the order of the document's bytes.
pub struct Sources {
    pub root: Layer,
    pub injections: Seq<Seq<Injection>>,
    pub matches: Seq<Seq<MatchedNode>>,
}

/// How far a merge has come.
pub struct Progress {
    /// Of each layer, how many of its matches lie behind.
    pub matches: Seq<int>,
    /// Of each layer, how many of its injections lie behind.
    pub injections: Seq<int>,
    /// The injections that were entered and not left, the innermost last.
    pub entered: Seq<Injection>,
}

/// What a merge does next.
pub enum Move {
    /// Nothing: the root layer has no more to give.
    Done,
    /// It leaves the innermost injection.
    Exit,
    /// It passes over the next match of the layer.
    Skip,
    /// It hands out the next match of the layer.
    Match,
    /// It enters the next injection of the layer.
    Enter,
}

/// The matches of a layer; none for a layer that has no list.
pub open spec fn matches_of(matches: Seq<Vec<MatchedNode>>, l: int) -> Seq<MatchedNode> {
    if 0 <= l < matches.len() {
        matches[l]@
    } else {
        Seq::empty()
    }
}

/// The injections and matches of the layers of a document.
pub open spec fn sources(syntax: &Syntax, matches: Seq<Vec<MatchedNode>>) -> Sources {
    Sources {
        root: syntax.root,
        injections: Seq::new(syntax.layers@.len(), |l: int| syntax.layers@[l].injections@),
        matches: Seq::new(syntax.layers@.len(), |l: int| matches_of(matches, l)),
    }
}

/// How many items lie ahead, where `done[l]` of the `lens[l]` items of each
/// layer `l` below `n` lie behind.
pub open spec fn ahead(lens: Seq<int>, done: Seq<int>, n: int) -> int
    decreases n,
{
    if n <= 0 {
        0
    } else {
        ahead(lens, done, n - 1) + lens[n - 1] - done[n - 1]
    }
}

impl Sources {
    /// There is a list of injections and a list of matches for each layer,
    /// the root is a layer, and each injection leads into a layer.
    pub open spec fn wf(&self) -> bool {
        &&& self.matches.len() == self.injections.len()
        &&& self.root.0 < self.injections.len()
        &&& forall|l: int, i: int|
            0 <= l < self.injections.len() && 0 <= i < self.injections[l].len() ==> (
            #[trigger] self.injections[l][i]).layer.0 < self.injections.len()
    }

    /// How many matches each layer has.
    pub open spec fn match_counts(&self) -> Seq<int> {
        Seq::new(self.matches.len(), |l: int| self.matches[l].len() as int)
    }

    /// How many injections each layer has.
    pub open spec fn injection_counts(&self) -> Seq<int> {
        Seq::new(self.injections.len(), |l: int| self.injections[l].len() as int)
    }

    /// A merge that has not begun.
    pub open spec fn start(&self) -> Progress {
        Progress {
            matches: Seq::new(self.matches.len(), |l: int| 0int),
            injections: Seq::new(self.injections.len(), |l: int| 0int),
            entered: Seq::empty(),
        }
    }

    /// The progress counts items that the layers have, and each injection
    /// that was entered leads into a layer.
    pub open spec fn fits(&self, p: Progress) -> bool {
        &&& p.matches.len() == self.matches.len()
        &&& p.injections.len() == self.injections.len()
        &&& forall|l: int|
            0 <= l < self.matches.len() ==> 0 <= #[trigger] p.matches[l] <= self.matches[l].len()
        &&& forall|l: int|
            0 <= l < self.injections.len() ==> 0 <= #[trigger] p.injections[l]
                <= self.injections[l].len()
        &&& forall|k: int|
            0 <= k < p.entered.len() ==> (#[trigger] p.entered[k]).layer.0 < self.injections.len()
    }

    /// The layer that the merge is in: that of the innermost injection that
    /// was entered, or the root.
    pub open spec fn layer(&self, p: Progress) -> Layer {
        if p.entered.len() > 0 {
            p.entered.last().layer
        } else {
            self.root
        }
    }

    /// The first match of the layer that does not lie behind.
    pub open spec fn pending_match(&self, p: Progress) -> Option<MatchedNode> {
        let l = self.layer(p).0 as int;
        if p.matches[l] < self.matches[l].len() {
            Some(self.matches[l][p.matches[l]])
        } else {
            None
        }
    }

    /// The first injection of the layer that does not lie behind.
    pub open spec fn pending_injection(&self, p: Progress) -> Option<Injection> {
        let l = self.layer(p).0 as int;
        if p.injections[l] < self.injections[l].len() {
            Some(self.injections[l][p.injections[l]])
        } else {
            None
        }
    }

    /// The pending match, if it starts inside the innermost injection.
    pub open spec fn next_match(&self, p: Progress) -> Option<MatchedNode> {
        match self.pending_match(p) {
            Some(m) if inside(p.entered, m.node.start_byte) => Some(m),
            _ => None,
        }
    }

    /// The pending injection, if it starts inside the innermost injection.
    pub open spec fn next_injection(&self, p: Progress) -> Option<Injection> {
        match self.pending_injection(p) {
            Some(i) if inside(p.entered, i.range.start_byte) => Some(i),
            _ => None,
        }
    }

    /// What the merge does next. A match with an empty span is passed over.
    /// A match that starts no later than the next injection comes before
    /// it; one that starts inside the injection is passed over, as the
    /// injected layer speaks for that text. Where the layer has no more to
    /// give inside the innermost injection, the merge leaves the injection.
    pub open spec fn next_move(&self, p: Progress) -> Move {
        match (self.next_match(p), self.next_injection(p)) {
            (None, None) => if p.entered.len() > 0 {
                Move::Exit
            } else {
                Move::Done
            },
            (None, Some(_)) => Move::Enter,
            (Some(m), None) => if m.node.start_byte >= m.node.end_byte {
                Move::Skip
            } else {
                Move::Match
            },
            (Some(m), Some(i)) => if m.node.start_byte >= m.node.end_byte {
                Move::Skip
            } else if m.node.start_byte <= i.range.start_byte {
                Move::Match
            } else if m.node.start_byte < i.range.end_byte {
                Move::Skip
            } else {
                Move::Enter
            },
        }
    }

    /// The progress after the next move.
    pub open spec fn after(&self, p: Progress) -> Progress {
        let l = self.layer(p).0 as int;
        match self.next_move(p) {
            Move::Done => p,
            Move::Exit => Progress { entered: p.entered.drop_last(), ..p },
            Move::Skip | Move::Match => Progress {
                matches: p.matches.update(l, p.matches[l] + 1),
                ..p
            },
            Move::Enter => Progress {
                injections: p.injections.update(l, p.injections[l] + 1),
                entered: p.entered.push(self.pending_injection(p)->Some_0),
                ..p
            },
        }
    }

    /// The event of the next move, if it makes one. An injection that is
    /// left is finished unless it is combined and its layer has a match
    /// left, for which the layer is entered again.
    pub open spec fn emitted(&self, p: Progress) -> Option<QueryIterEvent> {
        match self.next_move(p) {
            Move::Done | Move::Skip => None,
            Move::Exit => Some(
                QueryIterEvent::ExitInjection {
                    injection: p.entered.last(),
                    finished: !p.entered.last().combined || self.pending_match(p) is None,
                },
            ),
            Move::Match => Some(QueryIterEvent::Match(self.pending_match(p)->Some_0)),
            Move::Enter => Some(QueryIterEvent::EnterInjection(self.pending_injection(p)->Some_0)),
        }
    }

    /// How many moves the merge can make at most.
    pub open spec fn left(&self, p: Progress) -> int {
        ahead(self.match_counts(), p.matches, self.matches.len() as int) + 2 * ahead(
            self.injection_counts(),
            p.injections,
            self.injections.len() as int,
        ) + p.entered.len()
    }

    /// The next event, and the progress behind it; no event where the merge
    /// is done.
    pub open spec fn next(&self, p: Progress) -> (Progress, Option<QueryIterEvent>)
        decreases self.left(p),
        when self.wf() && self.fits(p)
    {
        proof {
            self.lemma_move(p);
        }
        match self.next_move(p) {
            Move::Done => (p, None),
            Move::Skip => self.next(self.after(p)),
            _ => (self.after(p), self.emitted(p)),
        }
    }

    /// The events from where the merge stands to its end.
    pub open spec fn events_from(&self, p: Progress) -> Seq<QueryIterEvent>
        decreases self.left(p),
        when self.wf() && self.fits(p)
    {
        proof {
            self.lemma_move(p);
        }
        match self.next_move(p) {
            Move::Done => Seq::empty(),
            Move::Skip => self.events_from(self.after(p)),
            _ => seq![self.emitted(p)->Some_0] + self.events_from(self.after(p)),
        }
    }

    /// The events of the whole merge.
    pub open spec fn events(&self) -> Seq<QueryIterEvent> {
        self.events_from(self.start())
    }

    /// A move leaves the progress fitting and brings the end nearer.
    pub proof fn lemma_move(&self, p: Progress)
        requires
            self.wf(),
            self.fits(p),
        ensures
            self.fits(self.after(p)),
            0 <= self.left(self.after(p)),
            !(self.next_move(p) is Done) ==> self.left(self.after(p)) < self.left(p),
    {
        let l = self.layer(p).0 as int;
        let n = self.matches.len() as int;
        let q = self.after(p);
        lemma_ahead_bounds(self.match_counts(), q.matches, n);
        lemma_ahead_bounds(self.injection_counts(), q.injections, n);
        match self.next_move(p) {
            Move::Done | Move::Exit => {},
            Move::Skip | Move::Match => {
                lemma_ahead_step(self.match_counts(), p.matches, n, l);
            },
            Move::Enter => {
                lemma_ahead_step(self.injection_counts(), p.injections, n, l);
            },
        }
    }
    /// The events from where the merge stands are the next event and the
    /// events behind it.
    pub proof fn lemma_next(&self, p: Progress)
        requires
            self.wf(),
            self.fits(p),
        ensures
            self.fits(self.next(p).0),
            0 <= self.left(self.next(p).0),
            match self.next(p).1 {
                Some(event) => {
                    &&& self.events_from(p) == seq![event] + self.events_from(self.next(p).0)
                    &&& self.left(self.next(p).0) < self.left(p)
                },
                None => self.events_from(p) == Seq::<QueryIterEvent>::empty(),
            },
        decreases self.left(p),
    {
        self.lemma_move(p);
        lemma_ahead_bounds(self.match_counts(), p.matches, self.matches.len() as int);
        lemma_ahead_bounds(self.injection_counts(), p.injections, self.matches.len() as int);
        if self.next_move(p) is Skip {
            self.lemma_next(self.after(p));
        }
    }
}

/// Byte `at` lies before the end of the innermost injection that was
/// entered. Outside all injections every byte does.
pub open spec fn inside(entered: Seq<Injection>, at: u32) -> bool {
    entered.len() == 0 || at < entered.last().range.end_byte
}

/// Nothing lies ahead of the end.
pub proof fn lemma_ahead_bounds(lens: Seq<int>, done: Seq<int>, n: int)
    requires
        0 <= n <= lens.len(),
        lens.len() == done.len(),
        forall|l: int| 0 <= l < n ==> 0 <= #[trigger] done[l] <= lens[l],
    ensures
        0 <= ahead(lens, done, n),
    decreases n,
{
    if n > 0 {
        lemma_ahead_bounds(lens, done, n - 1);
    }
}

/// One more item behind is one item less ahead.
pub proof fn lemma_ahead_step(lens: Seq<int>, done: Seq<int>, n: int, l: int)
    requires
        0 <= n <= lens.len(),
        lens.len() == done.len(),
        0 <= l < done.len(),
    ensures
        ahead(lens, done.update(l, done[l] + 1), n) == if l < n {
            ahead(lens, done, n) - 1
        } else {
            ahead(lens, done, n)
        },
    decreases n,
{
    if n > 0 {
        lemma_ahead_step(lens, done, n - 1, l);
    }
}

/// The injections of layers that fit together lead into layers.
pub proof fn lemma_sources_wf(syntax: &Syntax, matches: Seq<Vec<MatchedNode>>)
    requires
        syntax.fits_together(),
    ensures
        sources(syntax, matches).wf(),
{
    let src = sources(syntax, matches);
    assert forall|l: int, i: int|
        0 <= l < src.injections.len() && 0 <= i < src.injections[l].len() implies (
    #[trigger] src.injections[l][i]).layer.0 < src.injections.len() by {
        assert(syntax.injection_fits(l, i));
    }
}

/// The merge of the matches of a document's layers, which hands out one
/// event at a time.
pub struct QueryIter<'a> {
    syntax: &'a Syntax,
    matches: &'a Vec<Vec<MatchedNode>>,
    matches_done: Vec<usize>,
    injections_done: Vec<usize>,
    entered: Vec<Injection>,
}

impl<'a> View for QueryIter<'a> {
    type V = Progress;

    closed spec fn view(&self) -> Progress {
        Progress {
            matches: Seq::new(self.matches_done@.len(), |l: int| self.matches_done@[l] as int),
            injections: Seq::new(
                self.injections_done@.len(),
                |l: int| self.injections_done@[l] as int,
            ),
            entered: self.entered@,
        }
    }
}

impl<'a> QueryIter<'a> {
    /// What the iterator merges.
    pub closed spec fn sources(&self) -> Sources {
        sources(self.syntax, self.matches@)
    }

    /// The layers fit together, and the progress fits them.
    pub closed spec fn wf(&self) -> bool {
        &&& self.syntax.fits_together()
        &&& self.sources().fits(self@)
    }

    /// A merge of the matches of the layers of `syntax`, where `matches`
    /// holds those of each layer at the layer's index, in the order of
    /// their bytes. A layer without a list has no matches.
    pub fn new(syntax: &'a Syntax, matches: &'a Vec<Vec<MatchedNode>>) -> (iter: Self)
        requires
            syntax.fits_together(),
        ensures
            iter.wf(),
            iter.sources() == sources(syntax, matches@),
            iter@ == iter.sources().start(),
    {
        let n = syntax.layers.len();
        let mut matches_done: Vec<usize> = Vec::new();
        let mut injections_done: Vec<usize> = Vec::new();
        let mut l: usize = 0;
        while l < n
            invariant
                n == syntax.layers@.len(),
                l <= n,
                matches_done@.len() == l,
                injections_done@.len() == l,
                forall|k: int| 0 <= k < l ==> matches_done@[k] == 0,
                forall|k: int| 0 <= k < l ==> injections_done@[k] == 0,
            decreases n - l,
        {
            matches_done.push(0);
            injections_done.push(0);
            l += 1;
        }
        let iter = QueryIter { syntax, matches, matches_done, injections_done, entered: Vec::new() };
        proof {
            assert(iter@.matches =~= iter.sources().start().matches);
            assert(iter@.injections =~= iter.sources().start().injections);
            assert(iter@.entered =~= iter.sources().start().entered);
        }
        iter
    }

    /// The layer that the merge is in.
    pub fn current_layer(&self) -> (layer: Layer)
        requires
            self.wf(),
        ensures
            layer == self.sources().layer(self@),
            layer.0 < self.sources().injections.len(),
    {
        if self.entered.len() > 0 {
            assert(self@.entered[self.entered@.len() - 1].layer.0 < self.sources().injections.len());
            self.entered[self.entered.len() - 1].layer
        } else {
            self.syntax.root
        }
    }

    /// Whether a byte lies inside the innermost injection that was entered.
    fn inside(&self, at: u32) -> (r: bool)
        ensures
            r == inside(self@.entered, at),
    {
        self.entered.len() == 0 || at < self.entered[self.entered.len() - 1].range.end_byte
    }

    /// The first match of the current layer that does not lie behind.
    fn pending_match(&self) -> (m: Option<MatchedNode>)
        requires
            self.wf(),
        ensures
            m == self.sources().pending_match(self@),
    {
        let l = self.current_layer().idx();
        if l < self.matches.len() && self.matches_done[l] < self.matches[l].len() {
            Some(self.matches[l][self.matches_done[l]])
        } else {
            None
        }
    }

    /// The first injection of the current layer that does not lie behind.
    fn pending_injection(&self) -> (i: Option<Injection>)
        requires
            self.wf(),
        ensures
            i == self.sources().pending_injection(self@),
    {
        let l = self.current_layer().idx();
        let injections = &self.syntax.layers[l].injections;
        if self.injections_done[l] < injections.len() {
            Some(injections[self.injections_done[l]])
        } else {
            None
        }
    }

    /// What the merge does next.
    fn next_move(&self) -> (mv: Move)
        requires
            self.wf(),
        ensures
            mv == self.sources().next_move(self@),
    {
        let next_match = match self.pending_match() {
            Some(m) => if self.inside(m.node.start_byte) {
                Some(m)
            } else {
                None
            },
            None => None,
        };
        let next_injection = match self.pending_injection() {
            Some(i) => if self.inside(i.range.start_byte) {
                Some(i)
            } else {
                None
            },
            None => None,
        };
        match (next_match, next_injection) {
            (None, None) => if self.entered.len() > 0 {
                Move::Exit
            } else {
                Move::Done
            },
            (None, Some(_)) => Move::Enter,
            (Some(m), None) => if m.node.start_byte >= m.node.end_byte {
                Move::Skip
            } else {
                Move::Match
            },
            (Some(m), Some(i)) => if m.node.start_byte >= m.node.end_byte {
                Move::Skip
            } else if m.node.start_byte <= i.range.start_byte {
                Move::Match
            } else if m.node.start_byte < i.range.end_byte {
                Move::Skip
            } else {
                Move::Enter
            },
        }
    }

    /// Makes the next move, and gives its event if it makes one.
    fn make_move(&mut self, mv: Move) -> (event: Option<QueryIterEvent>)
        requires
            old(self).wf(),
            mv == old(self).sources().next_move(old(self)@),
        ensures
            final(self).wf(),
            final(self).sources() == old(self).sources(),
            final(self)@ == old(self).sources().after(old(self)@),
            event == old(self).sources().emitted(old(self)@),
    {
        proof {
            lemma_sources_wf(self.syntax, self.matches@);
            self.sources().lemma_move(self@);
        }
        let l = self.current_layer().idx();
        proof {
            let src = self.sources();
            if mv is Skip || mv is Match {
                assert(src.pending_match(self@) is Some);
                assert(self@.matches[l as int] < src.matches[l as int].len());
                assert(self.matches@[l as int]@.len() == self.matches@[l as int].len());
            }
            if mv is Enter {
                assert(src.pending_injection(self@) is Some);
                assert(self@.injections[l as int] < src.injections[l as int].len());
                assert(self.syntax.layers@[l as int].injections@.len()
                    == self.syntax.layers@[l as int].injections.len());
            }
        }
        let event = match mv {
            Move::Done => None,
            Move::Skip => {
                let done = self.matches_done[l];
                self.matches_done.set(l, done + 1);
                None
            },
            Move::Match => {
                let m = self.pending_match();
                let done = self.matches_done[l];
                self.matches_done.set(l, done + 1);
                match m {
                    Some(m) => Some(QueryIterEvent::Match(m)),
                    None => None,
                }
            },
            Move::Exit => {
                let done = self.pending_match().is_none();
                match self.entered.pop() {
                    Some(injection) => Some(
                        QueryIterEvent::ExitInjection {
                            injection,
                            finished: !injection.combined || done,
                        },
                    ),
                    None => None,
                }
            },
            Move::Enter => {
                let i = self.pending_injection();
                let done = self.injections_done[l];
                self.injections_done.set(l, done + 1);
                match i {
                    Some(injection) => {
                        self.entered.push(injection);
                        Some(QueryIterEvent::EnterInjection(injection))
                    },
                    None => None,
                }
            },
        };
        proof {
            let q = old(self).sources().after(old(self)@);
            assert(self@.matches =~= q.matches);
            assert(self@.injections =~= q.injections);
            assert(self@.entered =~= q.entered);
        }
        event
    }

    /// The next event of the merge; none where the merge is done.
    pub fn next(&mut self) -> (event: Option<QueryIterEvent>)
        requires
            old(self).wf(),
        ensures
            final(self).wf(),
            final(self).sources() == old(self).sources(),
            (final(self)@, event) == old(self).sources().next(old(self)@),
    {
        let ghost src = self.sources();
        proof {
            lemma_sources_wf(self.syntax, self.matches@);
        }
        loop
            invariant
                self.wf(),
                src.wf(),
                self.sources() == src,
                src == old(self).sources(),
                src.next(self@) == src.next(old(self)@),
            decreases src.left(self@),
        {
            proof {
                src.lemma_move(self@);
            }
            let mv = self.next_move();
            match mv {
                Move::Done => {
                    return None;
                },
                Move::Skip => {
                    self.make_move(mv);
                },
                _ => {
                    return self.make_move(mv);
                },
            }
        }
    }
}

/// The events that the matches of the layers of a document come to.
pub fn merged_events(syntax: &Syntax, matches: &Vec<Vec<MatchedNode>>) -> (events: Vec<QueryIterEvent>)
    requires
        syntax.fits_together(),
    ensures
        events@ == sources(syntax, matches@).events(),
{
    let mut iter = QueryIter::new(syntax, matches);
    let ghost src = iter.sources();
    let mut events: Vec<QueryIterEvent> = Vec::new();
    proof {
        lemma_sources_wf(syntax, matches@);
    }
    loop
        invariant
            iter.wf(),
            src.wf(),
            iter.sources() == src,
            src == sources(syntax, matches@),
            events@ + src.events_from(iter@) == src.events(),
        decreases src.left(iter@),
    {
        let ghost before = iter@;
        proof {
            src.lemma_next(before);
        }
        match iter.next() {
            Some(event) => {
                proof {
                    assert(src.next(before) == (iter@, Some(event)));
                    assert(src.left(iter@) < src.left(before));
                    assert(events@.push(event) + src.events_from(iter@) =~= events@ + (seq![event]
                        + src.events_from(iter@)));
                }
                events.push(event);
            },
            None => {
                proof {
                    assert(events@ + Seq::<QueryIterEvent>::empty() =~= events@);
                }
                return events;
            },
        }
    }
}

} // verus!
