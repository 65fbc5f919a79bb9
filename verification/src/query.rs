//! Compiled queries: patterns, captures and string literals by index, and
//! the text predicates of each pattern.

use vstd::prelude::*;
use vstd::string::StringSliceAdditionalSpecFns;
use vstd::utf8::is_char_boundary;
use crate::classify::{
    classify, group_ranges, groups, parse_predicate, pattern_classified, steps_before,
    text_predicate_wf, texts_before, texts_of, Classified, ParsedPredicate,
};
use crate::compile::{
    accepted, all_accepted, callback_fits, compilation_refused, lemma_refusal_locatable,
    lemma_steps_before_monotonic, lemma_users_of_push, pattern_accepted, pattern_rejected,
    patterns_located, text_views, user_views, users_of,
};
use crate::parse_error::{failure_error, CompileFailure, ParseError};
use crate::predicate::{InvalidPredicateError, PredicateStep, PredicateStepKind};
use crate::text::str_eq;
use crate::text_predicate::{TextPredicate, TextPredicateView};
use crate::user_predicate::UserPredicate;

verus! {

/// The index of a pattern in its query.
#[derive(Clone, Copy, Debug, PartialEq, Eq, Structural, PartialOrd, Ord, Hash)]
pub struct Pattern(pub u32);

impl Pattern {
    /// The index that no pattern has.
    pub fn sentinel() -> (p: Pattern)
        ensures
            p.0 == u32::MAX,
    {
        Pattern(u32::MAX)
    }

    /// The index as a position in the query's pattern list.
    pub fn idx(&self) -> (i: usize)
        ensures
            i == self.0,
    {
        self.0 as usize
    }
}

/// The index of a capture name in its query.
#[derive(Clone, Copy, Debug, PartialEq, Eq, Structural, Hash)]
pub struct Capture(pub u32);

impl Capture {
    /// The index as a position in the query's capture list.
    pub fn idx(self) -> (i: usize)
        ensures
            i == self.0,
    {
        self.0 as usize
    }
}

/// The index of a string literal in its query.
#[derive(Clone, Copy, Debug, PartialEq, Eq, Structural, Hash)]
pub struct QueryStr(pub u32);

/// What the grammar library holds of a compiled query: its capture names
/// and string literals by index and, for each pattern, where it starts in
/// the source and its predicate steps.
#[derive(Debug)]
pub struct QueryData {
    pub capture_names: Vec<String>,
    pub strings: Vec<String>,
    pub pattern_starts: Vec<u32>,
    pub predicate_steps: Vec<Vec<PredicateStep>>,
}

/// What a [`QueryData`] holds, as mathematical values.
pub struct QueryDataView {
    pub capture_names: Seq<Seq<char>>,
    pub strings: Seq<Seq<char>>,
    pub pattern_starts: Seq<u32>,
    pub predicate_steps: Seq<Seq<PredicateStep>>,
}

impl QueryDataView {
    /// The step names a capture or a string that the query has.
    pub open spec fn step_wf(&self, step: PredicateStep) -> bool {
        match step.kind {
            PredicateStepKind::Capture => step.value_id < self.capture_names.len(),
            PredicateStepKind::String => step.value_id < self.strings.len(),
            PredicateStepKind::Done => true,
        }
    }

    /// Counts fit their indices, each pattern has its steps, and each step
    /// names what the query has.
    pub open spec fn wf(&self) -> bool {
        &&& self.capture_names.len() <= u32::MAX
        &&& self.strings.len() <= u32::MAX
        &&& self.pattern_starts.len() <= u32::MAX
        &&& self.predicate_steps.len() == self.pattern_starts.len()
        &&& forall|p: int, i: int|
            0 <= p < self.predicate_steps.len() && 0 <= i < self.predicate_steps[p].len()
                ==> self.step_wf(#[trigger] self.predicate_steps[p][i])
    }

    /// The text of a string literal.
    pub open spec fn string(&self, str: QueryStr) -> Seq<char> {
        self.strings[str.0 as int]
    }

    /// The name of a capture.
    pub open spec fn capture(&self, capture: Capture) -> Seq<char> {
        self.capture_names[capture.0 as int]
    }
}

impl View for QueryData {
    type V = QueryDataView;

    open spec fn view(&self) -> QueryDataView {
        QueryDataView {
            capture_names: Seq::new(
                self.capture_names@.len(),
                |i: int| self.capture_names@[i]@,
            ),
            strings: Seq::new(self.strings@.len(), |i: int| self.strings@[i]@),
            pattern_starts: self.pattern_starts@,
            predicate_steps: Seq::new(
                self.predicate_steps@.len(),
                |i: int| self.predicate_steps@[i]@,
            ),
        }
    }
}

impl QueryData {
    /// Whether a query can be made of the data and its source: whether each
    /// step names a capture or a string of the query, each pattern has its
    /// steps and starts between characters of the source, and the counts fit
    /// their indices.
    #[verifier::loop_isolation(false)]
    pub fn check(&self, source: &str) -> (fits: bool)
        ensures
            fits == (self@.wf() && steps_before(self@, self@.predicate_steps.len() as int)
                <= u32::MAX && patterns_located(self@, source.spec_bytes())),
    {
        let limit = u32::MAX as usize;
        let n = self.predicate_steps.len();
        if self.capture_names.len() > limit || self.strings.len() > limit || n > limit
            || self.pattern_starts.len() != n {
            return false;
        }
        let bytes = source.as_bytes().len();
        let mut total: usize = 0;
        let mut p: usize = 0;
        while p < n
            invariant
                n == self@.predicate_steps.len(),
                n == self@.pattern_starts.len(),
                limit == u32::MAX,
                bytes == source.spec_bytes().len(),
                p <= n,
                total == steps_before(self@, p as int),
                total <= limit,
                forall|q: int, i: int|
                    0 <= q < p && 0 <= i < self@.predicate_steps[q].len() ==> self@.step_wf(
                        #[trigger] self@.predicate_steps[q][i],
                    ),
                forall|q: int|
                    0 <= q < p && (#[trigger] self@.pattern_starts[q]) <= source.spec_bytes().len()
                        ==> is_char_boundary(source.spec_bytes(), self@.pattern_starts[q] as int),
            decreases n - p,
        {
            let steps = &self.predicate_steps[p];
            proof {
                assert(steps@ == self@.predicate_steps[p as int]);
                lemma_steps_before_monotonic(self@, p + 1, n as int);
            }
            if steps.len() > limit - total {
                return false;
            }
            let mut i: usize = 0;
            while i < steps.len()
                invariant
                    i <= steps@.len(),
                    forall|k: int| 0 <= k < i ==> self@.step_wf(#[trigger] steps@[k]),
                decreases steps@.len() - i,
            {
                let named = match steps[i].kind {
                    PredicateStepKind::Capture => (steps[i].value_id as usize)
                        < self.capture_names.len(),
                    PredicateStepKind::String => (steps[i].value_id as usize) < self.strings.len(),
                    PredicateStepKind::Done => true,
                };
                if !named {
                    assert(!self@.step_wf(self@.predicate_steps[p as int][i as int]));
                    return false;
                }
                i += 1;
            }
            let start = self.pattern_starts[p] as usize;
            if start <= bytes && !source.is_char_boundary(start) {
                assert(self@.pattern_starts[p as int] == self.pattern_starts@[p as int]);
                return false;
            }
            total += steps.len();
            p += 1;
        }
        true
    }

    /// The text of a string literal of the query.
    pub fn get_string(&self, str: QueryStr) -> (s: &str)
        requires
            str.0 < self@.strings.len(),
        ensures
            s@ == self@.string(str),
    {
        self.strings[str.0 as usize].as_str()
    }

    /// The name of a capture of the query.
    pub fn capture_name(&self, capture: Capture) -> (s: &str)
        requires
            capture.0 < self@.capture_names.len(),
        ensures
            s@ == self@.capture(capture),
    {
        self.capture_names[capture.0 as usize].as_str()
    }
}

/// The text predicates of one pattern, as a range of the query's text
/// predicates.
#[derive(Debug)]
pub struct PatternData {
    pub text_predicates: core::ops::Range<u32>,
}

/// What a [`Query`] holds, as mathematical values.
pub struct QueryView {
    pub data: QueryDataView,
    pub text_predicates: Seq<TextPredicateView>,
    pub patterns: Seq<(int, int)>,
    pub disabled: Seq<bool>,
}

/// A compiled query: what the grammar library holds of it, and the text
/// predicates of its patterns.
#[derive(Debug)]
pub struct Query {
    raw: QueryData,
    num_captures: u32,
    num_strings: u32,
    text_predicates: Vec<TextPredicate>,
    patterns: Vec<PatternData>,
    disabled: Vec<bool>,
}

impl View for Query {
    type V = QueryView;

    closed spec fn view(&self) -> QueryView {
        QueryView {
            data: self.raw@,
            text_predicates: text_views(self.text_predicates@),
            patterns: Seq::new(
                self.patterns@.len(),
                |i: int|
                    (
                        self.patterns@[i].text_predicates.start as int,
                        self.patterns@[i].text_predicates.end as int,
                    ),
            ),
            disabled: self.disabled@,
        }
    }
}

impl QueryView {
    /// The text predicates are those that the patterns' predicate steps
    /// spell, pattern by pattern, and each pattern has its range of them.
    pub open spec fn wf(&self) -> bool {
        &&& self.data.wf()
        &&& self.patterns.len() == self.data.pattern_starts.len()
        &&& self.text_predicates == texts_before(self.data, self.patterns.len() as int)
        &&& forall|p: int|
            0 <= p < self.patterns.len() ==> #[trigger] self.patterns[p] == (
                texts_before(self.data, p).len() as int,
                texts_before(self.data, p + 1).len() as int,
            )
        &&& forall|i: int|
            0 <= i < self.text_predicates.len() ==> text_predicate_wf(
                self.data,
                #[trigger] self.text_predicates[i],
            )
        &&& self.disabled.len() == self.data.capture_names.len()
        &&& forall|p: int, j: int|
            0 <= p < self.patterns.len() && 0 <= j < pattern_classified(self.data, p).len() ==> !(
            #[trigger] pattern_classified(self.data, p)[j] is Invalid)
    }
}

impl Query {
    /// The query's internal ranges and counts agree with its view.
    pub closed spec fn inv(&self) -> bool {
        &&& self.num_captures == self.raw@.capture_names.len()
        &&& self.num_strings == self.raw@.strings.len()
    }

    /// The query is what compiling made it.
    pub open spec fn wf(&self) -> bool {
        self.inv() && self@.wf()
    }
}

impl Query {
    /// Makes a query of what the grammar library made of its source: of what
    /// the library holds of the compiled query, or of the library's failure
    /// to compile it. Each pattern's predicates are parsed in order; text
    /// predicates become the query's own, the others are handed to
    /// `custom_predicate`. The first predicate that is invalid or refused
    /// ends compilation with its error.
    pub fn new<F: Fn(Pattern, UserPredicate) -> Result<(), InvalidPredicateError>>(
        compiled: Result<QueryData, CompileFailure>,
        source: &str,
        custom_predicate: F,
    ) -> (r: Result<Query, ParseError>)
        requires
            source.spec_bytes().len() <= i32::MAX,
            match compiled {
                Err(failure) => failure.wf(source.spec_bytes()),
                Ok(data) => {
                    &&& data@.wf()
                    &&& steps_before(data@, data@.predicate_steps.len() as int) <= u32::MAX
                    &&& patterns_located(data@, source.spec_bytes())
                    &&& callback_fits(custom_predicate, data@, source.spec_bytes())
                },
            },
        ensures
            r is Ok ==> {
                &&& compiled is Ok
                &&& r->Ok_0.wf()
                &&& r->Ok_0@.data == compiled->Ok_0@
                &&& r->Ok_0@.disabled == Seq::new(r->Ok_0@.disabled.len(), |c: int| false)
                &&& all_accepted(custom_predicate, compiled->Ok_0@)
            },
            r is Err && compiled is Err ==> r->Err_0@ == failure_error(
                source.spec_bytes(),
                compiled->Err_0,
            ),
            r is Err && compiled is Ok ==> compilation_refused(
                custom_predicate,
                compiled->Ok_0@,
                source.spec_bytes(),
                r->Err_0@,
            ),
    {
        let data = match compiled {
            Err(failure) => {
                return Err(ParseError::from_failure(source, failure));
            },
            Ok(data) => data,
        };
        let num_captures = data.capture_names.len() as u32;
        let num_strings = data.strings.len() as u32;
        let n = data.predicate_steps.len();
        let mut text_predicates: Vec<TextPredicate> = Vec::new();
        let mut patterns: Vec<PatternData> = Vec::new();
        let mut p: usize = 0;
        proof {
            assert(text_views(text_predicates@) =~= texts_before(data@, 0));
        }
        while p < n
            invariant
                compiled == Ok::<QueryData, CompileFailure>(data),
                data@.wf(),
                n == data@.predicate_steps.len(),
                steps_before(data@, n as int) <= u32::MAX,
                patterns_located(data@, source.spec_bytes()),
                callback_fits(custom_predicate, data@, source.spec_bytes()),
                p <= n,
                patterns@.len() == p,
                text_views(text_predicates@) == texts_before(data@, p as int),
                text_predicates@.len() <= steps_before(data@, p as int),
                forall|k: int|
                    0 <= k < p ==> (#[trigger] patterns@[k]).text_predicates.start == texts_before(
                        data@,
                        k,
                    ).len() && patterns@[k].text_predicates.end == texts_before(data@, k + 1).len(),
                forall|i: int|
                    0 <= i < text_predicates@.len() ==> text_predicate_wf(
                        data@,
                        (#[trigger] text_predicates@[i])@,
                    ),
                forall|k: int|
                    0 <= k < p ==> #[trigger] pattern_accepted(custom_predicate, data@, k),
            decreases n - p,
        {
            proof {
                lemma_steps_before_monotonic(data@, p + 1, n as int);
            }
            let pattern = Pattern(p as u32);
            match Query::parse_pattern_predicates(
                &data,
                &mut text_predicates,
                pattern,
                &custom_predicate,
            ) {
                Err(refusal) => {
                    let start = data.pattern_starts[p] as usize;
                    proof {
                        lemma_refusal_locatable(
                            custom_predicate,
                            data@,
                            source.spec_bytes(),
                            p as int,
                            refusal,
                        );
                    }
                    let ghost refused = refusal;
                    let error = ParseError::from_predicate(source, start, refusal);
                    proof {
                        assert(pattern_rejected(custom_predicate, compiled->Ok_0@, p as int, refused));
                        assert(compilation_refused(
                            custom_predicate,
                            compiled->Ok_0@,
                            source.spec_bytes(),
                            error@,
                        ));
                    }
                    return Err(error);
                },
                Ok(pd) => {
                    patterns.push(pd);
                },
            }
            p += 1;
        }
        let disabled = vec![false; data.capture_names.len()];
        let query = Query { raw: data, num_captures, num_strings, text_predicates, patterns, disabled };
        proof {
            assert forall|k: int| 0 <= k < query@.patterns.len() implies #[trigger] query@.patterns[k]
                == (
                texts_before(query@.data, k).len() as int,
                texts_before(query@.data, k + 1).len() as int,
            ) by {
                assert(query.patterns@[k].text_predicates.start == texts_before(data@, k).len());
            }
            assert forall|i: int| 0 <= i < query@.text_predicates.len() implies text_predicate_wf(
                query@.data,
                #[trigger] query@.text_predicates[i],
            ) by {
                assert(text_predicate_wf(data@, query.text_predicates@[i]@));
            }
            assert forall|p: int, j: int|
                0 <= p < query@.patterns.len() && 0 <= j < pattern_classified(
                    query@.data,
                    p,
                ).len() implies !(#[trigger] pattern_classified(query@.data, p)[j] is Invalid) by {
                assert(pattern_accepted(custom_predicate, query@.data, p));
                assert(accepted(
                    custom_predicate,
                    Pattern(p as u32),
                    pattern_classified(query@.data, p)[j],
                ));
            }
            assert(query@.disabled =~= Seq::new(query@.disabled.len(), |c: int| false));
        }
        Ok(query)
    }
}

impl Query {
    /// The text of a string literal of the query.
    pub fn get_string(&self, str: QueryStr) -> (s: &str)
        requires
            self.wf(),
            str.0 < self@.data.strings.len(),
        ensures
            s@ == self@.data.string(str),
    {
        self.raw.get_string(str)
    }

    /// The name of a capture of the query.
    pub fn capture_name(&self, capture_idx: Capture) -> (s: &str)
        requires
            self.wf(),
            capture_idx.0 < self@.data.capture_names.len(),
        ensures
            s@ == self@.data.capture(capture_idx),
    {
        self.raw.capture_name(capture_idx)
    }

    /// The captures of the query with their names, in the order of their
    /// indices.
    pub fn captures(&self) -> (all: Vec<(Capture, &str)>)
        requires
            self.wf(),
        ensures
            all@.len() == self@.data.capture_names.len(),
            forall|i: int|
                0 <= i < all@.len() ==> (#[trigger] all@[i]).0 == Capture(i as u32) && all@[i].1@
                    == self@.data.capture_names[i],
    {
        let mut all: Vec<(Capture, &str)> = Vec::new();
        let mut cap: u32 = 0;
        while cap < self.num_captures
            invariant
                self.wf(),
                cap <= self.num_captures,
                all@.len() == cap,
                forall|i: int|
                    0 <= i < cap ==> (#[trigger] all@[i]).0 == Capture(i as u32) && all@[i].1@
                        == self@.data.capture_names[i],
            decreases self.num_captures - cap,
        {
            all.push((Capture(cap), self.capture_name(Capture(cap))));
            cap += 1;
        }
        all
    }

    /// The number of captures of the query.
    pub fn num_captures(&self) -> (n: u32)
        requires
            self.wf(),
        ensures
            n == self@.data.capture_names.len(),
    {
        self.num_captures
    }

    /// The capture of that name with the lowest index, if there is one.
    pub fn get_capture(&self, capture_name: &str) -> (r: Option<Capture>)
        requires
            self.wf(),
        ensures
            match r {
                Some(c) => {
                    &&& c.0 < self@.data.capture_names.len()
                    &&& self@.data.capture(c) == capture_name@
                    &&& forall|i: int| 0 <= i < c.0 ==> self@.data.capture_names[i] != capture_name@
                },
                None => forall|i: int|
                    0 <= i < self@.data.capture_names.len() ==> self@.data.capture_names[i]
                        != capture_name@,
            },
    {
        let mut capture: u32 = 0;
        while capture < self.num_captures
            invariant
                self.wf(),
                capture <= self.num_captures,
                forall|i: int| 0 <= i < capture ==> self@.data.capture_names[i] != capture_name@,
            decreases self.num_captures - capture,
        {
            if str_eq(capture_name, self.capture_name(Capture(capture))) {
                return Some(Capture(capture));
            }
            capture += 1;
        }
        None
    }

    /// The text predicates of a pattern, in the order of the source.
    pub fn pattern_text_predicates(&self, pattern: Pattern) -> (r: &[TextPredicate])
        requires
            self.wf(),
            pattern.0 < self@.patterns.len(),
        ensures
            text_views(r@) == texts_of(pattern_classified(self@.data, pattern.0 as int)),
            forall|i: int| 0 <= i < r@.len() ==> text_predicate_wf(self@.data, (#[trigger] r@[i])@),
    {
        proof {
            self.lemma_pattern_range(pattern.0 as int);
        }
        let start = self.patterns[pattern.0 as usize].text_predicates.start as usize;
        let end = self.patterns[pattern.0 as usize].text_predicates.end as usize;
        let r = vstd::slice::slice_subrange(self.text_predicates.as_slice(), start, end);
        proof {
            assert(self@.patterns[pattern.0 as int] == (start as int, end as int));
            assert(text_views(r@) =~= self@.text_predicates.subrange(start as int, end as int));
            assert forall|i: int| 0 <= i < r@.len() implies text_predicate_wf(
                self@.data,
                (#[trigger] r@[i])@,
            ) by {
                assert(r@[i]@ == self@.text_predicates[start + i]);
            }
        }
        r
    }

    /// A pattern's range of the text predicates holds the pattern's text
    /// predicates.
    pub proof fn lemma_pattern_range(&self, p: int)
        requires
            self.wf(),
            0 <= p < self@.patterns.len(),
        ensures
            0 <= self@.patterns[p].0 <= self@.patterns[p].1 <= self@.text_predicates.len(),
            self@.text_predicates.subrange(self@.patterns[p].0, self@.patterns[p].1) == texts_of(
                pattern_classified(self@.data, p),
            ),
    {
        let all = self@.text_predicates;
        let a = texts_before(self@.data, p);
        let b = texts_before(self@.data, p + 1);
        lemma_texts_before_prefix(self@.data, p + 1, self@.patterns.len() as int);
        assert(b == a + texts_of(pattern_classified(self@.data, p)));
        assert(self@.patterns[p] == (a.len() as int, b.len() as int));
        assert(all.subrange(0, b.len() as int) == b);
        assert(all.subrange(a.len() as int, b.len() as int) =~= all.subrange(
            0,
            b.len() as int,
        ).subrange(a.len() as int, b.len() as int));
        assert(b.subrange(a.len() as int, b.len() as int) =~= texts_of(
            pattern_classified(self@.data, p),
        ));
    }

    /// The predicates of a pattern that are left to the user, in the order
    /// of the source.
    pub fn pattern_user_predicates(&self, pattern: Pattern) -> (r: Vec<UserPredicate<'_>>)
        requires
            self.wf(),
            pattern.0 < self@.patterns.len(),
        ensures
            user_views(r@) == users_of(pattern_classified(self@.data, pattern.0 as int)),
            forall|i: int| 0 <= i < r@.len() ==> (#[trigger] r@[i]).wf(),
    {
        let steps = self.raw.predicate_steps[pattern.0 as usize].as_slice();
        let ranges = group_ranges(steps);
        let ghost all = pattern_classified(self@.data, pattern.0 as int);
        let mut r: Vec<UserPredicate<'_>> = Vec::new();
        let mut i: usize = 0;
        proof {
            assert(steps@ == self@.data.predicate_steps[pattern.0 as int]);
            assert(all.take(0) =~= Seq::<Classified>::empty());
            assert(user_views(r@) =~= users_of(all.take(0)));
        }
        while i < ranges.len()
            invariant
                self.wf(),
                pattern.0 < self@.patterns.len(),
                steps@ == self@.data.predicate_steps[pattern.0 as int],
                all == pattern_classified(self@.data, pattern.0 as int),
                all.len() == ranges@.len(),
                i <= ranges@.len(),
                forall|k: int|
                    0 <= k < ranges@.len() ==> {
                        &&& (#[trigger] ranges@[k]).0 < ranges@[k].1 <= steps@.len()
                        &&& crate::classify::no_done(
                            steps@,
                            ranges@[k].0 as int,
                            ranges@[k].1 as int,
                        )
                        &&& steps@.subrange(ranges@[k].0 as int, ranges@[k].1 as int) == groups(
                            steps@,
                        )[k]
                    },
                user_views(r@) == users_of(all.take(i as int)),
                forall|k: int| 0 <= k < r@.len() ==> (#[trigger] r@[k]).wf(),
            decreases ranges@.len() - i,
        {
            let (from, to) = ranges[i];
            let group = vstd::slice::slice_subrange(steps, from, to);
            proof {
                assert(ranges@[i as int].0 == from);
                assert(group@ == groups(steps@)[i as int]);
                assert(all[i as int] == classify(self@.data, group@));
                assert forall|k: int| 0 <= k < group@.len() implies (#[trigger] group@[k]).kind
                    != PredicateStepKind::Done && self@.data.step_wf(group@[k]) by {
                    assert(group@[k] == steps@[from + k]);
                    assert(self@.data.step_wf(
                        self@.data.predicate_steps[pattern.0 as int][from + k],
                    ));
                }
                assert(all.take(i + 1) =~= all.take(i as int).push(all[i as int]));
                lemma_users_of_push(all.take(i as int), all[i as int]);
            }
            match parse_predicate(&self.raw, group) {
                Ok(ParsedPredicate::User(user)) => {
                    proof {
                        assert(user_views(r@.push(user)) =~= user_views(r@).push(user@));
                    }
                    r.push(user);
                },
                _ => {},
            }
            i += 1;
        }
        proof {
            assert(all.take(all.len() as int) =~= all);
        }
        r
    }

    /// The byte offset in the source at which a pattern starts.
    pub fn start_byte_for_pattern(&self, pattern: Pattern) -> (start: usize)
        requires
            self.wf(),
            pattern.0 < self@.patterns.len(),
        ensures
            start == self@.data.pattern_starts[pattern.0 as int],
    {
        self.raw.pattern_starts[pattern.0 as usize] as usize
    }

    /// The number of patterns of the query.
    pub fn pattern_count(&self) -> (n: usize)
        requires
            self.wf(),
        ensures
            n == self@.patterns.len(),
    {
        self.raw.pattern_starts.len()
    }

    /// The patterns of the query, in the order of the source.
    pub fn patterns(&self) -> (all: Vec<Pattern>)
        requires
            self.wf(),
        ensures
            all@.len() == self@.patterns.len(),
            forall|i: int| 0 <= i < all@.len() ==> #[trigger] all@[i] == Pattern(i as u32),
    {
        let n = self.pattern_count();
        let mut all: Vec<Pattern> = Vec::new();
        let mut i: usize = 0;
        while i < n
            invariant
                self.wf(),
                n == self@.patterns.len(),
                i <= n,
                all@.len() == i,
                forall|k: int| 0 <= k < i ==> #[trigger] all@[k] == Pattern(k as u32),
            decreases n - i,
        {
            all.push(Pattern(i as u32));
            i += 1;
        }
        all
    }

    /// Whether a capture was disabled.
    pub fn is_capture_disabled(&self, capture: Capture) -> (b: bool)
        requires
            self.wf(),
            capture.0 < self@.data.capture_names.len(),
        ensures
            b == self@.disabled[capture.0 as int],
    {
        self.disabled[capture.0 as usize]
    }

    /// Disables the captures of that name: matches no longer hold nodes
    /// under them. Nothing enables a capture again.
    pub fn disable_capture(&mut self, name: &str)
        requires
            old(self).wf(),
        ensures
            final(self).wf(),
            final(self)@.data == old(self)@.data,
            final(self)@.text_predicates == old(self)@.text_predicates,
            final(self)@.patterns == old(self)@.patterns,
            forall|c: int|
                0 <= c < old(self)@.disabled.len() ==> #[trigger] final(self)@.disabled[c] == (old(
                    self,
                )@.disabled[c] || old(self)@.data.capture_names[c] == name@),
    {
        let mut capture: u32 = 0;
        while capture < self.num_captures
            invariant
                self.wf(),
                self@.data == old(self)@.data,
                self@.text_predicates == old(self)@.text_predicates,
                self@.patterns == old(self)@.patterns,
                self@.disabled.len() == old(self)@.disabled.len(),
                capture <= self.num_captures,
                forall|c: int|
                    0 <= c < capture ==> #[trigger] self@.disabled[c] == (old(self)@.disabled[c]
                        || old(self)@.data.capture_names[c] == name@),
                forall|c: int|
                    capture <= c < old(self)@.disabled.len() ==> #[trigger] self@.disabled[c]
                        == old(self)@.disabled[c],
            decreases self.num_captures - capture,
        {
            let ghost before = self@.disabled;
            if str_eq(name, self.capture_name(Capture(capture))) {
                self.disabled.set(capture as usize, true);
                assert(self@.disabled == before.update(capture as int, true));
            }
            capture += 1;
        }
    }
}

/// The text predicates of earlier patterns come first.
pub proof fn lemma_texts_before_prefix(data: QueryDataView, p: int, q: int)
    requires
        0 <= p <= q,
    ensures
        texts_before(data, p).len() <= texts_before(data, q).len(),
        texts_before(data, q).subrange(0, texts_before(data, p).len() as int) == texts_before(
            data,
            p,
        ),
    decreases q,
{
    if p < q {
        lemma_texts_before_prefix(data, p, q - 1);
        assert(texts_before(data, q).subrange(0, texts_before(data, p).len() as int)
            =~= texts_before(data, q - 1).subrange(0, texts_before(data, p).len() as int));
    } else {
        assert(texts_before(data, q).subrange(0, texts_before(data, p).len() as int)
            =~= texts_before(data, p));
    }
}

impl Capture {
    /// The name of the capture in its query.
    pub fn name(self, query: &Query) -> (s: &str)
        requires
            query.wf(),
            self.0 < query@.data.capture_names.len(),
        ensures
            s@ == query@.data.capture(self),
    {
        query.capture_name(self)
    }
}

impl QueryStr {
    /// The text of the string literal in its query.
    pub fn get(self, query: &Query) -> (s: &str)
        requires
            query.wf(),
            self.0 < query@.data.strings.len(),
        ensures
            s@ == query@.data.string(self),
    {
        query.get_string(self)
    }
}

} // verus!
