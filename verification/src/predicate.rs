//! Predicates of query patterns: their steps as the grammar library hands
//! them out, their arguments, and what makes a predicate invalid.

use vstd::prelude::*;
use crate::query::{Capture, QueryData, QueryDataView, QueryStr};
use crate::text::{debug_quoted, decimal, decimal_string, str_debug};

verus! {

/// What a predicate step holds.
#[derive(Debug, Clone, Copy, PartialEq, Eq, Structural)]
pub enum PredicateStepKind {
    /// The end of one predicate.
    Done,
    /// A capture, by its index.
    Capture,
    /// A string literal, by its index.
    String,
}

/// One step of a pattern's predicates.
#[derive(Debug, Clone, Copy, PartialEq, Eq, Structural)]
pub struct PredicateStep {
    pub kind: PredicateStepKind,
    pub value_id: u32,
}

/// An argument of a predicate.
#[derive(Debug, Clone, Copy, PartialEq, Eq, Structural)]
pub enum PredicateArg {
    Capture(Capture),
    String(QueryStr),
}

/// What an [`InvalidPredicateError`] holds, as mathematical values.
pub enum InvalidPredicateView {
    UnknownProperty { property: Seq<char> },
    UnknownPredicate { name: Seq<char> },
    Other { msg: Seq<char> },
}

/// Why a predicate is refused.
#[derive(Debug)]
pub enum InvalidPredicateError {
    /// The property of a `#set!`, `#is?` or `#is-not?` is not known.
    UnknownProperty { property: String },
    /// The predicate is not known.
    UnknownPredicate { name: String },
    /// Anything else, in words.
    Other { msg: String },
}

impl View for InvalidPredicateError {
    type V = InvalidPredicateView;

    open spec fn view(&self) -> InvalidPredicateView {
        match self {
            InvalidPredicateError::UnknownProperty { property } => {
                InvalidPredicateView::UnknownProperty { property: property@ }
            },
            InvalidPredicateError::UnknownPredicate { name } => {
                InvalidPredicateView::UnknownPredicate { name: name@ }
            },
            InvalidPredicateError::Other { msg } => InvalidPredicateView::Other { msg: msg@ },
        }
    }
}

impl InvalidPredicateError {
    /// The error as a message.
    pub open spec fn spec_text(&self) -> Seq<char> {
        match self {
            InvalidPredicateError::UnknownProperty { property } => "unknown property '"@
                + property@ + "'"@,
            InvalidPredicateError::UnknownPredicate { name } => "unknown predicate #"@ + name@,
            InvalidPredicateError::Other { msg } => msg@,
        }
    }

    /// Writes the error as a message.
    pub fn to_string(&self) -> (s: String)
        ensures
            s@ == self.spec_text(),
    {
        match self {
            InvalidPredicateError::UnknownProperty { property } => {
                let mut s = "unknown property '".to_owned();
                s.append(property.as_str());
                s.append("'");
                s
            },
            InvalidPredicateError::UnknownPredicate { name } => {
                let mut s = "unknown predicate #".to_owned();
                s.append(name.as_str());
                s
            },
            InvalidPredicateError::Other { msg } => msg.clone(),
        }
    }
}

impl From<String> for InvalidPredicateError {
    fn from(value: String) -> (e: Self) {
        InvalidPredicateError::Other { msg: value }
    }
}

impl vstd::std_specs::convert::FromSpecImpl<String> for InvalidPredicateError {
    open spec fn obeys_from_spec() -> bool {
        true
    }

    open spec fn from_spec(value: String) -> Self {
        InvalidPredicateError::Other { msg: value }
    }
}

/// The argument that a step stands for; a `Done` step stands for none.
pub open spec fn arg_of(step: PredicateStep) -> PredicateArg {
    if step.kind == PredicateStepKind::Capture {
        PredicateArg::Capture(Capture(step.value_id))
    } else {
        PredicateArg::String(QueryStr(step.value_id))
    }
}

impl PredicateArg {
    /// The argument that a step stands for; none for a `Done` step.
    pub fn try_from(step: PredicateStep) -> (r: Result<PredicateArg, ()>)
        ensures
            r is Ok <==> step.kind != PredicateStepKind::Done,
            r is Ok ==> r->Ok_0 == arg_of(step),
    {
        match step.kind {
            PredicateStepKind::String => Ok(PredicateArg::String(QueryStr(step.value_id))),
            PredicateStepKind::Capture => Ok(PredicateArg::Capture(Capture(step.value_id))),
            PredicateStepKind::Done => Err(()),
        }
    }
}

/// The message for a predicate with the wrong number of arguments:
/// `lead` says which number was expected.
pub open spec fn msg_arg_count(lead: Seq<char>, n: nat, name: Seq<char>, got: nat) -> Seq<char> {
    lead + decimal(n) + " arguments for #"@ + name + ", got "@ + decimal(got)
}

/// The message for a capture where a literal must stand.
pub open spec fn msg_not_literal(i: nat, name: Seq<char>, capture: Seq<char>) -> Seq<char> {
    decimal(i) + ". argument to #"@ + name + " must be a literal, got capture @"@ + str_debug(
        capture,
    )
}

/// The message for a literal where a capture must stand.
pub open spec fn msg_not_capture(i: nat, name: Seq<char>, literal: Seq<char>) -> Seq<char> {
    decimal(i) + ". argument to #"@ + name + " expected a capture, got literal "@ + str_debug(
        literal,
    )
}

/// The message for a predicate that starts with a capture.
pub open spec fn msg_no_name(capture: Seq<char>) -> Seq<char> {
    "expected predicate to start with a function name. Got @"@ + capture + "."@
}

/// What a [`Predicate`] holds, as mathematical values: its name, the
/// steps of its arguments, and the query that it belongs to.
pub struct PredicateView {
    pub name: QueryStr,
    pub args: Seq<PredicateStep>,
    pub data: QueryDataView,
}

/// One predicate of a pattern: a name and arguments, which are captures or
/// string literals of the query.
#[derive(Debug, Clone, Copy)]
pub struct Predicate<'a> {
    pub name: QueryStr,
    args: &'a [PredicateStep],
    query: &'a QueryData,
}

impl<'a> View for Predicate<'a> {
    type V = PredicateView;

    closed spec fn view(&self) -> PredicateView {
        PredicateView { name: self.name, args: self.args@, data: self.query@ }
    }
}

impl<'a> Predicate<'a> {
    /// The name is a string of the query, and each argument a capture or a
    /// string of the query.
    pub open spec fn wf(&self) -> bool {
        &&& self@.name.0 < self@.data.strings.len()
        &&& forall|i: int|
            0 <= i < self@.args.len() ==> (#[trigger] self@.args[i]).kind
                != PredicateStepKind::Done && self@.data.step_wf(self@.args[i])
    }

    /// The predicate's name, as text.
    pub open spec fn spec_name(&self) -> Seq<char> {
        self@.data.string(self@.name)
    }

    /// The predicate that the steps of one predicate spell: the first step
    /// names it, the others are its arguments. A first step that is a
    /// capture is refused.
    pub fn new(query: &'a QueryData, predicate: &'a [PredicateStep]) -> (r: Result<
        Predicate<'a>,
        InvalidPredicateError,
    >)
        requires
            predicate@.len() > 0,
            forall|i: int|
                0 <= i < predicate@.len() ==> (#[trigger] predicate@[i]).kind
                    != PredicateStepKind::Done && query@.step_wf(predicate@[i]),
        ensures
            match r {
                Ok(p) => {
                    &&& predicate@[0].kind == PredicateStepKind::String
                    &&& p.wf()
                    &&& p@.data == query@
                    &&& p@.name == QueryStr(predicate@[0].value_id)
                    &&& p@.args == predicate@.subrange(1, predicate@.len() as int)
                },
                Err(e) => {
                    &&& predicate@[0].kind == PredicateStepKind::Capture
                    &&& e@ == InvalidPredicateView::Other {
                        msg: msg_no_name(query@.capture(Capture(predicate@[0].value_id))),
                    }
                },
            },
    {
        let first = predicate[0];
        match first.kind {
            PredicateStepKind::String => {},
            _ => {
                let mut msg = "expected predicate to start with a function name. Got @".to_owned();
                msg.append(query.capture_name(Capture(first.value_id)));
                msg.append(".");
                return Err(InvalidPredicateError::Other { msg });
            },
        }
        let args = vstd::slice::slice_subrange(predicate, 1, predicate.len());
        Ok(Predicate { name: QueryStr(first.value_id), args, query })
    }

    /// The predicate's name.
    pub fn name(&self) -> (s: &str)
        requires
            self.wf(),
        ensures
            s@ == self.spec_name(),
    {
        self.query.get_string(self.name)
    }

    fn arg_count_error(&self, lead: &str, n: usize) -> (e: InvalidPredicateError)
        requires
            self.wf(),
        ensures
            e@ == (InvalidPredicateView::Other {
                msg: msg_arg_count(
                    lead@,
                    n as nat,
                    self.spec_name(),
                    self@.args.len() as nat,
                ),
            }),
    {
        let mut msg = lead.to_owned();
        msg.append(decimal_string(n as u64).as_str());
        msg.append(" arguments for #");
        msg.append(self.name());
        msg.append(", got ");
        msg.append(decimal_string(self.args.len() as u64).as_str());
        InvalidPredicateError::Other { msg }
    }

    /// Accepts exactly `n` arguments.
    pub fn check_arg_count(&self, n: usize) -> (r: Result<(), InvalidPredicateError>)
        requires
            self.wf(),
        ensures
            match r {
                Ok(_) => self@.args.len() == n,
                Err(e) => self@.args.len() != n && e@ == (InvalidPredicateView::Other {
                    msg: msg_arg_count(
                        "expected "@,
                        n as nat,
                        self.spec_name(),
                        self@.args.len() as nat,
                    ),
                }),
            },
    {
        if self.args.len() == n {
            Ok(())
        } else {
            Err(self.arg_count_error("expected ", n))
        }
    }

    /// Accepts `n` arguments or more.
    pub fn check_min_arg_count(&self, n: usize) -> (r: Result<(), InvalidPredicateError>)
        requires
            self.wf(),
        ensures
            match r {
                Ok(_) => n <= self@.args.len(),
                Err(e) => n > self@.args.len() && e@ == (InvalidPredicateView::Other {
                    msg: msg_arg_count(
                        "expected at least "@,
                        n as nat,
                        self.spec_name(),
                        self@.args.len() as nat,
                    ),
                }),
            },
    {
        if n <= self.args.len() {
            Ok(())
        } else {
            Err(self.arg_count_error("expected at least ", n))
        }
    }

    /// Accepts `n` arguments or fewer.
    pub fn check_max_arg_count(&self, n: usize) -> (r: Result<(), InvalidPredicateError>)
        requires
            self.wf(),
        ensures
            match r {
                Ok(_) => self@.args.len() <= n,
                Err(e) => self@.args.len() > n && e@ == (InvalidPredicateView::Other {
                    msg: msg_arg_count(
                        "expected at most "@,
                        n as nat,
                        self.spec_name(),
                        self@.args.len() as nat,
                    ),
                }),
            },
    {
        if self.args.len() <= n {
            Ok(())
        } else {
            Err(self.arg_count_error("expected at most ", n))
        }
    }

    /// The number of arguments.
    pub fn num_args(&self) -> (n: usize)
        ensures
            n == self@.args.len(),
    {
        self.args.len()
    }

    /// Argument `i`.
    pub fn arg(&self, i: usize) -> (a: PredicateArg)
        requires
            self.wf(),
            i < self@.args.len(),
        ensures
            a == arg_of(self@.args[i as int]),
    {
        let step = self.args[i];
        match step.kind {
            PredicateStepKind::Capture => PredicateArg::Capture(Capture(step.value_id)),
            _ => PredicateArg::String(QueryStr(step.value_id)),
        }
    }

    /// All arguments, in order.
    pub fn args(&self) -> (all: Vec<PredicateArg>)
        requires
            self.wf(),
        ensures
            all@.len() == self@.args.len(),
            forall|i: int| 0 <= i < all@.len() ==> all@[i] == arg_of(self@.args[i]),
    {
        let mut all: Vec<PredicateArg> = Vec::new();
        let mut i: usize = 0;
        while i < self.args.len()
            invariant
                self.wf(),
                i <= self@.args.len(),
                all@.len() == i,
                forall|k: int| 0 <= k < i ==> all@[k] == arg_of(self@.args[k]),
            decreases self@.args.len() - i,
        {
            all.push(self.arg(i));
            i += 1;
        }
        all
    }

    /// Argument `i`, which must be a string literal.
    pub fn query_str_arg(&self, i: usize) -> (r: Result<QueryStr, InvalidPredicateError>)
        requires
            self.wf(),
            i < self@.args.len(),
        ensures
            match r {
                Ok(s) => self@.args[i as int].kind == PredicateStepKind::String && s
                    == QueryStr(self@.args[i as int].value_id),
                Err(e) => self@.args[i as int].kind == PredicateStepKind::Capture && e@ == (
                InvalidPredicateView::Other {
                    msg: msg_not_literal(
                        i as nat,
                        self.spec_name(),
                        self@.data.capture(Capture(self@.args[i as int].value_id)),
                    ),
                }),
            },
    {
        match self.arg(i) {
            PredicateArg::String(str) => Ok(str),
            PredicateArg::Capture(capture) => {
                let mut msg = decimal_string(i as u64);
                msg.append(". argument to #");
                msg.append(self.name());
                msg.append(" must be a literal, got capture @");
                msg.append(debug_quoted(self.query.capture_name(capture)).as_str());
                Err(InvalidPredicateError::Other { msg })
            },
        }
    }

    /// The text of argument `i`, which must be a string literal.
    pub fn str_arg(&self, i: usize) -> (r: Result<&'a str, InvalidPredicateError>)
        requires
            self.wf(),
            i < self@.args.len(),
        ensures
            match r {
                Ok(s) => self@.args[i as int].kind == PredicateStepKind::String && s@
                    == self@.data.string(QueryStr(self@.args[i as int].value_id)),
                Err(e) => self@.args[i as int].kind == PredicateStepKind::Capture && e@ == (
                InvalidPredicateView::Other {
                    msg: msg_not_literal(
                        i as nat,
                        self.spec_name(),
                        self@.data.capture(Capture(self@.args[i as int].value_id)),
                    ),
                }),
            },
    {
        match self.query_str_arg(i) {
            Ok(str) => Ok(self.query.get_string(str)),
            Err(e) => Err(e),
        }
    }

    /// Argument `i`, which must be a capture.
    pub fn capture_arg(&self, i: usize) -> (r: Result<Capture, InvalidPredicateError>)
        requires
            self.wf(),
            i < self@.args.len(),
        ensures
            match r {
                Ok(c) => self@.args[i as int].kind == PredicateStepKind::Capture && c
                    == Capture(self@.args[i as int].value_id),
                Err(e) => self@.args[i as int].kind == PredicateStepKind::String && e@ == (
                InvalidPredicateView::Other {
                    msg: msg_not_capture(
                        i as nat,
                        self.spec_name(),
                        self@.data.string(QueryStr(self@.args[i as int].value_id)),
                    ),
                }),
            },
    {
        match self.arg(i) {
            PredicateArg::Capture(capture) => Ok(capture),
            PredicateArg::String(str) => {
                let mut msg = decimal_string(i as u64);
                msg.append(". argument to #");
                msg.append(self.name());
                msg.append(" expected a capture, got literal ");
                msg.append(debug_quoted(self.query.get_string(str)).as_str());
                Err(InvalidPredicateError::Other { msg })
            },
        }
    }
}

} // verus!
