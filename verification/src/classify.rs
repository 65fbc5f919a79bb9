//! From the steps of one predicate to what the predicate is: a text
//! predicate that the query tests itself, a predicate for the user, or an
//! invalid predicate.

use vstd::prelude::*;
use crate::predicate::{
    msg_arg_count, msg_no_name, msg_not_capture, msg_not_literal, InvalidPredicateError,
    InvalidPredicateView, Predicate, PredicateArg, PredicateStep, PredicateStepKind,
    PredicateView,
};
use crate::query::{Capture, QueryData, QueryDataView, QueryStr};
use crate::regex::{build_regex, regex_build};
use crate::text::str_eq;
use crate::text_predicate::{
    TextPredicate, TextPredicateKind, TextPredicateKindView, TextPredicateView,
};
use crate::user_predicate::{texts, UserPredicate, UserPredicateView};

verus! {

/// What the steps of one predicate amount to.
pub enum Classified {
    /// A text predicate.
    Text(TextPredicateView),
    /// A predicate that is handed to the user.
    User(UserPredicateView),
    /// No valid predicate, and the message that says why.
    Invalid(Seq<char>),
}

/// A predicate of a pattern, parsed.
#[derive(Debug)]
pub enum ParsedPredicate<'a> {
    /// A text predicate.
    Text(TextPredicate),
    /// A predicate that is handed to the user.
    User(UserPredicate<'a>),
}

impl<'a> ParsedPredicate<'a> {
    /// What the parsed predicate is, as mathematical values.
    pub open spec fn classified(&self) -> Classified {
        match self {
            ParsedPredicate::Text(t) => Classified::Text(t@),
            ParsedPredicate::User(u) => Classified::User(u@),
        }
    }
}

/// The names that compare a capture's text with a string or a capture.
pub open spec fn is_eq_name(name: Seq<char>) -> bool {
    name == "eq?"@ || name == "not-eq?"@ || name == "any-eq?"@ || name == "any-not-eq?"@
}

/// The names that match a capture's text against a regex.
pub open spec fn is_match_name(name: Seq<char>) -> bool {
    name == "match?"@ || name == "not-match?"@ || name == "any-match?"@ || name
        == "any-not-match?"@
}

/// The names that look for a text among string literals.
pub open spec fn is_any_of_name(name: Seq<char>) -> bool {
    name == "any-of?"@ || name == "not-any-of?"@
}

/// The names whose test passes where the comparison fails.
pub open spec fn name_negated(name: Seq<char>) -> bool {
    name == "not-eq?"@ || name == "any-not-eq?"@ || name == "not-match?"@ || name
        == "any-not-match?"@ || name == "not-any-of?"@
}

/// The names whose test every captured node must pass.
pub open spec fn name_match_all(name: Seq<char>) -> bool {
    name == "eq?"@ || name == "not-eq?"@ || name == "match?"@ || name == "not-match?"@
}

/// The message for a regex that cannot be compiled.
pub open spec fn msg_invalid_regex(pattern: Seq<char>, error: Seq<char>) -> Seq<char> {
    "invalid regex '"@ + pattern + "', "@ + error
}

/// Argument `i` as a capture, or the message that refuses a literal there.
pub open spec fn capture_arg_of(
    data: QueryDataView,
    name: Seq<char>,
    args: Seq<PredicateStep>,
    i: int,
) -> Result<Capture, Seq<char>> {
    if args[i].kind == PredicateStepKind::Capture {
        Ok(Capture(args[i].value_id))
    } else {
        Err(msg_not_capture(i as nat, name, data.string(QueryStr(args[i].value_id))))
    }
}

/// Argument `i` as a string literal, or the message that refuses a capture
/// there.
pub open spec fn str_arg_of(
    data: QueryDataView,
    name: Seq<char>,
    args: Seq<PredicateStep>,
    i: int,
) -> Result<QueryStr, Seq<char>> {
    if args[i].kind == PredicateStepKind::Capture {
        Err(msg_not_literal(i as nat, name, data.capture(Capture(args[i].value_id))))
    } else {
        Ok(QueryStr(args[i].value_id))
    }
}

/// The arguments from `from` on as string literals, or the message that
/// refuses the first capture among them.
pub open spec fn str_args_from(
    data: QueryDataView,
    name: Seq<char>,
    args: Seq<PredicateStep>,
    from: int,
) -> Result<Seq<QueryStr>, Seq<char>>
    decreases args.len() - from,
{
    if from >= args.len() {
        Ok(Seq::empty())
    } else {
        match str_arg_of(data, name, args, from) {
            Err(m) => Err(m),
            Ok(s) => match str_args_from(data, name, args, from + 1) {
                Err(m) => Err(m),
                Ok(rest) => Ok(seq![s] + rest),
            },
        }
    }
}

/// The texts of string literals.
pub open spec fn strings_of(data: QueryDataView, ids: Seq<QueryStr>) -> Seq<Seq<char>> {
    Seq::new(ids.len(), |i: int| data.string(ids[i]))
}

/// A key and an optional value, both string literals.
pub struct QueryProperty {
    pub key: QueryStr,
    pub val: Option<QueryStr>,
}

/// The property that one or two string arguments spell, or the message that
/// refuses the arguments.
pub open spec fn property_of(data: QueryDataView, name: Seq<char>, args: Seq<PredicateStep>) -> Result<
    QueryProperty,
    Seq<char>,
> {
    if args.len() < 1 {
        Err(msg_arg_count("expected at least "@, 1, name, args.len()))
    } else if args.len() > 2 {
        Err(msg_arg_count("expected at most "@, 2, name, args.len()))
    } else {
        match str_arg_of(data, name, args, 0) {
            Err(m) => Err(m),
            Ok(key) => if args.len() == 2 {
                match str_arg_of(data, name, args, 1) {
                    Err(m) => Err(m),
                    Ok(val) => Ok(QueryProperty { key, val: Some(val) }),
                }
            } else {
                Ok(QueryProperty { key, val: None })
            },
        }
    }
}

/// The text of an optional string literal.
pub open spec fn opt_string(data: QueryDataView, s: Option<QueryStr>) -> Option<Seq<char>> {
    match s {
        Some(s) => Some(data.string(s)),
        None => None,
    }
}

/// `eq?` and its variants: a capture, then a capture or a string literal.
pub open spec fn classify_eq(data: QueryDataView, name: Seq<char>, args: Seq<PredicateStep>) -> Classified {
    if args.len() != 2 {
        Classified::Invalid(msg_arg_count("expected "@, 2, name, args.len()))
    } else {
        match capture_arg_of(data, name, args, 0) {
            Err(m) => Classified::Invalid(m),
            Ok(capture) => Classified::Text(
                TextPredicateView {
                    capture,
                    kind: if args[1].kind == PredicateStepKind::Capture {
                        TextPredicateKindView::EqCapture(Capture(args[1].value_id))
                    } else {
                        TextPredicateKindView::EqString(QueryStr(args[1].value_id))
                    },
                    negated: name_negated(name),
                    match_all: name_match_all(name),
                },
            ),
        }
    }
}

/// `match?` and its variants: a capture, then a string literal that
/// compiles as a regex.
pub open spec fn classify_match(data: QueryDataView, name: Seq<char>, args: Seq<PredicateStep>) -> Classified {
    if args.len() != 2 {
        Classified::Invalid(msg_arg_count("expected "@, 2, name, args.len()))
    } else {
        match capture_arg_of(data, name, args, 0) {
            Err(m) => Classified::Invalid(m),
            Ok(capture) => match str_arg_of(data, name, args, 1) {
                Err(m) => Classified::Invalid(m),
                Ok(s) => match regex_build(data.string(s)) {
                    Err(e) => Classified::Invalid(msg_invalid_regex(data.string(s), e)),
                    Ok(regex) => Classified::Text(
                        TextPredicateView {
                            capture,
                            kind: TextPredicateKindView::MatchString(regex),
                            negated: name_negated(name),
                            match_all: name_match_all(name),
                        },
                    ),
                },
            },
        }
    }
}

/// `set!`, `is?` and `is-not?`: a key and an optional value, for the user.
pub open spec fn classify_property(data: QueryDataView, name: Seq<char>, args: Seq<PredicateStep>) -> Classified {
    match property_of(data, name, args) {
        Err(m) => Classified::Invalid(m),
        Ok(p) => Classified::User(
            if name == "set!"@ {
                UserPredicateView::SetProperty {
                    key: data.string(p.key),
                    val: opt_string(data, p.val),
                }
            } else {
                UserPredicateView::IsPropertySet {
                    negate: name == "is-not?"@,
                    key: data.string(p.key),
                    val: opt_string(data, p.val),
                }
            },
        ),
    }
}

/// `any-of?` and `not-any-of?`: on a capture a text predicate, on a string
/// literal a predicate for the user; the other arguments are string
/// literals.
pub open spec fn classify_any_of(data: QueryDataView, name: Seq<char>, args: Seq<PredicateStep>) -> Classified {
    if args.len() < 1 {
        Classified::Invalid(msg_arg_count("expected at least "@, 1, name, args.len()))
    } else {
        match str_args_from(data, name, args, 1) {
            Err(m) => Classified::Invalid(m),
            Ok(values) => if args[0].kind == PredicateStepKind::Capture {
                Classified::Text(
                    TextPredicateView {
                        capture: Capture(args[0].value_id),
                        kind: TextPredicateKindView::AnyString(values),
                        negated: name == "not-any-of?"@,
                        match_all: false,
                    },
                )
            } else {
                Classified::User(
                    UserPredicateView::IsAnyOf {
                        negated: name == "not-any-of?"@,
                        value: data.string(QueryStr(args[0].value_id)),
                        values: strings_of(data, values),
                    },
                )
            },
        }
    }
}

/// What the steps of one predicate amount to: the first step names the
/// predicate, the others are its arguments.
pub open spec fn classify(data: QueryDataView, steps: Seq<PredicateStep>) -> Classified {
    if steps[0].kind != PredicateStepKind::String {
        Classified::Invalid(msg_no_name(data.capture(Capture(steps[0].value_id))))
    } else {
        let name = data.string(QueryStr(steps[0].value_id));
        let args = steps.subrange(1, steps.len() as int);
        if is_eq_name(name) {
            classify_eq(data, name, args)
        } else if is_match_name(name) {
            classify_match(data, name, args)
        } else if name == "set!"@ || name == "is?"@ || name == "is-not?"@ {
            classify_property(data, name, args)
        } else if is_any_of_name(name) {
            classify_any_of(data, name, args)
        } else {
            Classified::User(
                UserPredicateView::Other(
                    PredicateView { name: QueryStr(steps[0].value_id), args, data },
                ),
            )
        }
    }
}

/// The predicates among steps: the runs of steps between `Done` steps that
/// are not empty, in order. The steps before `at` belong to the run that
/// started at `start`.
pub open spec fn groups_scan(steps: Seq<PredicateStep>, start: int, at: int) -> Seq<
    Seq<PredicateStep>,
>
    decreases steps.len() - at,
{
    let run = if start < at {
        seq![steps.subrange(start, at)]
    } else {
        Seq::empty()
    };
    if at >= steps.len() {
        run
    } else if steps[at].kind == PredicateStepKind::Done {
        run + groups_scan(steps, at + 1, at + 1)
    } else {
        groups_scan(steps, start, at + 1)
    }
}

/// The predicates that the steps of a pattern spell.
pub open spec fn groups(steps: Seq<PredicateStep>) -> Seq<Seq<PredicateStep>> {
    groups_scan(steps, 0, 0)
}

/// No step of the range ends a predicate.
pub open spec fn no_done(steps: Seq<PredicateStep>, from: int, to: int) -> bool {
    forall|k: int| from <= k < to ==> (#[trigger] steps[k]).kind != PredicateStepKind::Done
}

/// Where in its pattern's steps each predicate lies.
pub fn group_ranges(steps: &[PredicateStep]) -> (ranges: Vec<(usize, usize)>)
    ensures
        ranges@.len() == groups(steps@).len(),
        ranges@.len() <= steps@.len(),
        forall|i: int|
            0 <= i < ranges@.len() ==> {
                &&& (#[trigger] ranges@[i]).0 < ranges@[i].1 <= steps@.len()
                &&& no_done(steps@, ranges@[i].0 as int, ranges@[i].1 as int)
                &&& steps@.subrange(ranges@[i].0 as int, ranges@[i].1 as int) == groups(steps@)[i]
            },
{
    let n = steps.len();
    let mut ranges: Vec<(usize, usize)> = Vec::new();
    let ghost mut done: Seq<Seq<PredicateStep>> = Seq::empty();
    let mut start: usize = 0;
    let mut at: usize = 0;
    proof {
        assert(done + groups_scan(steps@, 0, 0) =~= groups(steps@));
    }
    loop
        invariant
            n == steps@.len(),
            start <= at <= n,
            no_done(steps@, start as int, at as int),
            groups(steps@) == done + groups_scan(steps@, start as int, at as int),
            ranges@.len() == done.len(),
            ranges@.len() <= start,
            forall|i: int|
                0 <= i < ranges@.len() ==> {
                    &&& (#[trigger] ranges@[i]).0 < ranges@[i].1 <= steps@.len()
                    &&& no_done(steps@, ranges@[i].0 as int, ranges@[i].1 as int)
                    &&& steps@.subrange(ranges@[i].0 as int, ranges@[i].1 as int) == done[i]
                },
        decreases n - at,
    {
        let at_end = at == n;
        if at_end || steps[at].kind == PredicateStepKind::Done {
            if start < at {
                proof {
                    done = done.push(steps@.subrange(start as int, at as int));
                }
                ranges.push((start, at));
            }
            if at_end {
                proof {
                    assert(groups(steps@) =~= done);
                }
                return ranges;
            }
            proof {
                assert(done + groups_scan(steps@, at + 1, at + 1) =~= groups(steps@));
            }
            start = at + 1;
        }
        at += 1;
    }
}

/// What each of a pattern's predicates amounts to, in order.
pub open spec fn pattern_classified(data: QueryDataView, pattern: int) -> Seq<Classified> {
    let g = groups(data.predicate_steps[pattern]);
    Seq::new(g.len(), |i: int| classify(data, g[i]))
}

/// The text predicates among classified predicates, in order.
pub open spec fn texts_of(all: Seq<Classified>) -> Seq<TextPredicateView>
    decreases all.len(),
{
    if all.len() == 0 {
        Seq::empty()
    } else {
        match all.last() {
            Classified::Text(t) => texts_of(all.drop_last()).push(t),
            _ => texts_of(all.drop_last()),
        }
    }
}

/// The text predicates of the patterns before `pattern`, in order.
pub open spec fn texts_before(data: QueryDataView, pattern: int) -> Seq<TextPredicateView>
    decreases pattern,
{
    if pattern <= 0 {
        Seq::empty()
    } else {
        texts_before(data, pattern - 1) + texts_of(pattern_classified(data, pattern - 1))
    }
}

/// The number of predicate steps of the patterns before `pattern`.
pub open spec fn steps_before(data: QueryDataView, pattern: int) -> int
    decreases pattern,
{
    if pattern <= 0 {
        0
    } else {
        steps_before(data, pattern - 1) + data.predicate_steps[pattern - 1].len()
    }
}

/// The captures and strings that a text predicate names are the query's.
pub open spec fn text_predicate_wf(data: QueryDataView, t: TextPredicateView) -> bool {
    &&& t.capture.0 < data.capture_names.len()
    &&& match t.kind {
        TextPredicateKindView::EqString(s) => s.0 < data.strings.len(),
        TextPredicateKindView::EqCapture(c) => c.0 < data.capture_names.len(),
        TextPredicateKindView::MatchString(_) => true,
        TextPredicateKindView::AnyString(ids) => forall|i: int|
            0 <= i < ids.len() ==> (#[trigger] ids[i]).0 < data.strings.len(),
    }
}

/// The message of an error that holds only a message.
pub open spec fn other_error(msg: Seq<char>) -> InvalidPredicateView {
    InvalidPredicateView::Other { msg }
}

impl QueryProperty {
    /// The property that the arguments of a predicate spell.
    pub fn parse(predicate: &Predicate) -> (r: Result<QueryProperty, InvalidPredicateError>)
        requires
            predicate.wf(),
        ensures
            match r {
                Ok(p) => property_of(predicate@.data, predicate.spec_name(), predicate@.args)
                    == Ok::<QueryProperty, Seq<char>>(p),
                Err(e) => match property_of(
                    predicate@.data,
                    predicate.spec_name(),
                    predicate@.args,
                ) {
                    Err(m) => e@ == other_error(m),
                    Ok(_) => false,
                },
            },
    {
        match predicate.check_min_arg_count(1) {
            Err(e) => {
                return Err(e);
            },
            Ok(_) => {},
        }
        match predicate.check_max_arg_count(2) {
            Err(e) => {
                return Err(e);
            },
            Ok(_) => {},
        }
        let key = match predicate.query_str_arg(0) {
            Err(e) => {
                return Err(e);
            },
            Ok(key) => key,
        };
        let val = if predicate.num_args() == 2 {
            match predicate.query_str_arg(1) {
                Err(e) => {
                    return Err(e);
                },
                Ok(val) => Some(val),
            }
        } else {
            None
        };
        Ok(QueryProperty { key, val })
    }
}

fn str_args(predicate: &Predicate) -> (r: Result<Vec<QueryStr>, InvalidPredicateError>)
    requires
        predicate.wf(),
        predicate@.args.len() >= 1,
    ensures
        match r {
            Ok(v) => str_args_from(predicate@.data, predicate.spec_name(), predicate@.args, 1)
                == Ok::<Seq<QueryStr>, Seq<char>>(v@),
            Err(e) => match str_args_from(
                predicate@.data,
                predicate.spec_name(),
                predicate@.args,
                1,
            ) {
                Err(m) => e@ == other_error(m),
                Ok(_) => false,
            },
        },
{
    let ghost data = predicate@.data;
    let ghost name = predicate.spec_name();
    let ghost args = predicate@.args;
    let n = predicate.num_args();
    let mut values: Vec<QueryStr> = Vec::new();
    let mut i: usize = 1;
    assert(Seq::<QueryStr>::empty() + str_args_from(data, name, args, 1)->Ok_0
        =~= str_args_from(data, name, args, 1)->Ok_0);
    while i < n
        invariant
            predicate.wf(),
            data == predicate@.data,
            name == predicate.spec_name(),
            args == predicate@.args,
            n == args.len(),
            1 <= i <= n,
            str_args_from(data, name, args, 1) == match str_args_from(data, name, args, i as int) {
                Err(m) => Err::<Seq<QueryStr>, Seq<char>>(m),
                Ok(rest) => Ok(values@ + rest),
            },
        decreases n - i,
    {
        match predicate.query_str_arg(i) {
            Err(e) => {
                return Err(e);
            },
            Ok(s) => {
                proof {
                    let rest = str_args_from(data, name, args, i + 1);
                    if rest is Ok {
                        assert(values@ + (seq![s] + rest->Ok_0) =~= values@.push(s) + rest->Ok_0);
                    }
                }
                values.push(s);
            },
        }
        i += 1;
    }
    assert(values@ + Seq::<QueryStr>::empty() =~= values@);
    Ok(values)
}

fn strings<'a>(data: &'a QueryData, ids: &Vec<QueryStr>) -> (r: Vec<&'a str>)
    requires
        forall|i: int| 0 <= i < ids@.len() ==> (#[trigger] ids@[i]).0 < data@.strings.len(),
    ensures
        texts(r@) == strings_of(data@, ids@),
{
    let mut r: Vec<&'a str> = Vec::new();
    let mut i: usize = 0;
    while i < ids.len()
        invariant
            i <= ids@.len(),
            r@.len() == i,
            forall|k: int| 0 <= k < ids@.len() ==> (#[trigger] ids@[k]).0 < data@.strings.len(),
            forall|k: int| 0 <= k < i ==> (#[trigger] r@[k])@ == data@.string(ids@[k]),
        decreases ids@.len() - i,
    {
        r.push(data.get_string(ids[i]));
        i += 1;
    }
    assert(texts(r@) =~= strings_of(data@, ids@));
    r
}

/// The string arguments name strings of the query.
proof fn lemma_str_args_wf(data: QueryDataView, name: Seq<char>, args: Seq<PredicateStep>, from: int)
    requires
        0 <= from,
        forall|i: int| 0 <= i < args.len() ==> data.step_wf(#[trigger] args[i]),
        forall|i: int| 0 <= i < args.len() ==> (#[trigger] args[i]).kind != PredicateStepKind::Done,
        str_args_from(data, name, args, from) is Ok,
    ensures
        forall|k: int|
            0 <= k < str_args_from(data, name, args, from)->Ok_0.len() ==> (
            #[trigger] str_args_from(data, name, args, from)->Ok_0[k]).0 < data.strings.len(),
    decreases args.len() - from,
{
    if from < args.len() {
        lemma_str_args_wf(data, name, args, from + 1);
        assert(data.step_wf(args[from]));
    }
}

/// Parses the steps of one predicate: the first step names the predicate,
/// the others are its arguments.
pub fn parse_predicate<'a>(data: &'a QueryData, steps: &'a [PredicateStep]) -> (r: Result<
    ParsedPredicate<'a>,
    InvalidPredicateError,
>)
    requires
        steps@.len() > 0,
        forall|i: int|
            0 <= i < steps@.len() ==> (#[trigger] steps@[i]).kind != PredicateStepKind::Done
                && data@.step_wf(steps@[i]),
    ensures
        match r {
            Ok(p) => classify(data@, steps@) == p.classified(),
            Err(e) => match classify(data@, steps@) {
                Classified::Invalid(m) => e@ == other_error(m),
                _ => false,
            },
        },
        match r {
            Ok(ParsedPredicate::Text(t)) => text_predicate_wf(data@, t@),
            Ok(ParsedPredicate::User(u)) => u.wf(),
            _ => true,
        },
{
    let predicate = match Predicate::new(data, steps) {
        Err(e) => {
            return Err(e);
        },
        Ok(p) => p,
    };
    let name = predicate.name();
    let not_eq = str_eq(name, "not-eq?");
    let any_not_eq = str_eq(name, "any-not-eq?");
    let not_match = str_eq(name, "not-match?");
    let any_not_match = str_eq(name, "any-not-match?");
    let not_any_of = str_eq(name, "not-any-of?");
    let eq = str_eq(name, "eq?");
    let matches = str_eq(name, "match?");
    let negated = not_eq || any_not_eq || not_match || any_not_match || not_any_of;
    let match_all = eq || not_eq || matches || not_match;
    if eq || not_eq || str_eq(name, "any-eq?") || any_not_eq {
        match predicate.check_arg_count(2) {
            Err(e) => {
                return Err(e);
            },
            Ok(_) => {},
        }
        let capture = match predicate.capture_arg(0) {
            Err(e) => {
                return Err(e);
            },
            Ok(c) => c,
        };
        let kind = match predicate.arg(1) {
            PredicateArg::Capture(c) => TextPredicateKind::EqCapture(c),
            PredicateArg::String(s) => TextPredicateKind::EqString(s),
        };
        Ok(ParsedPredicate::Text(TextPredicate { capture, kind, negated, match_all }))
    } else if matches || not_match || str_eq(name, "any-match?") || any_not_match {
        match predicate.check_arg_count(2) {
            Err(e) => {
                return Err(e);
            },
            Ok(_) => {},
        }
        let capture = match predicate.capture_arg(0) {
            Err(e) => {
                return Err(e);
            },
            Ok(c) => c,
        };
        let pattern = match predicate.str_arg(1) {
            Err(e) => {
                return Err(e);
            },
            Ok(s) => s,
        };
        match build_regex(pattern) {
            Ok(regex) => Ok(
                ParsedPredicate::Text(
                    TextPredicate {
                        capture,
                        kind: TextPredicateKind::MatchString(regex),
                        negated,
                        match_all,
                    },
                ),
            ),
            Err(err) => {
                let mut msg = "invalid regex '".to_owned();
                msg.append(pattern);
                msg.append("', ");
                msg.append(err.as_str());
                Err(InvalidPredicateError::Other { msg })
            },
        }
    } else if str_eq(name, "set!") {
        match QueryProperty::parse(&predicate) {
            Err(e) => Err(e),
            Ok(property) => Ok(
                ParsedPredicate::User(
                    UserPredicate::SetProperty {
                        key: data.get_string(property.key),
                        val: match property.val {
                            Some(val) => Some(data.get_string(val)),
                            None => None,
                        },
                    },
                ),
            ),
        }
    } else if str_eq(name, "is?") || str_eq(name, "is-not?") {
        match QueryProperty::parse(&predicate) {
            Err(e) => Err(e),
            Ok(property) => Ok(
                ParsedPredicate::User(
                    UserPredicate::IsPropertySet {
                        negate: str_eq(name, "is-not?"),
                        key: data.get_string(property.key),
                        val: match property.val {
                            Some(val) => Some(data.get_string(val)),
                            None => None,
                        },
                    },
                ),
            ),
        }
    } else if str_eq(name, "any-of?") || not_any_of {
        match predicate.check_min_arg_count(1) {
            Err(e) => {
                return Err(e);
            },
            Ok(_) => {},
        }
        let values = match str_args(&predicate) {
            Err(e) => {
                return Err(e);
            },
            Ok(v) => v,
        };
        proof {
            lemma_str_args_wf(data@, predicate.spec_name(), predicate@.args, 1);
        }
        match predicate.arg(0) {
            PredicateArg::Capture(capture) => Ok(
                ParsedPredicate::Text(
                    TextPredicate {
                        capture,
                        kind: TextPredicateKind::AnyString(values),
                        negated: not_any_of,
                        match_all: false,
                    },
                ),
            ),
            PredicateArg::String(value) => {
                Ok(
                    ParsedPredicate::User(
                        UserPredicate::IsAnyOf {
                            negated: not_any_of,
                            value: data.get_string(value),
                            values: strings(data, &values),
                        },
                    ),
                )
            },
        }
    } else {
        Ok(ParsedPredicate::User(UserPredicate::Other(predicate)))
    }
}

} // verus!
