//! From the predicate steps of a query's patterns to its text predicates,
//! with the user's say on the predicates that are left to the user.

use vstd::prelude::*;
use vstd::utf8::is_char_boundary;
use crate::classify::{
    classify, group_ranges, groups, no_done, parse_predicate, pattern_classified, steps_before,
    text_predicate_wf, texts_of, Classified, ParsedPredicate,
};
use crate::parse_error::{locatable, predicate_error, ParseErrorView};
use crate::predicate::{InvalidPredicateError, InvalidPredicateView, PredicateStepKind};
use crate::query::{Pattern, PatternData, Query, QueryData, QueryDataView};
use crate::text_predicate::{TextPredicate, TextPredicateView};
use crate::user_predicate::{UserPredicate, UserPredicateView};

verus! {

/// Whether the user accepts a predicate of a pattern: a text predicate
/// needs no acceptance, an invalid predicate gets none, and a predicate for
/// the user is accepted where the callback can return `Ok` on it.
pub open spec fn accepted<F: Fn(Pattern, UserPredicate) -> Result<(), InvalidPredicateError>>(
    f: F,
    pattern: Pattern,
    c: Classified,
) -> bool {
    match c {
        Classified::Text(_) => true,
        Classified::Invalid(_) => false,
        Classified::User(u) => exists|up: UserPredicate, r: Result<(), InvalidPredicateError>|
            up@ == u && r is Ok && #[trigger] call_ensures(f, (pattern, up), r),
    }
}

/// Whether a predicate of a pattern is refused with `e`: an invalid
/// predicate with its message, a predicate for the user where the callback
/// can return `e` on it.
pub open spec fn rejected_with<F: Fn(Pattern, UserPredicate) -> Result<(), InvalidPredicateError>>(
    f: F,
    pattern: Pattern,
    c: Classified,
    e: InvalidPredicateError,
) -> bool {
    match c {
        Classified::Text(_) => false,
        Classified::Invalid(m) => e@ == (InvalidPredicateView::Other { msg: m }),
        Classified::User(u) => exists|up: UserPredicate|
            up@ == u && #[trigger] call_ensures(
                f,
                (pattern, up),
                Err::<(), InvalidPredicateError>(e),
            ),
    }
}

/// Every predicate of the pattern is accepted.
pub open spec fn pattern_accepted<F: Fn(Pattern, UserPredicate) -> Result<(), InvalidPredicateError>>(
    f: F,
    data: QueryDataView,
    pattern: int,
) -> bool {
    forall|j: int|
        0 <= j < pattern_classified(data, pattern).len() ==> accepted(
            f,
            Pattern(pattern as u32),
            #[trigger] pattern_classified(data, pattern)[j],
        )
}

/// The first predicate of the pattern that is not accepted is refused with
/// `e`.
pub open spec fn pattern_rejected<F: Fn(Pattern, UserPredicate) -> Result<(), InvalidPredicateError>>(
    f: F,
    data: QueryDataView,
    pattern: int,
    e: InvalidPredicateError,
) -> bool {
    exists|j: int|
        {
            &&& 0 <= j < pattern_classified(data, pattern).len()
            &&& forall|k: int|
                0 <= k < j ==> accepted(
                    f,
                    Pattern(pattern as u32),
                    #[trigger] pattern_classified(data, pattern)[k],
                )
            &&& rejected_with(
                f,
                Pattern(pattern as u32),
                #[trigger] pattern_classified(data, pattern)[j],
                e,
            )
        }
}

/// The user takes every predicate that is one of its query, and each of
/// the user's refusals can be located in the source: see [`locatable`].
pub open spec fn callback_fits<F: Fn(Pattern, UserPredicate) -> Result<(), InvalidPredicateError>>(
    f: F,
    data: QueryDataView,
    bytes: Seq<u8>,
) -> bool {
    &&& forall|p: Pattern, u: UserPredicate| u.wf() ==> call_requires(f, (p, u))
    &&& forall|p: Pattern, u: UserPredicate, e: InvalidPredicateError|
        p.0 < data.pattern_starts.len() && #[trigger] call_ensures(
            f,
            (p, u),
            Err::<(), InvalidPredicateError>(e),
        ) ==> locatable(bytes, data.pattern_starts[p.0 as int] as int, e@)
}

/// Each pattern starts between characters of the source, if it starts
/// within the source.
pub open spec fn patterns_located(data: QueryDataView, bytes: Seq<u8>) -> bool {
    forall|p: int|
        0 <= p < data.pattern_starts.len() && (#[trigger] data.pattern_starts[p]) <= bytes.len()
            ==> is_char_boundary(bytes, data.pattern_starts[p] as int)
}

/// Every predicate of every pattern is accepted.
pub open spec fn all_accepted<F: Fn(Pattern, UserPredicate) -> Result<(), InvalidPredicateError>>(
    f: F,
    data: QueryDataView,
) -> bool {
    forall|p: int| 0 <= p < data.pattern_starts.len() ==> #[trigger] pattern_accepted(f, data, p)
}

/// Compiling ends with `e`: the predicates of the patterns before some
/// pattern are accepted, and `e` is the error for the refusal of the first
/// predicate of that pattern that is not accepted.
pub open spec fn compilation_refused<F: Fn(Pattern, UserPredicate) -> Result<
    (),
    InvalidPredicateError,
>>(f: F, data: QueryDataView, bytes: Seq<u8>, e: ParseErrorView) -> bool {
    exists|p: int, refusal: InvalidPredicateError|
        {
            &&& 0 <= p < data.pattern_starts.len()
            &&& forall|k: int| 0 <= k < p ==> #[trigger] pattern_accepted(f, data, k)
            &&& #[trigger] pattern_rejected(f, data, p, refusal)
            &&& e == predicate_error(bytes, data.pattern_starts[p] as int, refusal@)
        }
}

/// The views of a list of text predicates.
pub open spec fn text_views(v: Seq<TextPredicate>) -> Seq<TextPredicateView> {
    Seq::new(v.len(), |i: int| v[i]@)
}

/// The predicates for the user among classified predicates, in order.
pub open spec fn users_of(all: Seq<Classified>) -> Seq<UserPredicateView>
    decreases all.len(),
{
    if all.len() == 0 {
        Seq::empty()
    } else {
        match all.last() {
            Classified::User(u) => users_of(all.drop_last()).push(u),
            _ => users_of(all.drop_last()),
        }
    }
}

/// The views of a list of user predicates.
pub open spec fn user_views(v: Seq<UserPredicate>) -> Seq<UserPredicateView> {
    Seq::new(v.len(), |i: int| v[i]@)
}

/// The user predicates among steps grow with the steps.
pub proof fn lemma_users_of_push(all: Seq<Classified>, c: Classified)
    ensures
        users_of(all.push(c)) == match c {
            Classified::User(u) => users_of(all).push(u),
            _ => users_of(all),
        },
{
    assert(all.push(c).drop_last() =~= all);
}

/// The text predicates among steps grow with the steps.
pub proof fn lemma_texts_of_push(all: Seq<Classified>, c: Classified)
    ensures
        texts_of(all.push(c)) == match c {
            Classified::Text(t) => texts_of(all).push(t),
            _ => texts_of(all),
        },
{
    assert(all.push(c).drop_last() =~= all);
}

impl Query {
    /// Parses the predicates of one pattern. Text predicates are added to
    /// `text_predicates`; the others are handed to `custom_predicate`, which
    /// may refuse them. The first predicate that is invalid or refused ends
    /// the parse with its error.
    pub fn parse_pattern_predicates<F: Fn(Pattern, UserPredicate) -> Result<
        (),
        InvalidPredicateError,
    >>(
        data: &QueryData,
        text_predicates: &mut Vec<TextPredicate>,
        pattern: Pattern,
        custom_predicate: &F,
    ) -> (r: Result<PatternData, InvalidPredicateError>)
        requires
            data@.wf(),
            pattern.0 < data@.predicate_steps.len(),
            old(text_predicates)@.len() + data@.predicate_steps[pattern.0 as int].len()
                <= u32::MAX,
            forall|i: int|
                0 <= i < old(text_predicates)@.len() ==> text_predicate_wf(
                    data@,
                    (#[trigger] old(text_predicates)@[i])@,
                ),
            forall|p: Pattern, u: UserPredicate| u.wf() ==> call_requires(*custom_predicate, (p, u)),
        ensures
            forall|i: int|
                0 <= i < final(text_predicates)@.len() ==> text_predicate_wf(
                    data@,
                    (#[trigger] final(text_predicates)@[i])@,
                ),
            final(text_predicates)@.len() <= old(text_predicates)@.len()
                + data@.predicate_steps[pattern.0 as int].len(),
            match r {
                Ok(pd) => {
                    &&& text_views(final(text_predicates)@) == text_views(old(text_predicates)@)
                        + texts_of(pattern_classified(data@, pattern.0 as int))
                    &&& pd.text_predicates.start == old(text_predicates)@.len()
                    &&& pd.text_predicates.end == final(text_predicates)@.len()
                    &&& pattern_accepted(*custom_predicate, data@, pattern.0 as int)
                },
                Err(e) => pattern_rejected(*custom_predicate, data@, pattern.0 as int, e),
            },
    {
        let start_len = text_predicates.len();
        let steps = data.predicate_steps[pattern.0 as usize].as_slice();
        let predicates = group_ranges(steps);
        let ghost all = pattern_classified(data@, pattern.0 as int);
        let ghost old_views = text_views(text_predicates@);
        let mut i: usize = 0;
        proof {
            assert(steps@ == data@.predicate_steps[pattern.0 as int]);
            assert(all.take(0) =~= Seq::<Classified>::empty());
            assert(text_views(text_predicates@) =~= old_views + texts_of(all.take(0)));
        }
        while i < predicates.len()
            invariant
                data@.wf(),
                pattern.0 < data@.predicate_steps.len(),
                steps@ == data@.predicate_steps[pattern.0 as int],
                all == pattern_classified(data@, pattern.0 as int),
                all.len() == predicates@.len(),
                old_views == text_views(old(text_predicates)@),
                start_len == old(text_predicates)@.len(),
                start_len + steps@.len() <= u32::MAX,
                i <= predicates@.len() <= steps@.len(),
                forall|k: int|
                    0 <= k < predicates@.len() ==> {
                        &&& (#[trigger] predicates@[k]).0 < predicates@[k].1 <= steps@.len()
                        &&& no_done(steps@, predicates@[k].0 as int, predicates@[k].1 as int)
                        &&& steps@.subrange(predicates@[k].0 as int, predicates@[k].1 as int)
                            == groups(steps@)[k]
                    },
                text_predicates@.len() <= start_len + i,
                text_views(text_predicates@) == old_views + texts_of(all.take(i as int)),
                forall|k: int|
                    0 <= k < i ==> accepted(*custom_predicate, pattern, #[trigger] all[k]),
                forall|k: int|
                    0 <= k < text_predicates@.len() ==> text_predicate_wf(
                        data@,
                        (#[trigger] text_predicates@[k])@,
                    ),
                forall|p: Pattern, u: UserPredicate| u.wf() ==> call_requires(*custom_predicate, (p, u)),
            decreases predicates@.len() - i,
        {
            let (from, to) = predicates[i];
            let predicate = vstd::slice::slice_subrange(steps, from, to);
            let ghost c = all[i as int];
            proof {
                assert(predicates@[i as int].0 == from);
                assert(predicate@ == groups(steps@)[i as int]);
                assert(c == classify(data@, predicate@));
                assert forall|k: int| 0 <= k < predicate@.len() implies (
                #[trigger] predicate@[k]).kind != PredicateStepKind::Done && data@.step_wf(
                    predicate@[k],
                ) by {
                    assert(predicate@[k] == steps@[from + k]);
                    assert(data@.step_wf(data@.predicate_steps[pattern.0 as int][from + k]));
                }
                assert(all.take(i + 1) =~= all.take(i as int).push(c));
                lemma_texts_of_push(all.take(i as int), c);
            }
            match parse_predicate(data, predicate) {
                Err(e) => {
                    assert(rejected_with(*custom_predicate, pattern, c, e));
                    return Err(e);
                },
                Ok(ParsedPredicate::Text(t)) => {
                    proof {
                        assert(text_views(text_predicates@.push(t)) =~= text_views(
                            text_predicates@,
                        ).push(t@));
                        assert(text_views(text_predicates@).push(t@) =~= old_views + texts_of(
                            all.take(i + 1),
                        ));
                    }
                    text_predicates.push(t);
                },
                Ok(ParsedPredicate::User(user)) => {
                    let ghost handed = user;
                    let answer = custom_predicate(pattern, user);
                    assert(call_ensures(*custom_predicate, (pattern, handed), answer));
                    match answer {
                        Err(e) => {
                            assert(rejected_with(*custom_predicate, pattern, c, e));
                            return Err(e);
                        },
                        Ok(_) => {},
                    }
                },
            }
            i += 1;
        }
        proof {
            assert(all.take(all.len() as int) =~= all);
        }
        Ok(PatternData { text_predicates: (start_len as u32)..(text_predicates.len() as u32) })
    }
}

/// The refusal of a predicate of a pattern can be located in the source.
pub proof fn lemma_refusal_locatable<F: Fn(Pattern, UserPredicate) -> Result<
    (),
    InvalidPredicateError,
>>(f: F, data: QueryDataView, bytes: Seq<u8>, p: int, refusal: InvalidPredicateError)
    requires
        0 <= p < data.pattern_starts.len(),
        p <= u32::MAX,
        patterns_located(data, bytes),
        callback_fits(f, data, bytes),
        pattern_rejected(f, data, p, refusal),
    ensures
        locatable(bytes, data.pattern_starts[p] as int, refusal@),
{
    let all = pattern_classified(data, p);
    let j = choose|j: int|
        {
            &&& 0 <= j < all.len()
            &&& forall|k: int| 0 <= k < j ==> accepted(f, Pattern(p as u32), #[trigger] all[k])
            &&& rejected_with(f, Pattern(p as u32), #[trigger] all[j], refusal)
        };
    assert(rejected_with(f, Pattern(p as u32), all[j], refusal));
    assert(data.pattern_starts[p] <= bytes.len() ==> is_char_boundary(
        bytes,
        data.pattern_starts[p] as int,
    ));
}

/// Step counts grow with the pattern.
pub proof fn lemma_steps_before_monotonic(data: QueryDataView, p: int, q: int)
    requires
        0 <= p <= q,
    ensures
        0 <= steps_before(data, p) <= steps_before(data, q),
    decreases q,
{
    if p < q {
        lemma_steps_before_monotonic(data, p, q - 1);
    } else if p > 0 {
        lemma_steps_before_monotonic(data, p - 1, p - 1);
    }
}

} // verus!
