//! The query that finds what to highlight in one language, and the
//! highlight that each of its captures stands for.

use vstd::prelude::*;
use vstd::utf8::encode_utf8;
use crate::classify::{pattern_classified, steps_before, Classified};
use crate::compile::{
    accepted, all_accepted, compilation_refused, pattern_accepted, pattern_rejected,
    patterns_located, rejected_with, user_views, users_of,
};
use crate::parse_error::{
    failure_error, predicate_error, CompileFailure, ParseError, ParseErrorView,
};
use crate::pattern_set::{pattern_set_contents, PatternSet};
use crate::predicate::{InvalidPredicateError, InvalidPredicateView};
use crate::query::{Capture, Pattern, Query, QueryData, QueryDataView};
use crate::shared::{
    table_len, table_load, table_made_with, table_new, table_store, SharedTable,
};
use crate::text::{str_eq, str_starts_with};
use crate::user_predicate::{user_predicate_text, UserPredicate, UserPredicateView};

verus! {

/// Which highlight a region of source code gets. What the number means is
/// up to the user.
#[derive(Copy, Clone, Debug, PartialEq, Eq, Structural)]
pub struct Highlight(pub u32);

impl Highlight {
    /// The highlight that stands for none.
    pub open spec fn spec_none() -> Highlight {
        Highlight(u32::MAX)
    }

    /// The highlight that stands for none.
    #[verifier::when_used_as_spec(spec_none)]
    pub fn none() -> (h: Highlight)
        ensures
            h == Highlight::spec_none(),
    {
        Highlight(u32::MAX)
    }

    /// Whether the highlight stands for none.
    pub fn is_none(self) -> (b: bool)
        ensures
            b == (self == Highlight::spec_none()),
    {
        self.0 == u32::MAX
    }
}

/// The user predicates that a highlight query may hold: `(#set!
/// local.scope-inherits ..)` and `(#is-not? local)`.
pub open spec fn supported(u: UserPredicateView) -> bool {
    match u {
        UserPredicateView::SetProperty { key, val } => key == "local.scope-inherits"@,
        UserPredicateView::IsPropertySet { negate, key, val } => negate && key == "local"@
            && val is None,
        _ => false,
    }
}

/// `(#is-not? local)`.
pub open spec fn is_non_local_marker(c: Classified) -> bool {
    c matches Classified::User(UserPredicateView::IsPropertySet { negate, key, val }) && negate
        && key == "local"@ && val is None
}

/// Whether a pattern holds `(#is-not? local)`: it does not match where the
/// node refers to a local definition.
pub open spec fn pattern_non_local(data: QueryDataView, pattern: int) -> bool {
    exists|j: int|
        0 <= j < pattern_classified(data, pattern).len() && is_non_local_marker(
            #[trigger] pattern_classified(data, pattern)[j],
        )
}

/// Whether a highlight query may hold the predicate: a text predicate, or
/// a predicate for the user that is supported.
pub open spec fn fine(c: Classified) -> bool {
    match c {
        Classified::Text(_) => true,
        Classified::User(u) => supported(u),
        Classified::Invalid(_) => false,
    }
}

/// Whether a highlight query may hold each predicate of each pattern.
pub open spec fn all_supported(data: QueryDataView) -> bool {
    forall|p: int, j: int|
        0 <= p < data.predicate_steps.len() && 0 <= j < pattern_classified(data, p).len()
            ==> fine(#[trigger] pattern_classified(data, p)[j])
}

/// The message that refuses a predicate that a highlight query may not
/// hold.
pub open spec fn refusal_message(c: Classified) -> Seq<char> {
    match c {
        Classified::Invalid(m) => m,
        Classified::User(u) => "unsupported predicate "@ + user_predicate_text(u),
        Classified::Text(_) => Seq::empty(),
    }
}

/// Whether predicate `j` of pattern `p` is the first, in the order of the
/// source, that a highlight query may not hold.
pub open spec fn first_refused(data: QueryDataView, p: int, j: int) -> bool {
    &&& 0 <= p < data.predicate_steps.len()
    &&& 0 <= j < pattern_classified(data, p).len()
    &&& !fine(pattern_classified(data, p)[j])
    &&& forall|k: int| 0 <= k < j ==> fine(#[trigger] pattern_classified(data, p)[k])
    &&& forall|q: int, k: int|
        0 <= q < p && 0 <= k < pattern_classified(data, q).len() ==> fine(
            #[trigger] pattern_classified(data, q)[k],
        )
}

/// The captures that a highlight query disables: scopes and definitions of
/// locals, which only the locals of a layer are made of.
pub open spec fn is_locals_capture(name: Seq<char>) -> bool {
    name == "local.scope"@ || encode_utf8("local.definition."@).is_prefix_of(encode_utf8(name))
}

/// The query for the highlights of one language: the highlights query with
/// the locals query behind it, and the highlight of each capture. The
/// highlights are replaced as a whole when the theme changes, while passes
/// over documents go on.
#[derive(Debug)]
pub struct HighlightQuery {
    pub query: Query,
    highlight_indices: SharedTable,
    non_local_patterns: PatternSet,
    local_reference_capture: Option<Capture>,
}

/// What a [`HighlightQuery`] holds, as mathematical values.
pub struct HighlightQueryView {
    pub non_local: Set<u32>,
    pub local_reference: Option<Capture>,
    /// How many highlights the table of the query holds, whatever they are.
    pub table_len: nat,
    /// The highlights that the table was made with, which it holds until a
    /// theme gives the captures others.
    pub initial: Seq<u32>,
}

impl View for HighlightQuery {
    type V = HighlightQueryView;

    closed spec fn view(&self) -> HighlightQueryView {
        HighlightQueryView {
            non_local: pattern_set_contents(self.non_local_patterns),
            local_reference: self.local_reference_capture,
            table_len: table_len(self.highlight_indices),
            initial: table_made_with(self.highlight_indices),
        }
    }
}

/// Whether the capture is the first of the query that has the name.
pub open spec fn first_named(data: QueryDataView, name: Seq<char>, capture: Option<Capture>) -> bool {
    match capture {
        Some(c) => {
            &&& c.0 < data.capture_names.len()
            &&& data.capture_names[c.0 as int] == name
            &&& forall|i: int| 0 <= i < c.0 ==> data.capture_names[i] != name
        },
        None => forall|i: int| 0 <= i < data.capture_names.len() ==> data.capture_names[i] != name,
    }
}

/// Whether the highlight is one that `f` can give the name.
pub open spec fn given_by<F: Fn(&str) -> Highlight>(f: F, name: Seq<char>, h: Highlight) -> bool {
    exists|s: &str| s@ == name && #[trigger] call_ensures(f, (s,), h)
}

impl HighlightQuery {
    /// The query itself.
    pub closed spec fn spec_query(&self) -> &Query {
        &self.query
    }

    /// The set of non-local patterns holds the patterns with `(#is-not?
    /// local)`, the capture of references to locals is the one named
    /// `local.reference`, and the table holds a highlight for each capture.
    pub open spec fn wf(&self) -> bool {
        let data = self.spec_query()@.data;
        &&& self.spec_query().wf()
        &&& self@.table_len == data.capture_names.len()
        &&& forall|p: u32|
            #[trigger] self@.non_local.contains(p) <==> p < data.predicate_steps.len()
                && pattern_non_local(data, p as int)
        &&& first_named(data, "local.reference"@, self@.local_reference)
    }

    /// The query itself.
    pub fn query(&self) -> (q: &Query)
        ensures
            q == self.spec_query(),
    {
        &self.query
    }

    /// Makes the highlight query of a language of what the grammar library
    /// made of the highlights query text with the locals query text behind
    /// it. The query may hold `(#set! local.scope-inherits ..)` and
    /// `(#is-not? local)`; any other predicate for the user is refused. The
    /// captures of scopes and definitions are disabled. No capture has a
    /// highlight until the query is configured.
    pub fn new(
        compiled: Result<QueryData, CompileFailure>,
        highlight_query_text: &str,
        local_query_text: &str,
    ) -> (r: Result<HighlightQuery, ParseError>)
        requires
            encode_utf8(highlight_query_text@ + local_query_text@).len() <= i32::MAX,
            match compiled {
                Err(failure) => failure.wf(encode_utf8(highlight_query_text@ + local_query_text@)),
                Ok(data) => {
                    &&& data@.wf()
                    &&& steps_before(data@, data@.predicate_steps.len() as int) <= u32::MAX
                    &&& patterns_located(
                        data@,
                        encode_utf8(highlight_query_text@ + local_query_text@),
                    )
                },
            },
        ensures
            r is Ok <==> compiled is Ok && all_supported(compiled->Ok_0@),
            r is Ok ==> {
                &&& r->Ok_0.wf()
                &&& r->Ok_0@.initial == Seq::new(
                    compiled->Ok_0@.capture_names.len(),
                    |c: int| Highlight::spec_none().0,
                )
                &&& r->Ok_0.spec_query()@.data == compiled->Ok_0@
                &&& forall|c: int|
                    0 <= c < r->Ok_0.spec_query()@.disabled.len() ==> (
                    #[trigger] r->Ok_0.spec_query()@.disabled[c]) == is_locals_capture(
                        compiled->Ok_0@.capture_names[c],
                    )
            },
            r is Err && compiled is Err ==> r->Err_0@ == failure_error(
                encode_utf8(highlight_query_text@ + local_query_text@),
                compiled->Err_0,
            ),
            r is Err && compiled is Ok ==> exists|p: int, j: int|
                {
                    &&& #[trigger] first_refused(compiled->Ok_0@, p, j)
                    &&& r->Err_0@ == predicate_error(
                        encode_utf8(highlight_query_text@ + local_query_text@),
                        compiled->Ok_0@.pattern_starts[p] as int,
                        InvalidPredicateView::Other {
                            msg: refusal_message(pattern_classified(compiled->Ok_0@, p)[j]),
                        },
                    )
                },
    {
        let mut query_source = highlight_query_text.to_owned();
        query_source.append(local_query_text);
        let ghost bytes = encode_utf8(highlight_query_text@ + local_query_text@);
        assert(query_source@ == highlight_query_text@ + local_query_text@);
        let check = |pattern: Pattern, predicate: UserPredicate| -> (r: Result<
            (),
            InvalidPredicateError,
        >)
            requires
                predicate.wf(),
            ensures
                r is Ok <==> supported(predicate@),
                r is Err ==> r->Err_0@ == (InvalidPredicateView::Other {
                    msg: "unsupported predicate "@ + user_predicate_text(predicate@),
                }),
            {
                let fine = match &predicate {
                    UserPredicate::SetProperty { key, val } => str_eq(key, "local.scope-inherits"),
                    UserPredicate::IsPropertySet { negate, key, val } => *negate && str_eq(
                        key,
                        "local",
                    ) && val.is_none(),
                    _ => false,
                };
                if fine {
                    Ok(())
                } else {
                    let mut msg = "unsupported predicate ".to_owned();
                    msg.append(predicate.to_string().as_str());
                    Err(InvalidPredicateError::Other { msg })
                }
            };
        let ghost data = compiled->Ok_0@;
        let mut query = match Query::new(compiled, query_source.as_str(), check) {
            Err(e) => {
                proof {
                    if compiled is Ok {
                        lemma_refused_first(check, data, bytes, e@);
                        if all_supported(data) {
                            let (p, j) = choose|p: int, j: int| #[trigger] first_refused(data, p, j);
                            assert(fine(pattern_classified(data, p)[j]));
                        }
                    }
                }
                return Err(e);
            },
            Ok(q) => q,
        };
        proof {
            lemma_accepted_supported(check, data);
        }
        let non_local_patterns = non_local_patterns_of(&query);
        // The highlight query only cares about references to locals: the
        // captures of scopes and definitions can be disabled.
        disable_locals_captures(&mut query);
        let local_reference_capture = query.get_capture("local.reference");
        let highlight_indices = table_new(vec![u32::MAX; query.num_captures() as usize]);
        Ok(HighlightQuery { query, highlight_indices, non_local_patterns, local_reference_capture })
    }

    /// The highlight of each capture, as they are at the time of the call:
    /// one for each capture of the query, in the order of the captures.
    /// Which highlights they are is open, as any thread may have given the
    /// captures others since.
    pub fn highlights(&self) -> (table: Vec<Highlight>)
        ensures
            table@.len() == self@.table_len,
            self.wf() ==> table@.len() == self.spec_query()@.data.capture_names.len(),
    {
        let loaded = table_load(&self.highlight_indices);
        let mut table: Vec<Highlight> = Vec::new();
        let mut i: usize = 0;
        while i < loaded.len()
            invariant
                i <= loaded@.len(),
                table@.len() == i,
                loaded@.len() == self@.table_len,
            decreases loaded@.len() - i,
        {
            table.push(Highlight(loaded[i]));
            i += 1;
        }
        table
    }

    /// Whether the pattern holds `(#is-not? local)`.
    pub fn is_non_local(&self, pattern: Pattern) -> (b: bool)
        ensures
            b == self@.non_local.contains(pattern.0),
    {
        self.non_local_patterns.contains(&pattern)
    }

    /// The capture of references to locals, if the query has one.
    pub fn local_reference_capture(&self) -> (c: Option<Capture>)
        ensures
            c == self@.local_reference,
    {
        self.local_reference_capture
    }

    /// Gives each capture the highlight that `f` gives its name, and hands
    /// the highlights out. Captures are named with dots, such as
    /// `function.method.builtin`; `f` decides how much of a name it knows,
    /// and returns no highlight for a name that it knows nothing of.
    pub fn configure<F: Fn(&str) -> Highlight>(&self, f: &F) -> (table: Vec<Highlight>)
        requires
            self.wf(),
            forall|name: &str| call_requires(*f, (name,)),
        ensures
            table@.len() == self.spec_query()@.data.capture_names.len(),
            forall|c: int|
                0 <= c < table@.len() ==> given_by(
                    *f,
                    self.spec_query()@.data.capture_names[c],
                    #[trigger] table@[c],
                ),
    {
        let n = self.query.num_captures();
        let mut table: Vec<Highlight> = Vec::new();
        let mut numbers: Vec<u32> = Vec::new();
        let mut c: u32 = 0;
        while c < n
            invariant
                self.wf(),
                n == self.spec_query()@.data.capture_names.len(),
                c <= n,
                table@.len() == c,
                numbers@.len() == c,
                forall|name: &str| call_requires(*f, (name,)),
                forall|k: int|
                    0 <= k < c ==> given_by(
                        *f,
                        self.spec_query()@.data.capture_names[k],
                        #[trigger] table@[k],
                    ),
            decreases n - c,
        {
            let name = self.query.capture_name(Capture(c));
            let h = f(name);
            let ghost before = table@;
            table.push(h);
            numbers.push(h.0);
            proof {
                assert(call_ensures(*f, (name,), h));
                assert forall|k: int| 0 <= k < c + 1 implies given_by(
                    *f,
                    self.spec_query()@.data.capture_names[k],
                    #[trigger] table@[k],
                ) by {
                    if k < c {
                        assert(table@[k] == before[k]);
                    }
                }
            }
            c += 1;
        }
        table_store(&self.highlight_indices, numbers);
        table
    }
}

/// Whether `f` accepts the predicates that a highlight query may hold, and
/// refuses the others with the message that says so.
pub open spec fn checks_support<F: Fn(Pattern, UserPredicate) -> Result<(), InvalidPredicateError>>(
    f: F,
) -> bool {
    forall|p: Pattern, u: UserPredicate, r: Result<(), InvalidPredicateError>|
        #[trigger] call_ensures(f, (p, u), r) ==> {
            &&& r is Ok <==> supported(u@)
            &&& r is Err ==> r->Err_0@ == (InvalidPredicateView::Other {
                msg: "unsupported predicate "@ + user_predicate_text(u@),
            })
        }
}

/// Where the predicates of all patterns are accepted, a highlight query
/// may hold each of them.
proof fn lemma_accepted_supported<F: Fn(Pattern, UserPredicate) -> Result<
    (),
    InvalidPredicateError,
>>(f: F, data: QueryDataView)
    requires
        checks_support(f),
        data.predicate_steps.len() == data.pattern_starts.len(),
        all_accepted(f, data),
    ensures
        all_supported(data),
{
    assert forall|p: int, j: int|
        0 <= p < data.predicate_steps.len() && 0 <= j < pattern_classified(
            data,
            p,
        ).len() implies fine(#[trigger] pattern_classified(data, p)[j]) by {
        assert(pattern_accepted(f, data, p));
        assert(accepted(f, Pattern(p as u32), pattern_classified(data, p)[j]));
    }
}

/// Where compiling is refused, the error is that of the first predicate
/// that a highlight query may not hold.
proof fn lemma_refused_first<F: Fn(Pattern, UserPredicate) -> Result<(), InvalidPredicateError>>(
    f: F,
    data: QueryDataView,
    bytes: Seq<u8>,
    e: ParseErrorView,
)
    requires
        checks_support(f),
        data.predicate_steps.len() == data.pattern_starts.len(),
        compilation_refused(f, data, bytes, e),
    ensures
        exists|p: int, j: int|
            {
                &&& #[trigger] first_refused(data, p, j)
                &&& e == predicate_error(
                    bytes,
                    data.pattern_starts[p] as int,
                    InvalidPredicateView::Other {
                        msg: refusal_message(pattern_classified(data, p)[j]),
                    },
                )
            },
{
    let (p, refusal) = choose|p: int, refusal: InvalidPredicateError|
        {
            &&& 0 <= p < data.pattern_starts.len()
            &&& forall|k: int| 0 <= k < p ==> #[trigger] pattern_accepted(f, data, k)
            &&& #[trigger] pattern_rejected(f, data, p, refusal)
            &&& e == predicate_error(bytes, data.pattern_starts[p] as int, refusal@)
        };
    let all = pattern_classified(data, p);
    let j = choose|j: int|
        {
            &&& 0 <= j < all.len()
            &&& forall|k: int| 0 <= k < j ==> accepted(f, Pattern(p as u32), #[trigger] all[k])
            &&& rejected_with(f, Pattern(p as u32), #[trigger] all[j], refusal)
        };
    assert(!fine(all[j]) && refusal@ == (InvalidPredicateView::Other {
        msg: refusal_message(all[j]),
    }));
    assert forall|k: int| 0 <= k < j implies fine(#[trigger] all[k]) by {
        assert(accepted(f, Pattern(p as u32), all[k]));
    }
    assert forall|q: int, k: int|
        0 <= q < p && 0 <= k < pattern_classified(data, q).len() implies fine(
        #[trigger] pattern_classified(data, q)[k],
    ) by {
        assert(pattern_accepted(f, data, q));
        assert(accepted(f, Pattern(q as u32), pattern_classified(data, q)[k]));
    }
    assert(first_refused(data, p, j));
}

/// Disables the captures of scopes and definitions of locals.
fn disable_locals_captures(query: &mut Query)
    requires
        old(query).wf(),
        old(query)@.disabled == Seq::new(old(query)@.disabled.len(), |c: int| false),
    ensures
        final(query).wf(),
        final(query)@.data == old(query)@.data,
        forall|c: int|
            0 <= c < final(query)@.disabled.len() ==> (#[trigger] final(query)@.disabled[c])
                == is_locals_capture(old(query)@.data.capture_names[c]),
{
    let names = locals_captures(query);
    let ghost fresh = query@;
    query.disable_capture("local.scope");
    let mut i: usize = 0;
    while i < names.len()
        invariant
            query.wf(),
            query@.data == fresh.data,
            query@.disabled.len() == fresh.disabled.len(),
            i <= names@.len(),
            forall|c: int|
                0 <= c < fresh.disabled.len() ==> #[trigger] query@.disabled[c] == (
                fresh.data.capture_names[c] == "local.scope"@ || exists|k: int|
                    0 <= k < i && (#[trigger] names@[k])@ == fresh.data.capture_names[c]),
        decreases names@.len() - i,
    {
        let ghost before = query@.disabled;
        query.disable_capture(names[i].as_str());
        proof {
            assert forall|c: int| 0 <= c < fresh.disabled.len() implies (
            #[trigger] query@.disabled[c]) == (fresh.data.capture_names[c] == "local.scope"@
                || exists|k: int|
                0 <= k < i + 1 && (#[trigger] names@[k])@ == fresh.data.capture_names[c]) by {
                assert(query@.disabled[c] == (before[c] || fresh.data.capture_names[c]
                    == names@[i as int]@));
                if fresh.data.capture_names[c] == names@[i as int]@ {
                    assert(names@[i as int]@ == fresh.data.capture_names[c]);
                }
            }
        }
        i += 1;
    }
    proof {
        assert forall|c: int| 0 <= c < query@.disabled.len() implies (
        #[trigger] query@.disabled[c]) == is_locals_capture(fresh.data.capture_names[c]) by {
            let name = fresh.data.capture_names[c];
            if encode_utf8("local.definition."@).is_prefix_of(encode_utf8(name)) {
                let k = choose|k: int| 0 <= k < names@.len() && (#[trigger] names@[k])@ == name;
                assert(names@[k]@ == fresh.data.capture_names[c]);
            }
        }
    }
}

fn non_local_patterns_of(query: &Query) -> (set: PatternSet)
    requires
        query.wf(),
    ensures
        forall|p: u32|
            #[trigger] pattern_set_contents(set).contains(p) <==> p
                < query@.data.predicate_steps.len() && pattern_non_local(query@.data, p as int),
{
    let mut set = PatternSet::new();
    let n = query.pattern_count();
    let mut p: usize = 0;
    proof {
        assert forall|q: u32| !pattern_set_contents(set).contains(q) by {
            assert(!set.has(Pattern(q)));
        }
    }
    while p < n
        invariant
            query.wf(),
            n == query@.patterns.len(),
            p <= n,
            forall|q: u32|
                #[trigger] pattern_set_contents(set).contains(q) <==> q < p
                    && pattern_non_local(query@.data, q as int),
        decreases n - p,
    {
        let pattern = Pattern(p as u32);
        let users = query.pattern_user_predicates(pattern);
        let ghost all = pattern_classified(query@.data, p as int);
        let mut found = false;
        let mut i: usize = 0;
        while i < users.len()
            invariant
                i <= users@.len(),
                found == exists|k: int|
                    0 <= k < i && is_non_local_marker(
                        Classified::User(#[trigger] user_views(users@)[k]),
                    ),
            decreases users@.len() - i,
        {
            let marker = match &users[i] {
                UserPredicate::IsPropertySet { negate, key, val } => *negate && str_eq(
                    key,
                    "local",
                ) && val.is_none(),
                _ => false,
            };
            proof {
                assert(user_views(users@)[i as int] == users@[i as int]@);
                assert(marker == is_non_local_marker(
                    Classified::User(user_views(users@)[i as int]),
                ));
            }
            if marker {
                found = true;
            }
            i += 1;
        }
        proof {
            lemma_marker_among_users(all);
            assert(found == pattern_non_local(query@.data, p as int));
        }
        if found {
            let ghost before = set;
            set.insert(pattern);
            proof {
                assert forall|q: u32|
                    #[trigger] pattern_set_contents(set).contains(q) <==> q < p
                        + 1 && pattern_non_local(query@.data, q as int) by {
                    assert(set.has(Pattern(q)) == (before.has(Pattern(q)) || Pattern(q)
                        == pattern));
                }
            }
        }
        p += 1;
    }
    set
}

/// A pattern holds `(#is-not? local)` where its user predicates do.
pub proof fn lemma_marker_among_users(all: Seq<Classified>)
    ensures
        (exists|j: int| 0 <= j < all.len() && is_non_local_marker(#[trigger] all[j])) <==> (exists|
            k: int,
        |
            0 <= k < users_of(all).len() && is_non_local_marker(
                Classified::User(#[trigger] users_of(all)[k]),
            )),
    decreases all.len(),
{
    if all.len() > 0 {
        let front = all.drop_last();
        lemma_marker_among_users(front);
        let users = users_of(all);
        let front_users = users_of(front);
        if exists|j: int| 0 <= j < all.len() && is_non_local_marker(#[trigger] all[j]) {
            let j = choose|j: int| 0 <= j < all.len() && is_non_local_marker(#[trigger] all[j]);
            if j == all.len() - 1 {
                assert(is_non_local_marker(Classified::User(users[users.len() - 1])));
            } else {
                assert(is_non_local_marker(front[j]));
                let k = choose|k: int|
                    0 <= k < front_users.len() && is_non_local_marker(
                        Classified::User(#[trigger] front_users[k]),
                    );
                assert(users[k] == front_users[k]);
                assert(is_non_local_marker(Classified::User(users[k])));
            }
        }
        if exists|k: int|
            0 <= k < users.len() && is_non_local_marker(Classified::User(#[trigger] users[k])) {
            let k = choose|k: int|
                0 <= k < users.len() && is_non_local_marker(Classified::User(#[trigger] users[k]));
            if k < front_users.len() {
                assert(users[k] == front_users[k]);
                assert(is_non_local_marker(Classified::User(front_users[k])));
                let j = choose|j: int| 0 <= j < front.len() && is_non_local_marker(#[trigger] front[j]);
                assert(all[j] == front[j]);
            } else {
                assert(is_non_local_marker(all[all.len() - 1]));
            }
        }
    }
}

fn locals_captures(query: &Query) -> (names: Vec<String>)
    requires
        query.wf(),
    ensures
        forall|k: int|
            0 <= k < names@.len() ==> encode_utf8("local.definition."@).is_prefix_of(
                encode_utf8((#[trigger] names@[k])@),
            ),
        forall|c: int|
            0 <= c < query@.data.capture_names.len() && encode_utf8(
                "local.definition."@,
            ).is_prefix_of(encode_utf8(#[trigger] query@.data.capture_names[c])) ==> exists|k: int|
                0 <= k < names@.len() && (#[trigger] names@[k])@ == query@.data.capture_names[c],
{
    let mut names: Vec<String> = Vec::new();
    let n = query.num_captures();
    let mut c: u32 = 0;
    while c < n
        invariant
            query.wf(),
            n == query@.data.capture_names.len(),
            c <= n,
            forall|k: int|
                0 <= k < names@.len() ==> encode_utf8("local.definition."@).is_prefix_of(
                    encode_utf8((#[trigger] names@[k])@),
                ),
            forall|d: int|
                0 <= d < c && encode_utf8("local.definition."@).is_prefix_of(
                    encode_utf8(#[trigger] query@.data.capture_names[d]),
                ) ==> exists|k: int|
                    0 <= k < names@.len() && (#[trigger] names@[k])@
                        == query@.data.capture_names[d],
        decreases n - c,
    {
        let name = query.capture_name(Capture(c));
        if str_starts_with(name, "local.definition.") {
            let ghost before = names@;
            names.push(name.to_owned());
            proof {
                assert forall|d: int|
                    0 <= d < c + 1 && encode_utf8("local.definition."@).is_prefix_of(
                        encode_utf8(#[trigger] query@.data.capture_names[d]),
                    ) implies exists|k: int|
                    0 <= k < names@.len() && (#[trigger] names@[k])@
                        == query@.data.capture_names[d] by {
                    if d < c {
                        let k = choose|k: int|
                            0 <= k < before.len() && (#[trigger] before[k])@
                                == query@.data.capture_names[d];
                        assert(names@[k] == before[k]);
                    } else {
                        assert(names@[names@.len() - 1]@ == query@.data.capture_names[d]);
                    }
                }
            }
        }
        c += 1;
    }
    names
}

} // verus!
