//! The predicates that a query leaves to its user.

use vstd::prelude::*;
use crate::predicate::{InvalidPredicateError, InvalidPredicateView, Predicate, PredicateView};

verus! {

/// What a [`UserPredicate`] holds, as mathematical values.
pub enum UserPredicateView {
    IsPropertySet { negate: bool, key: Seq<char>, val: Option<Seq<char>> },
    IsAnyOf { negated: bool, value: Seq<char>, values: Seq<Seq<char>> },
    SetProperty { key: Seq<char>, val: Option<Seq<char>> },
    Other(PredicateView),
}

/// A predicate that the query leaves to its user.
#[derive(Debug)]
pub enum UserPredicate<'a> {
    /// `(#is? key [val])`, or `(#is-not? key [val])` with `negate`.
    IsPropertySet { negate: bool, key: &'a str, val: Option<&'a str> },
    /// `(#any-of? value values..)` on a literal `value`, or `(#not-any-of?
    /// ..)` with `negated`: whether `values` holds `value`.
    IsAnyOf { negated: bool, value: &'a str, values: Vec<&'a str> },
    /// `(#set! key [val])`.
    SetProperty { key: &'a str, val: Option<&'a str> },
    /// Any other predicate.
    Other(Predicate<'a>),
}

/// The text of an optional string.
pub open spec fn opt_text(s: Option<&str>) -> Option<Seq<char>> {
    match s {
        Some(s) => Some(s@),
        None => None,
    }
}

/// The texts of a list of strings.
pub open spec fn texts(v: Seq<&str>) -> Seq<Seq<char>> {
    Seq::new(v.len(), |i: int| v[i]@)
}

impl<'a> View for UserPredicate<'a> {
    type V = UserPredicateView;

    open spec fn view(&self) -> UserPredicateView {
        match self {
            UserPredicate::IsPropertySet { negate, key, val } => UserPredicateView::IsPropertySet {
                negate: *negate,
                key: key@,
                val: opt_text(*val),
            },
            UserPredicate::IsAnyOf { negated, value, values } => UserPredicateView::IsAnyOf {
                negated: *negated,
                value: value@,
                values: texts(values@),
            },
            UserPredicate::SetProperty { key, val } => UserPredicateView::SetProperty {
                key: key@,
                val: opt_text(*val),
            },
            UserPredicate::Other(p) => UserPredicateView::Other(p@),
        }
    }
}

/// The first `n` of the values, each between double quotes, with `, `
/// between them.
pub open spec fn quoted_list(values: Seq<Seq<char>>, n: int) -> Seq<char>
    decreases n,
{
    if n <= 0 {
        Seq::empty()
    } else if n == 1 {
        "\""@ + values[0] + "\""@
    } else {
        quoted_list(values, n - 1) + ", "@ + "\""@ + values[n - 1] + "\""@
    }
}

/// The text of a property predicate: the name, the key and, after a space,
/// the value if there is one.
pub open spec fn property_text(lead: Seq<char>, key: Seq<char>, val: Option<Seq<char>>) -> Seq<
    char,
> {
    match val {
        Some(v) => lead + key + " "@ + v + ")"@,
        None => lead + key + ")"@,
    }
}

/// A predicate for the user as text that resembles its source.
pub open spec fn user_predicate_text(u: UserPredicateView) -> Seq<char> {
    match u {
        UserPredicateView::IsAnyOf { negated, value, values } => (if negated {
            "(#not-any-of? "@
        } else {
            "(#any-of? "@
        }) + value + " "@ + quoted_list(values, values.len() as int) + ")"@,
        UserPredicateView::IsPropertySet { negate, key, val } => property_text(
            if negate {
                " (#is-not? "@
            } else {
                " (#is? "@
            },
            key,
            val,
        ),
        UserPredicateView::SetProperty { key, val } => property_text("(#set! "@, key, val),
        UserPredicateView::Other(p) => "#"@ + p.data.string(p.name),
    }
}

impl<'a> UserPredicate<'a> {
    /// The predicate is one of its query.
    pub open spec fn wf(&self) -> bool {
        match self {
            UserPredicate::Other(p) => p.wf(),
            _ => true,
        }
    }

    /// The predicate as text that resembles its source.
    pub open spec fn spec_text(&self) -> Seq<char> {
        user_predicate_text(self@)
    }

    /// Writes the predicate as text that resembles its source.
    pub fn to_string(&self) -> (s: String)
        requires
            self.wf(),
        ensures
            s@ == self.spec_text(),
    {
        match self {
            UserPredicate::IsAnyOf { negated, value, values } => {
                let mut s = if *negated {
                    "(#not-any-of? ".to_owned()
                } else {
                    "(#any-of? ".to_owned()
                };
                s.append(value);
                s.append(" ");
                let ghost head = s@;
                let mut i: usize = 0;
                while i < values.len()
                    invariant
                        i <= values@.len(),
                        s@ == head + quoted_list(texts(values@), i as int),
                    decreases values@.len() - i,
                {
                    if i > 0 {
                        s.append(", ");
                    }
                    s.append("\"");
                    s.append(values[i]);
                    s.append("\"");
                    i += 1;
                    proof {
                        assert(texts(values@)[i - 1] == values@[i - 1]@);
                        assert(s@ =~= head + quoted_list(texts(values@), i as int));
                    }
                }
                s.append(")");
                s
            },
            UserPredicate::IsPropertySet { negate, key, val } => {
                let mut s = if *negate {
                    " (#is-not? ".to_owned()
                } else {
                    " (#is? ".to_owned()
                };
                s.append(key);
                match val {
                    Some(v) => {
                        s.append(" ");
                        s.append(v);
                    },
                    None => {},
                }
                s.append(")");
                s
            },
            UserPredicate::SetProperty { key, val } => {
                let mut s = "(#set! ".to_owned();
                s.append(key);
                match val {
                    Some(v) => {
                        s.append(" ");
                        s.append(v);
                    },
                    None => {},
                }
                s.append(")");
                s
            },
            UserPredicate::Other(predicate) => {
                let mut s = "#".to_owned();
                s.append(predicate.name());
                s
            },
        }
    }
}

impl InvalidPredicateError {
    /// The error for a predicate that the user does not know: an unknown
    /// property for a property predicate, else an unknown predicate.
    pub fn unknown(predicate: UserPredicate) -> (e: Self)
        requires
            predicate.wf(),
        ensures
            e@ == match predicate {
                UserPredicate::IsPropertySet { negate, key, val } => {
                    InvalidPredicateView::UnknownProperty { property: key@ }
                },
                UserPredicate::SetProperty { key, val } => InvalidPredicateView::UnknownProperty {
                    property: key@,
                },
                UserPredicate::IsAnyOf {
                    negated,
                    value,
                    values,
                } => InvalidPredicateView::UnknownPredicate { name: value@ },
                UserPredicate::Other(p) => InvalidPredicateView::UnknownPredicate {
                    name: p.spec_name(),
                },
            },
    {
        match predicate {
            UserPredicate::IsPropertySet { negate, key, val } => {
                InvalidPredicateError::UnknownProperty { property: key.to_owned() }
            },
            UserPredicate::SetProperty { key, val } => InvalidPredicateError::UnknownProperty {
                property: key.to_owned(),
            },
            UserPredicate::IsAnyOf { negated, value, values } => {
                InvalidPredicateError::UnknownPredicate { name: value.to_owned() }
            },
            UserPredicate::Other(predicate) => InvalidPredicateError::UnknownPredicate {
                name: predicate.name().to_owned(),
            },
        }
    }
}

} // verus!
