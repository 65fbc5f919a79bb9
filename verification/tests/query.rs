use ropey::Rope;
use tree_house::location::ParserErrorLocation;
use tree_house::predicate::{
    InvalidPredicateError, Predicate, PredicateArg, PredicateStep, PredicateStepKind,
};
use tree_house::parse_error::{CompileFailure, ParseError, RawQueryError};
use tree_house::query::{Capture, Pattern, Query, QueryData, QueryStr};
use tree_house::user_predicate::UserPredicate;
use tree_house::query_cursor::QueryMatch;
use tree_house::rope::RopeInput;
use tree_house::text_predicate::MatchedNode;
use tree_house::{Point, Range};

/// Builds what the grammar library would hold of a query, by hand.
struct Tables {
    data: QueryData,
}

fn tables() -> Tables {
    Tables {
        data: QueryData {
            capture_names: Vec::new(),
            strings: Vec::new(),
            pattern_starts: Vec::new(),
            predicate_steps: Vec::new(),
        },
    }
}

fn capture(tables: &mut Tables, name: &str) -> PredicateStep {
    let names = &mut tables.data.capture_names;
    let id = match names.iter().position(|n| n == name) {
        Some(id) => id,
        None => {
            names.push(name.to_string());
            names.len() - 1
        }
    };
    PredicateStep { kind: PredicateStepKind::Capture, value_id: id as u32 }
}

fn string(tables: &mut Tables, text: &str) -> PredicateStep {
    let strings = &mut tables.data.strings;
    let id = match strings.iter().position(|n| n == text) {
        Some(id) => id,
        None => {
            strings.push(text.to_string());
            strings.len() - 1
        }
    };
    PredicateStep { kind: PredicateStepKind::String, value_id: id as u32 }
}

fn done() -> PredicateStep {
    PredicateStep { kind: PredicateStepKind::Done, value_id: 0 }
}

fn pattern(tables: &mut Tables, start: u32, steps: Vec<PredicateStep>) {
    tables.data.pattern_starts.push(start);
    tables.data.predicate_steps.push(steps);
}

fn accept_all(_: Pattern, _: UserPredicate) -> Result<(), InvalidPredicateError> {
    Ok(())
}

fn span(start: u32, end: u32) -> Range {
    Range {
        start_point: Point { row: 0, col: start },
        end_point: Point { row: 0, col: end },
        start_byte: start,
        end_byte: end,
    }
}

fn node(capture: u32, start: u32, end: u32) -> MatchedNode {
    MatchedNode { node: span(start, end), capture: Capture(capture), pattern: Pattern(0) }
}

fn one_node_match(capture: u32, start: u32, end: u32) -> QueryMatch {
    QueryMatch { pattern: Pattern(0), matched_nodes: vec![node(capture, start, end)] }
}

fn spans(matches: &[QueryMatch]) -> Vec<(u32, u32)> {
    matches
        .iter()
        .map(|m| (m.matched_nodes[0].node.start_byte, m.matched_nodes[0].node.end_byte))
        .collect()
}

/// `((identifier) @var (#NAME @var ARGS..))`, compiled.
fn var_query(name: &str, args: &[&str]) -> Query {
    let mut t = tables();
    let mut steps = vec![string(&mut t, name), capture(&mut t, "var")];
    for arg in args {
        steps.push(string(&mut t, arg));
    }
    steps.push(done());
    pattern(&mut t, 0, steps);
    Query::new(Ok(t.data), "((identifier) @var)", accept_all).unwrap()
}

fn words(text: &str) -> Vec<QueryMatch> {
    let mut matches = Vec::new();
    let mut start = 0;
    for word in text.split(' ') {
        matches.push(one_node_match(0, start as u32, (start + word.len()) as u32));
        start += word.len() + 1;
    }
    matches
}

fn filtered(query: &Query, text: &str) -> Vec<(u32, u32)> {
    let rope = Rope::from_str(text);
    let mut input = RopeInput::new(rope.slice(..));
    spans(&query.filter_matches(&mut input, words(text)))
}

#[test]
fn query_without_predicates_keeps_every_match() {
    let mut t = tables();
    capture(&mut t, "var");
    pattern(&mut t, 0, Vec::new());
    let query = Query::new(Ok(t.data), "(identifier) @var", accept_all).unwrap();
    assert_eq!(query.pattern_count(), 1);
    assert_eq!(query.num_captures(), 1);
    assert_eq!(query.pattern_text_predicates(Pattern(0)).len(), 0);
    assert_eq!(filtered(&query, "foo bar"), vec![(0, 3), (4, 7)]);
}

#[test]
fn eq_keeps_the_matches_with_that_text() {
    let query = var_query("eq?", &["foo"]);
    assert_eq!(filtered(&query, "foo bar foo"), vec![(0, 3), (8, 11)]);
}

#[test]
fn not_eq_keeps_the_other_matches() {
    let query = var_query("not-eq?", &["foo"]);
    assert_eq!(filtered(&query, "foo bar foo"), vec![(4, 7)]);
}

#[test]
fn any_of_keeps_the_matches_with_one_of_the_texts() {
    let query = var_query("any-of?", &["foo", "bar"]);
    assert_eq!(filtered(&query, "foo baz bar"), vec![(0, 3), (8, 11)]);
}

#[test]
fn not_any_of_keeps_the_matches_with_none_of_the_texts() {
    let query = var_query("not-any-of?", &["foo", "bar"]);
    assert_eq!(filtered(&query, "foo baz bar"), vec![(4, 7)]);
}

#[test]
fn match_keeps_the_matches_that_the_regex_matches() {
    let query = var_query("match?", &["^b.r$"]);
    assert_eq!(filtered(&query, "foo bar bor xbar"), vec![(4, 7), (8, 11)]);
    let query = var_query("not-match?", &["^b.r$"]);
    assert_eq!(filtered(&query, "foo bar bor xbar"), vec![(0, 3), (12, 16)]);
}

#[test]
fn match_sees_only_the_text_of_the_node() {
    // `^` and `$` are the ends of the node, whatever stands around it.
    let query = var_query("match?", &["^[a-z]+$"]);
    assert_eq!(filtered(&query, "ab Cd ef"), vec![(0, 2), (6, 8)]);
    let query = var_query("match?", &["\\bfoo\\b"]);
    // Within the node `xfoo` no word starts at `foo`.
    assert_eq!(filtered(&query, "foo xfoo"), vec![(0, 3)]);
}

#[test]
fn match_runs_across_chunks() {
    let mut text = String::new();
    for i in 0..3000 {
        text.push_str(&format!("word{i} "));
    }
    text.push_str("needle");
    let rope = Rope::from_str(&text);
    assert!(rope.chunks().count() > 4);
    let mut input = RopeInput::new(rope.slice(..));
    let query = var_query("match?", &["^word0 .*word2999 needle$"]);
    let whole = vec![one_node_match(0, 0, text.len() as u32)];
    assert_eq!(spans(&query.filter_matches(&mut input, whole)), vec![(0, text.len() as u32)]);
    let start = text.find("word1500").unwrap() as u32;
    let query = var_query("match?", &["^word1500 .*needle$"]);
    let tail = vec![one_node_match(0, start, text.len() as u32), one_node_match(0, start + 1, text.len() as u32)];
    assert_eq!(spans(&query.filter_matches(&mut input, tail)), vec![(start, text.len() as u32)]);
}

#[test]
fn predicate_names_set_negated_and_match_all() {
    let table = [
        ("eq?", false, true),
        ("not-eq?", true, true),
        ("any-eq?", false, false),
        ("any-not-eq?", true, false),
        ("match?", false, true),
        ("not-match?", true, true),
        ("any-match?", false, false),
        ("any-not-match?", true, false),
        ("any-of?", false, false),
        ("not-any-of?", true, false),
    ];
    for (name, negated, match_all) in table {
        let query = var_query(name, &["x"]);
        let predicates = query.pattern_text_predicates(Pattern(0));
        assert_eq!(predicates.len(), 1, "{name}");
        assert_eq!(predicates[0].capture, Capture(0), "{name}");
        assert_eq!(predicates[0].negated, negated, "{name}");
        assert_eq!(predicates[0].match_all, match_all, "{name}");
    }
}

/// `((identifier) @a (identifier) @b (#NAME @a @b))`, compiled.
fn pair_query(name: &str) -> Query {
    let mut t = tables();
    let steps = vec![string(&mut t, name), capture(&mut t, "a"), capture(&mut t, "b"), done()];
    pattern(&mut t, 0, steps);
    Query::new(Ok(t.data), "((identifier) @a (identifier) @b)", accept_all).unwrap()
}

fn pair_holds(query: &Query, text: &str, nodes: Vec<MatchedNode>) -> bool {
    let rope = Rope::from_str(text);
    let mut input = RopeInput::new(rope.slice(..));
    query.match_satisfies(&mut input, Pattern(0), &nodes)
}

#[test]
fn eq_on_two_captures_compares_their_texts() {
    let query = pair_query("eq?");
    assert!(pair_holds(&query, "x x", vec![node(0, 0, 1), node(1, 2, 3)]));
    assert!(!pair_holds(&query, "x y", vec![node(0, 0, 1), node(1, 2, 3)]));
}

#[test]
fn eq_on_two_captures_wants_equally_many_nodes() {
    let query = pair_query("eq?");
    let text = "x x x";
    assert!(!pair_holds(&query, text, vec![node(0, 0, 1), node(1, 2, 3), node(0, 4, 5)]));
    assert!(!pair_holds(&query, text, vec![node(0, 0, 1), node(1, 2, 3), node(1, 4, 5)]));
    assert!(pair_holds(
        &query,
        "x x y y",
        vec![node(0, 0, 1), node(1, 2, 3), node(0, 4, 5), node(1, 6, 7)]
    ));
    assert!(!pair_holds(
        &query,
        "x x y z",
        vec![node(0, 0, 1), node(1, 2, 3), node(0, 4, 5), node(1, 6, 7)]
    ));
    // No node at all: every pair is equal, and there are equally many.
    assert!(pair_holds(&query, text, vec![]));
}

#[test]
fn any_eq_on_two_captures_wants_one_equal_pair() {
    let query = pair_query("any-eq?");
    assert!(pair_holds(
        &query,
        "x q y y",
        vec![node(0, 0, 1), node(1, 2, 3), node(0, 4, 5), node(1, 6, 7)]
    ));
    assert!(!pair_holds(&query, "x q", vec![node(0, 0, 1), node(1, 2, 3)]));
    assert!(pair_holds(&query, "x x x", vec![node(0, 0, 1), node(1, 2, 3), node(0, 4, 5)]));
    assert!(!pair_holds(&query, "x x x", vec![]));
    let query = pair_query("not-eq?");
    assert!(pair_holds(&query, "x q", vec![node(0, 0, 1), node(1, 2, 3)]));
    assert!(!pair_holds(&query, "x x", vec![node(0, 0, 1), node(1, 2, 3)]));
}

#[test]
fn all_and_any_over_the_nodes_of_one_capture() {
    let text = "foo foo bar";
    let all = vec![node(0, 0, 3), node(0, 4, 7)];
    let mixed = vec![node(0, 0, 3), node(0, 8, 11)];
    let none = vec![node(0, 8, 11)];
    let empty: Vec<MatchedNode> = vec![];
    let cases = [
        ("eq?", [true, false, false, true]),
        ("not-eq?", [false, false, true, true]),
        ("any-eq?", [true, true, false, false]),
        ("any-not-eq?", [false, true, true, false]),
    ];
    for (name, expected) in cases {
        let query = var_query(name, &["foo"]);
        let got = [
            pair_holds(&query, text, all.clone()),
            pair_holds(&query, text, mixed.clone()),
            pair_holds(&query, text, none.clone()),
            pair_holds(&query, text, empty.clone()),
        ];
        assert_eq!(got, expected, "{name}");
    }
}

#[test]
fn nodes_of_other_captures_do_not_count() {
    let query = var_query("eq?", &["foo"]);
    assert!(pair_holds(&query, "foo bar", vec![node(0, 0, 3), node(1, 4, 7)]));
}

#[test]
fn text_predicates_lie_in_the_ranges_of_their_patterns() {
    let mut t = tables();
    let first = vec![
        string(&mut t, "eq?"),
        capture(&mut t, "a"),
        string(&mut t, "x"),
        done(),
        string(&mut t, "set!"),
        string(&mut t, "key"),
        done(),
        string(&mut t, "match?"),
        capture(&mut t, "a"),
        string(&mut t, "y+"),
        done(),
    ];
    pattern(&mut t, 0, first);
    pattern(&mut t, 10, Vec::new());
    let third = vec![string(&mut t, "any-of?"), capture(&mut t, "b"), string(&mut t, "z"), done()];
    pattern(&mut t, 20, third);
    let source = "(a) @a    (b)       (c) @b";
    let query = Query::new(Ok(t.data), source, accept_all).unwrap();
    assert_eq!(query.pattern_count(), 3);
    assert_eq!(query.patterns(), vec![Pattern(0), Pattern(1), Pattern(2)]);
    assert_eq!(query.pattern_text_predicates(Pattern(0)).len(), 2);
    assert_eq!(query.pattern_text_predicates(Pattern(1)).len(), 0);
    assert_eq!(query.pattern_text_predicates(Pattern(2)).len(), 1);
    assert_eq!(query.pattern_text_predicates(Pattern(2))[0].capture, Capture(1));
    assert_eq!(query.start_byte_for_pattern(Pattern(2)), 20);
    assert_eq!(query.pattern_user_predicates(Pattern(0)).len(), 1);
    assert_eq!(query.pattern_user_predicates(Pattern(2)).len(), 0);
}

#[test]
fn captures_by_index_and_by_name() {
    let mut t = tables();
    capture(&mut t, "var");
    capture(&mut t, "local.scope");
    capture(&mut t, "function");
    string(&mut t, "text");
    pattern(&mut t, 0, Vec::new());
    let mut query = Query::new(Ok(t.data), "(a) @var", accept_all).unwrap();
    assert_eq!(query.num_captures(), 3);
    assert_eq!(query.capture_name(Capture(2)), "function");
    assert_eq!(Capture(1).name(&query), "local.scope");
    assert_eq!(Capture(1).idx(), 1);
    assert_eq!(Pattern(7).idx(), 7);
    assert_eq!(Pattern::sentinel(), Pattern(u32::MAX));
    assert_eq!(QueryStr(0).get(&query), "text");
    assert_eq!(query.get_capture("function"), Some(Capture(2)));
    assert_eq!(query.get_capture("missing"), None);
    assert_eq!(
        query.captures(),
        vec![(Capture(0), "var"), (Capture(1), "local.scope"), (Capture(2), "function")]
    );
    assert!(!query.is_capture_disabled(Capture(1)));
    query.disable_capture("local.scope");
    assert!(query.is_capture_disabled(Capture(1)));
    assert!(!query.is_capture_disabled(Capture(0)));
    query.disable_capture("missing");
    assert!(!query.is_capture_disabled(Capture(2)));
}

fn invalid(steps_of: impl Fn(&mut Tables) -> Vec<PredicateStep>) -> String {
    let mut t = tables();
    let steps = steps_of(&mut t);
    pattern(&mut t, 4, steps);
    let source = "(a)\n(b) @c\n(d)";
    match Query::new(Ok(t.data), source, accept_all) {
        Err(ParseError::InvalidPredicate { message, location }) => {
            assert_eq!(location, ParserErrorLocation::new(source, 4, 0));
            message
        }
        other => panic!("expected an invalid predicate, got {other:?}"),
    }
}

#[test]
fn invalid_predicates_say_what_is_wrong() {
    assert_eq!(
        invalid(|t| vec![string(t, "eq?"), capture(t, "c"), done()]),
        "expected 2 arguments for #eq?, got 1"
    );
    assert_eq!(
        invalid(|t| vec![
            string(t, "match?"),
            capture(t, "c"),
            string(t, "a"),
            string(t, "b"),
            done()
        ]),
        "expected 2 arguments for #match?, got 3"
    );
    assert_eq!(
        invalid(|t| vec![string(t, "eq?"), string(t, "lit"), capture(t, "c"), done()]),
        "0. argument to #eq? expected a capture, got literal \"lit\""
    );
    assert_eq!(
        invalid(|t| vec![string(t, "match?"), capture(t, "c"), capture(t, "c"), done()]),
        "1. argument to #match? must be a literal, got capture @\"c\""
    );
    assert_eq!(
        invalid(|t| vec![string(t, "any-of?"), done()]),
        "expected at least 1 arguments for #any-of?, got 0"
    );
    assert_eq!(
        invalid(|t| vec![
            string(t, "any-of?"),
            capture(t, "c"),
            string(t, "a"),
            capture(t, "c"),
            capture(t, "d"),
            done()
        ]),
        "2. argument to #any-of? must be a literal, got capture @\"c\""
    );
    assert_eq!(
        invalid(|t| vec![string(t, "set!"), done()]),
        "expected at least 1 arguments for #set!, got 0"
    );
    assert_eq!(
        invalid(|t| vec![string(t, "is?"), string(t, "a"), string(t, "b"), string(t, "c"), done()]),
        "expected at most 2 arguments for #is?, got 3"
    );
    assert_eq!(
        invalid(|t| vec![string(t, "is-not?"), capture(t, "c"), done()]),
        "0. argument to #is-not? must be a literal, got capture @\"c\""
    );
    assert_eq!(
        invalid(|t| vec![capture(t, "c"), string(t, "x"), done()]),
        "expected predicate to start with a function name. Got @c."
    );
    assert_eq!(
        invalid(|t| vec![string(t, "match?"), capture(t, "c"), string(t, "a("), done()]),
        "invalid regex 'a(', error parsing pattern 0"
    );
    assert_eq!(
        invalid(|t| vec![string(t, "eq?"), string(t, "q\"uote"), string(t, "x"), done()]),
        "0. argument to #eq? expected a capture, got literal \"q\\\"uote\""
    );
}

#[test]
fn the_first_invalid_predicate_decides() {
    assert_eq!(
        invalid(|t| vec![
            string(t, "eq?"),
            capture(t, "c"),
            string(t, "x"),
            done(),
            string(t, "eq?"),
            done(),
            string(t, "match?"),
            done()
        ]),
        "expected 2 arguments for #eq?, got 0"
    );
}

#[test]
fn empty_predicates_between_done_steps_are_skipped() {
    let mut t = tables();
    let steps = vec![
        done(),
        done(),
        string(&mut t, "eq?"),
        capture(&mut t, "c"),
        string(&mut t, "x"),
        done(),
        done(),
        string(&mut t, "eq?"),
        capture(&mut t, "c"),
        string(&mut t, "y"),
    ];
    pattern(&mut t, 0, steps);
    let query = Query::new(Ok(t.data), "(a) @c", accept_all).unwrap();
    assert_eq!(query.pattern_text_predicates(Pattern(0)).len(), 2);
}

fn user_predicates(steps_of: impl Fn(&mut Tables) -> Vec<PredicateStep>) -> Vec<String> {
    let mut t = tables();
    let steps = steps_of(&mut t);
    pattern(&mut t, 0, steps);
    let seen = std::cell::RefCell::new(Vec::new());
    let query = Query::new(Ok(t.data), "(a) @c", |pattern, predicate| {
        assert_eq!(pattern, Pattern(0));
        seen.borrow_mut().push(predicate.to_string());
        Ok(())
    })
    .unwrap();
    assert_eq!(query.pattern_text_predicates(Pattern(0)).len(), 0);
    let again: Vec<String> =
        query.pattern_user_predicates(Pattern(0)).iter().map(|p| p.to_string()).collect();
    assert_eq!(again, *seen.borrow());
    seen.into_inner()
}

#[test]
fn user_predicates_reach_the_callback() {
    assert_eq!(
        user_predicates(|t| vec![string(t, "set!"), string(t, "key"), done()]),
        vec!["(#set! key)"]
    );
    assert_eq!(
        user_predicates(|t| vec![string(t, "set!"), string(t, "key"), string(t, "val"), done()]),
        vec!["(#set! key val)"]
    );
    assert_eq!(
        user_predicates(|t| vec![string(t, "is?"), string(t, "local"), done()]),
        vec![" (#is? local)"]
    );
    assert_eq!(
        user_predicates(|t| vec![string(t, "is-not?"), string(t, "k"), string(t, "v"), done()]),
        vec![" (#is-not? k v)"]
    );
    assert_eq!(
        user_predicates(|t| vec![
            string(t, "any-of?"),
            string(t, "injection.parent-layer"),
            string(t, "gleam"),
            string(t, "zig"),
            done()
        ]),
        vec!["(#any-of? injection.parent-layer \"gleam\", \"zig\")"]
    );
    assert_eq!(
        user_predicates(|t| vec![string(t, "not-any-of?"), string(t, "v"), done()]),
        vec!["(#not-any-of? v )"]
    );
    assert_eq!(
        user_predicates(|t| vec![string(t, "has-parent?"), capture(t, "c"), string(t, "x"), done()]),
        vec!["#has-parent?"]
    );
    assert_eq!(
        user_predicates(|t| vec![
            string(t, "set!"),
            string(t, "a"),
            done(),
            string(t, "strip!"),
            done(),
            string(t, "is?"),
            string(t, "b"),
            done()
        ]),
        vec!["(#set! a)", "#strip!", " (#is? b)"]
    );
}

#[test]
fn other_predicates_keep_their_arguments() {
    let mut t = tables();
    let steps = vec![string(&mut t, "has-parent?"), capture(&mut t, "c"), string(&mut t, "x"), done()];
    pattern(&mut t, 0, steps);
    let data = t.data;
    let steps = data.predicate_steps[0].clone();
    let predicate = Predicate::new(&data, &steps[..3]).unwrap();
    assert_eq!(predicate.name(), "has-parent?");
    assert_eq!(predicate.num_args(), 2);
    assert_eq!(predicate.arg(0), PredicateArg::Capture(Capture(0)));
    assert_eq!(predicate.arg(1), PredicateArg::String(QueryStr(1)));
    assert_eq!(
        predicate.args(),
        vec![PredicateArg::Capture(Capture(0)), PredicateArg::String(QueryStr(1))]
    );
    assert_eq!(predicate.capture_arg(0).unwrap(), Capture(0));
    assert_eq!(predicate.query_str_arg(1).unwrap(), QueryStr(1));
    assert_eq!(predicate.str_arg(1).unwrap(), "x");
    assert!(predicate.check_arg_count(2).is_ok());
    assert!(predicate.check_min_arg_count(2).is_ok());
    assert!(predicate.check_max_arg_count(2).is_ok());
    assert_eq!(
        predicate.check_arg_count(3).unwrap_err().to_string(),
        "expected 3 arguments for #has-parent?, got 2"
    );
    assert_eq!(
        predicate.check_min_arg_count(3).unwrap_err().to_string(),
        "expected at least 3 arguments for #has-parent?, got 2"
    );
    assert_eq!(
        predicate.check_max_arg_count(1).unwrap_err().to_string(),
        "expected at most 1 arguments for #has-parent?, got 2"
    );
    assert_eq!(
        predicate.capture_arg(1).unwrap_err().to_string(),
        "1. argument to #has-parent? expected a capture, got literal \"x\""
    );
    assert_eq!(
        predicate.str_arg(0).unwrap_err().to_string(),
        "0. argument to #has-parent? must be a literal, got capture @\"c\""
    );
}

#[test]
fn steps_become_arguments() {
    let step = PredicateStep { kind: PredicateStepKind::Capture, value_id: 3 };
    assert_eq!(PredicateArg::try_from(step), Ok(PredicateArg::Capture(Capture(3))));
    let step = PredicateStep { kind: PredicateStepKind::String, value_id: 4 };
    assert_eq!(PredicateArg::try_from(step), Ok(PredicateArg::String(QueryStr(4))));
    assert_eq!(PredicateArg::try_from(done()), Err(()));
}

fn refused(source: &str, start: u32, error: impl Fn(UserPredicate) -> InvalidPredicateError) -> ParseError {
    let mut t = tables();
    let steps = vec![
        string(&mut t, "set!"),
        string(&mut t, "injection.language"),
        string(&mut t, "rust"),
        done(),
        string(&mut t, "frobnicate!"),
        capture(&mut t, "c"),
        done(),
    ];
    pattern(&mut t, 0, Vec::new());
    pattern(&mut t, start, steps);
    Query::new(Ok(t.data), source, |pattern, predicate| {
        assert_eq!(pattern, Pattern(1));
        match predicate {
            UserPredicate::SetProperty { .. } => Ok(()),
            other => Err(error(other)),
        }
    })
    .unwrap_err()
}

#[test]
fn unknown_predicate_is_located_at_its_name() {
    let source = "(a)\n((b) @c\n (#set! injection.language \"rust\")\n (#frobnicate! @c))";
    let error = refused(source, 4, InvalidPredicateError::unknown);
    let at = source.find("#frobnicate!").unwrap();
    assert_eq!(
        error,
        ParseError::InvalidPredicate {
            message: "unknown predicate #frobnicate!".to_string(),
            location: ParserErrorLocation::new(source, at, "#frobnicate!".len()),
        }
    );
    match error {
        ParseError::InvalidPredicate { location, .. } => {
            assert_eq!((location.line, location.column, location.len), (4, 3, 12));
            assert_eq!(location.line_content, " (#frobnicate! @c))");
        }
        _ => unreachable!(),
    }
}

#[test]
fn unknown_property_is_located_at_its_name() {
    let source = "(a)\n((b) @c\n (#set! injection.language \"rust\"))";
    let mut t = tables();
    let steps = vec![
        string(&mut t, "set!"),
        string(&mut t, "injection.language"),
        string(&mut t, "rust"),
        done(),
    ];
    pattern(&mut t, 0, Vec::new());
    pattern(&mut t, 4, steps);
    let error = Query::new(Ok(t.data), source, |_, predicate| {
        Err(InvalidPredicateError::unknown(predicate))
    })
    .unwrap_err();
    let at = source.find("injection.language").unwrap();
    assert_eq!(
        error,
        ParseError::InvalidPredicate {
            message: "unknown property 'injection.language'".to_string(),
            location: ParserErrorLocation::new(source, at, "injection.language".len()),
        }
    );
}

#[test]
fn unknown_names_are_sought_behind_the_start_of_the_pattern() {
    // The name occurs in an earlier pattern too.
    let source = "((x) (#frobnicate! @c))\n((b) @c (#frobnicate! @c))";
    let start = source.find("((b)").unwrap();
    let error = refused(source, start as u32, InvalidPredicateError::unknown);
    let at = source.rfind("#frobnicate!").unwrap();
    match error {
        ParseError::InvalidPredicate { location, .. } => {
            assert_eq!(location, ParserErrorLocation::new(source, at, 12));
            assert_eq!((location.line, location.column), (2, 10));
        }
        other => panic!("{other:?}"),
    }
}

#[test]
fn other_errors_are_located_at_the_start_of_the_pattern() {
    let source = "(a)\n((b) @c (#frobnicate! @c))";
    let error = refused(source, 4, |_| InvalidPredicateError::from("no".to_string()));
    assert_eq!(
        error,
        ParseError::InvalidPredicate {
            message: "no".to_string(),
            location: ParserErrorLocation::new(source, 4, 0),
        }
    );
}

#[test]
fn unknown_makes_errors_of_user_predicates() {
    let e = InvalidPredicateError::unknown(UserPredicate::SetProperty { key: "k", val: None });
    assert_eq!(e.to_string(), "unknown property 'k'");
    let e = InvalidPredicateError::unknown(UserPredicate::IsPropertySet {
        negate: true,
        key: "p",
        val: Some("v"),
    });
    assert_eq!(e.to_string(), "unknown property 'p'");
    let e = InvalidPredicateError::unknown(UserPredicate::IsAnyOf {
        negated: false,
        value: "v",
        values: vec!["a"],
    });
    assert_eq!(e.to_string(), "unknown predicate #v");
}

fn failure(kind: RawQueryError, offset: u32) -> Result<QueryData, CompileFailure> {
    Err(CompileFailure { kind, offset })
}

#[test]
fn compile_failures_become_parse_errors() {
    let source = "(a)\n(müll-node field: (b) @cap-ture\n";
    let at = source.find("müll").unwrap();
    let error = Query::new(failure(RawQueryError::NodeType, at as u32), source, accept_all).unwrap_err();
    assert_eq!(
        error,
        ParseError::InvalidNodeType {
            node: "müll-node".to_string(),
            location: ParserErrorLocation::new(source, at, 9),
        }
    );
    let at = source.find("field").unwrap();
    let error = Query::new(failure(RawQueryError::Field, at as u32), source, accept_all).unwrap_err();
    assert_eq!(
        error,
        ParseError::InvalidFieldName {
            field: "field".to_string(),
            location: ParserErrorLocation::new(source, at, 5),
        }
    );
    let at = source.find("cap-ture").unwrap();
    let error = Query::new(failure(RawQueryError::Capture, at as u32), source, accept_all).unwrap_err();
    assert_eq!(
        error,
        ParseError::InvalidCaptureName {
            capture: "cap-ture".to_string(),
            location: ParserErrorLocation::new(source, at, 8),
        }
    );
    let error = Query::new(failure(RawQueryError::Syntax, 5), source, accept_all).unwrap_err();
    assert_eq!(error, ParseError::SyntaxError(ParserErrorLocation::new(source, 5, 0)));
    let error = Query::new(failure(RawQueryError::Structure, 4), source, accept_all).unwrap_err();
    assert_eq!(error, ParseError::ImpossiblePattern(ParserErrorLocation::new(source, 4, 0)));
}

#[test]
fn the_word_of_a_failure_may_be_empty() {
    let source = "(a) (";
    let error = Query::new(failure(RawQueryError::NodeType, 5), source, accept_all).unwrap_err();
    assert_eq!(
        error,
        ParseError::InvalidNodeType {
            node: String::new(),
            location: ParserErrorLocation::new(source, 5, 0),
        }
    );
}

#[test]
fn every_match_that_is_kept_satisfies_its_predicates() {
    let query = var_query("any-of?", &["foo", "bar"]);
    let text = "foo baz bar qux foo";
    let rope = Rope::from_str(text);
    let mut input = RopeInput::new(rope.slice(..));
    let kept = query.filter_matches(&mut input, words(text));
    assert_eq!(kept.len(), 3);
    for m in &kept {
        assert!(query.match_satisfies(&mut input, m.pattern, &m.matched_nodes));
    }
    let dropped: Vec<QueryMatch> = words(text)
        .into_iter()
        .filter(|m| !kept.iter().any(|k| k.matched_nodes[0].node == m.matched_nodes[0].node))
        .collect();
    assert_eq!(dropped.len(), 2);
    for m in &dropped {
        assert!(!query.match_satisfies(&mut input, m.pattern, &m.matched_nodes));
    }
}

#[test]
fn compiling_twice_gives_the_same_query() {
    let build = || {
        let mut t = tables();
        let steps = vec![
            string(&mut t, "eq?"),
            capture(&mut t, "a"),
            string(&mut t, "x"),
            done(),
            string(&mut t, "any-of?"),
            capture(&mut t, "a"),
            string(&mut t, "y"),
            string(&mut t, "z"),
            done(),
        ];
        pattern(&mut t, 0, steps);
        Query::new(Ok(t.data), "(a) @a", accept_all).unwrap()
    };
    let (one, two) = (build(), build());
    assert_eq!(one.captures(), two.captures());
    assert_eq!(one.pattern_count(), two.pattern_count());
    assert_eq!(
        format!("{:?}", one.pattern_text_predicates(Pattern(0))),
        format!("{:?}", two.pattern_text_predicates(Pattern(0)))
    );
}

#[test]
fn parse_errors_are_written_with_their_location() {
    let source = "(a)\n(b) @c\n(d)";
    let at = ParserErrorLocation::new(source, 5, 1);
    let place = "  --> 2:2\n   |\n 1 | (a)\n 2 | (b) @c\n   |  ^\n 3 | (d)\n   |\n";
    assert_eq!(at.to_string(), place);
    assert_eq!(ParseError::UnexpectedEof.to_string(), "unexpected EOF");
    assert_eq!(
        ParseError::SyntaxError(at.clone()).to_string(),
        format!("invalid query syntax\n{place}")
    );
    assert_eq!(
        ParseError::ImpossiblePattern(at.clone()).to_string(),
        format!("impossible pattern\n{place}")
    );
    assert_eq!(
        ParseError::InvalidNodeType { node: "b".to_string(), location: at.clone() }.to_string(),
        format!("invalid node type \"b\"\n{place}")
    );
    assert_eq!(
        ParseError::InvalidFieldName { field: "f\t".to_string(), location: at.clone() }.to_string(),
        format!("invalid field name \"f\\t\"\n{place}")
    );
    assert_eq!(
        ParseError::InvalidCaptureName { capture: "c".to_string(), location: at.clone() }
            .to_string(),
        format!("invalid capture name \"c\"\n{place}")
    );
    assert_eq!(
        ParseError::InvalidPredicate { message: "no".to_string(), location: at }.to_string(),
        format!("no\n{place}")
    );
}

#[test]
fn invalid_predicate_errors_are_written() {
    let e = InvalidPredicateError::UnknownProperty { property: "p".to_string() };
    assert_eq!(e.to_string(), "unknown property 'p'");
    let e = InvalidPredicateError::UnknownPredicate { name: "n".to_string() };
    assert_eq!(e.to_string(), "unknown predicate #n");
    let e = InvalidPredicateError::Other { msg: "m".to_string() };
    assert_eq!(e.to_string(), "m");
}

#[test]
fn query_data_is_checked_against_its_source() {
    let source = "(é) @a (b)";
    let build = |starts: Vec<u32>, steps: Vec<Vec<PredicateStep>>| QueryData {
        capture_names: vec!["a".to_string()],
        strings: vec!["eq?".to_string(), "x".to_string()],
        pattern_starts: starts,
        predicate_steps: steps,
    };
    let capture = |id| PredicateStep { kind: PredicateStepKind::Capture, value_id: id };
    let string = |id| PredicateStep { kind: PredicateStepKind::String, value_id: id };
    assert!(build(vec![], vec![]).check(source));
    assert!(build(vec![0, 8], vec![vec![string(0), capture(0), string(1), done()], vec![]])
        .check(source));
    // A pattern may start behind the source, but not within a character.
    assert!(build(vec![12], vec![vec![]]).check(source));
    assert!(!build(vec![2], vec![vec![]]).check(source));
    // Each pattern has its steps, and each step names what the query has.
    assert!(!build(vec![0], vec![]).check(source));
    assert!(!build(vec![0], vec![vec![capture(1)]]).check(source));
    assert!(!build(vec![0], vec![vec![string(2)]]).check(source));
    assert!(build(vec![0], vec![vec![PredicateStep { kind: PredicateStepKind::Done, value_id: 9 }]])
        .check(source));
}

#[test]
fn compile_failures_are_checked_against_the_source() {
    let source = "(é)";
    let at = |kind, offset| CompileFailure { kind, offset };
    assert!(at(RawQueryError::NodeType, 1).check(source));
    assert!(at(RawQueryError::Field, 4).check(source));
    assert!(!at(RawQueryError::Capture, 2).check(source));
    assert!(!at(RawQueryError::Syntax, 2).check(source));
    assert!(!at(RawQueryError::NodeType, 5).check(source));
    assert!(at(RawQueryError::Syntax, 5).check(source));
    assert!(at(RawQueryError::Structure, 9).check(source));
}

#[test]
fn nodes_that_no_predicate_looks_at_may_lie_anywhere() {
    // The node of the other capture ends inside `é` and behind the text: the
    // predicate on `var` does not look at it.
    let query = var_query("eq?", &["foo"]);
    assert!(pair_holds(&query, "foo é", vec![node(0, 0, 3), node(1, 4, 5)]));
    assert!(pair_holds(&query, "foo é", vec![node(0, 0, 3), node(1, 4, 50)]));
    assert!(!pair_holds(&query, "fox é", vec![node(0, 0, 3), node(1, 4, 5)]));
}

#[test]
fn a_node_inside_a_character_is_compared_by_its_bytes() {
    // The node of `var` lies within the text and ends inside `é`: its bytes
    // are those of no string.
    let query = var_query("eq?", &["é"]);
    assert!(pair_holds(&query, "é", vec![node(0, 0, 2)]));
    assert!(!pair_holds(&query, "é", vec![node(0, 0, 1)]));
    let query = var_query("any-of?", &["a", "é"]);
    assert!(!pair_holds(&query, "é", vec![node(0, 1, 2)]));
}
