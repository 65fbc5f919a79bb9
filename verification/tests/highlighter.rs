use ropey::Rope;
use tree_house::config::{LanguageConfig, LanguageLoader, Languages};
use tree_house::definition_map::DefinitionMap;
use tree_house::shared::SharedDefinitions;
use tree_house::highlight_query::{Highlight, HighlightQuery};
use tree_house::highlighter::{HighlightEvent, HighlightList, Highlighter};
use tree_house::locals::{Locals, Scope};
use tree_house::predicate::{PredicateStep, PredicateStepKind};
use tree_house::parse_error::ParseError;
use tree_house::query::{Capture, Pattern, QueryData};
use tree_house::query_iter::QueryIterEvent;
use tree_house::syntax::{Injection, Language, Layer, LayerInfo, Syntax};
use tree_house::text_predicate::MatchedNode;
use tree_house::{Point, Range};

fn span(start: u32, end: u32) -> Range {
    Range {
        start_point: Point { row: 0, col: start },
        end_point: Point { row: 0, col: end },
        start_byte: start,
        end_byte: end,
    }
}

fn matched(pattern: u32, capture: u32, start: u32, end: u32) -> QueryIterEvent {
    QueryIterEvent::Match(MatchedNode {
        node: span(start, end),
        capture: Capture(capture),
        pattern: Pattern(pattern),
    })
}

fn injection(layer: u32, start: u32, end: u32, combined: bool) -> Injection {
    Injection { layer: Layer(layer), range: span(start, end), combined }
}

fn enter(layer: u32, start: u32, end: u32, combined: bool) -> QueryIterEvent {
    QueryIterEvent::EnterInjection(injection(layer, start, end, combined))
}

fn exit(layer: u32, start: u32, end: u32, combined: bool, finished: bool) -> QueryIterEvent {
    QueryIterEvent::ExitInjection { injection: injection(layer, start, end, combined), finished }
}

fn step(kind: PredicateStepKind, value_id: u32) -> PredicateStep {
    PredicateStep { kind, value_id }
}

/// A highlight query with the given captures, one pattern for each; the
/// patterns listed hold `(#is-not? local)`.
fn highlight_query(captures: &[&str], non_local: &[usize]) -> HighlightQuery {
    let mut data = QueryData {
        capture_names: captures.iter().map(|c| c.to_string()).collect(),
        strings: vec!["is-not?".to_string(), "local".to_string()],
        pattern_starts: Vec::new(),
        predicate_steps: Vec::new(),
    };
    let mut source = String::new();
    for (i, capture) in captures.iter().enumerate() {
        data.pattern_starts.push(source.len() as u32);
        if non_local.contains(&i) {
            source.push_str(&format!("((identifier) @{capture} (#is-not? local))\n"));
            data.predicate_steps.push(vec![
                step(PredicateStepKind::String, 0),
                step(PredicateStepKind::String, 1),
                step(PredicateStepKind::Done, 0),
            ]);
        } else {
            source.push_str(&format!("(identifier) @{capture}\n"));
            data.predicate_steps.push(Vec::new());
        }
    }
    HighlightQuery::new(Ok(data), &source, "").unwrap()
}

/// Captures get the highlights listed, in order.
fn config(captures: &[&str], highlights: &[u32], non_local: &[usize]) -> LanguageConfig {
    let query = highlight_query(captures, non_local);
    let table: Vec<(String, u32)> =
        captures.iter().map(|c| c.to_string()).zip(highlights.iter().copied()).collect();
    let configured = query.configure(&|name: &str| {
        let found = table.iter().find(|(capture, _)| capture == name);
        Highlight(found.map_or(u32::MAX, |(_, h)| *h))
    });
    assert_eq!(configured.len(), captures.len());
    assert_eq!(query.highlights(), configured);
    LanguageConfig {
        highlight_query: query,
        local_definition_highlights: SharedDefinitions::new(DefinitionMap::new()),
    }
}

fn one_layer(locals: Locals) -> Syntax {
    Syntax {
        layers: vec![LayerInfo { language: Language(0), locals, parent: None, injections: Vec::new() }],
        root: Layer(0),
    }
}

fn two_layers() -> Syntax {
    Syntax {
        layers: vec![
            LayerInfo {
                language: Language(0),
                locals: Locals::new(),
                parent: None,
                injections: Vec::new(),
            },
            LayerInfo {
                language: Language(1),
                locals: Locals::new(),
                parent: Some(Layer(0)),
                injections: Vec::new(),
            },
        ],
        root: Layer(0),
    }
}

fn collect(mut list: HighlightList) -> Vec<u32> {
    let mut all = Vec::new();
    while let Some(h) = list.next() {
        all.push(h.0);
    }
    all
}

/// What a pass hands out: the byte of each step, whether the highlights
/// were refreshed, and the highlights handed out. Where `follow` is set, a
/// caller that keeps the highlights handed out must hold what is in force
/// after each step.
fn run_with(highlighter: &mut Highlighter<Languages>, follow: bool) -> Vec<(u32, bool, Vec<u32>)> {
    let mut steps = Vec::new();
    let mut shown: Vec<u32> = Vec::new();
    while highlighter.next_event_offset() != u32::MAX {
        let pos = highlighter.next_event_offset();
        let (refresh, handed) = match highlighter.advance() {
            HighlightEvent::RefreshHighlights(list) => (true, collect(list)),
            HighlightEvent::PushHighlights(list) => (false, collect(list)),
        };
        // What a caller holds after the step is what is in force.
        if refresh {
            shown = handed.clone();
        } else {
            shown.extend(handed.iter().copied());
        }
        if follow {
            assert_eq!(shown, collect(highlighter.active_highlights()), "at {pos}");
        }
        steps.push((pos, refresh, handed));
        assert!(steps.len() < 1000);
    }
    assert_eq!(collect(highlighter.active_highlights()), Vec::<u32>::new());
    steps
}

fn run(highlighter: &mut Highlighter<Languages>) -> Vec<(u32, bool, Vec<u32>)> {
    run_with(highlighter, true)
}

fn pass(
    text: &str,
    syntax: &Syntax,
    languages: &Languages,
    events: Vec<QueryIterEvent>,
) -> Vec<(u32, bool, Vec<u32>)> {
    let rope = Rope::from_str(text);
    let tables = languages.highlights();
    let maps = languages.definitions();
    let mut highlighter =
        Highlighter::checked(syntax, rope.slice(..), languages, tables, maps, events).unwrap();
    run(&mut highlighter)
}

const TEXT: &str = "0123456789abcdefghijklmnopqrstuvwxyz";

#[test]
fn no_events_no_steps() {
    let syntax = one_layer(Locals::new());
    let languages = Languages { names: Vec::new(), configs: vec![Some(config(&["a"], &[1], &[]))] };
    let rope = Rope::from_str(TEXT);
    let tables = languages.highlights();
    let highlighter = Highlighter::new(
        &syntax,
        rope.slice(..),
        &languages,
        tables,
        languages.definitions(),
        Vec::new(),
    );
    assert_eq!(highlighter.next_event_offset(), u32::MAX);
    assert_eq!(highlighter.active_highlights().len(), 0);
}

#[test]
fn highlight_lists_are_taken_from_either_end() {
    let syntax = one_layer(Locals::new());
    let languages = Languages { names: Vec::new(), configs: vec![Some(config(&["a", "b", "c"], &[1, 2, 3], &[]))] };
    let rope = Rope::from_str(TEXT);
    let events = vec![matched(0, 0, 0, 9), matched(1, 1, 0, 8), matched(2, 2, 0, 7)];
    let tables = languages.highlights();
    let mut highlighter = Highlighter::new(
        &syntax,
        rope.slice(..),
        &languages,
        tables,
        languages.definitions(),
        events,
    );
    match highlighter.advance() {
        HighlightEvent::PushHighlights(mut list) => {
            assert_eq!(list.len(), 3);
            assert_eq!(list.size_hint(), (3, Some(3)));
            assert_eq!(list.next_back(), Some(Highlight(3)));
            assert_eq!(list.next(), Some(Highlight(1)));
            assert_eq!(list.size_hint(), (1, Some(1)));
            assert_eq!(list.next_back(), Some(Highlight(2)));
            assert_eq!(list.next_back(), None);
            assert_eq!(list.next(), None);
        }
        HighlightEvent::RefreshHighlights(_) => panic!("nothing was in force before"),
    }
    assert_eq!(collect(highlighter.active_highlights()), vec![1, 2, 3]);
    assert_eq!(highlighter.next_event_offset(), 7);
}

#[test]
fn a_highlight_starts_and_ends() {
    let syntax = one_layer(Locals::new());
    let languages = Languages { names: Vec::new(), configs: vec![Some(config(&["a"], &[3], &[]))] };
    let steps = pass(TEXT, &syntax, &languages, vec![matched(0, 0, 2, 6)]);
    assert_eq!(steps, vec![(2, false, vec![3]), (6, true, vec![])]);
}

#[test]
fn nested_highlights_stack() {
    let syntax = one_layer(Locals::new());
    let languages = Languages { names: Vec::new(), configs: vec![Some(config(&["a", "b", "c"], &[1, 2, 3], &[]))] };
    let events = vec![
        matched(0, 0, 0, 20),
        matched(1, 1, 2, 10),
        matched(2, 2, 3, 5),
        matched(2, 2, 6, 10),
        matched(1, 1, 12, 20),
    ];
    let steps = pass(TEXT, &syntax, &languages, events);
    assert_eq!(
        steps,
        vec![
            (0, false, vec![1]),
            (2, false, vec![2]),
            (3, false, vec![3]),
            (5, true, vec![1, 2]),
            (6, false, vec![3]),
            (10, true, vec![1]),
            (12, false, vec![2]),
            (20, true, vec![]),
        ]
    );
}

#[test]
fn highlights_that_end_where_others_start() {
    let syntax = one_layer(Locals::new());
    let languages = Languages { names: Vec::new(), configs: vec![Some(config(&["a", "b"], &[1, 2], &[]))] };
    let events = vec![matched(0, 0, 0, 4), matched(1, 1, 4, 8)];
    let steps = pass(TEXT, &syntax, &languages, events);
    assert_eq!(steps, vec![(0, false, vec![1]), (4, true, vec![2]), (8, true, vec![])]);
}

#[test]
fn of_two_patterns_on_one_node_the_last_wins() {
    let syntax = one_layer(Locals::new());
    let languages = Languages { names: Vec::new(), configs: vec![Some(config(&["a", "b"], &[7, 9], &[]))] };
    let events = vec![matched(0, 0, 0, 5), matched(1, 1, 0, 5)];
    let steps = pass(TEXT, &syntax, &languages, events);
    assert_eq!(steps, vec![(0, false, vec![9]), (5, true, vec![])]);
}

#[test]
fn of_three_patterns_on_one_node_the_last_wins() {
    let syntax = one_layer(Locals::new());
    let languages = Languages { names: Vec::new(), configs: vec![Some(config(&["a", "b", "c"], &[7, 9, 4], &[]))] };
    let events = vec![matched(0, 0, 0, 30), matched(0, 0, 3, 5), matched(1, 1, 3, 5), matched(2, 2, 3, 5)];
    let steps = pass(TEXT, &syntax, &languages, events);
    assert_eq!(
        steps,
        vec![(0, false, vec![7]), (3, false, vec![4]), (5, true, vec![7]), (30, true, vec![])]
    );
}

#[test]
fn the_first_match_at_a_byte_replaces_nothing() {
    // The outer node ends where the inner one ends; the inner one is the
    // first to bring a highlight at its byte.
    let syntax = one_layer(Locals::new());
    let languages = Languages { names: Vec::new(), configs: vec![Some(config(&["a", "b"], &[1, 2], &[]))] };
    let events = vec![matched(0, 0, 0, 5), matched(1, 1, 3, 5)];
    let steps = pass(TEXT, &syntax, &languages, events);
    assert_eq!(steps, vec![(0, false, vec![1]), (3, false, vec![2]), (5, true, vec![])]);
}

#[test]
fn a_capture_without_highlight_brings_none() {
    let syntax = one_layer(Locals::new());
    let languages = Languages { names: Vec::new(), configs: vec![Some(config(&["a", "quiet"], &[1], &[]))] };
    let events = vec![matched(1, 1, 0, 9), matched(0, 0, 2, 4)];
    let steps = pass(TEXT, &syntax, &languages, events);
    assert_eq!(steps, vec![(0, false, vec![]), (2, false, vec![1]), (4, true, vec![])]);
}

#[test]
fn a_later_match_without_highlight_takes_the_earlier_one_off() {
    let syntax = one_layer(Locals::new());
    let languages = Languages { names: Vec::new(), configs: vec![Some(config(&["a", "quiet"], &[1], &[]))] };
    let events = vec![matched(0, 0, 2, 4), matched(1, 1, 2, 4)];
    let steps = pass(TEXT, &syntax, &languages, events);
    assert_eq!(steps, vec![(2, false, vec![])]);
}

#[test]
fn taking_the_place_of_an_older_highlight_pushes_nothing() {
    // The outer node ends where the inner ones end. The second match at
    // byte 3 takes the first one off and brings nothing; the third then
    // takes the place of the outer highlight, which was in force before the
    // step. No highlight ended at the byte and as many are in force as
    // before: the step hands out what lies above them, which is nothing.
    let syntax = one_layer(Locals::new());
    let languages = Languages {
        names: Vec::new(),
        configs: vec![Some(config(&["a", "quiet", "c"], &[1, u32::MAX, 3], &[]))],
    };
    let events =
        vec![matched(0, 0, 0, 5), matched(0, 0, 3, 5), matched(1, 1, 3, 5), matched(2, 2, 3, 5)];
    let rope = Rope::from_str(TEXT);
    let mut highlighter = Highlighter::checked(
        &syntax,
        rope.slice(..),
        &languages,
        languages.highlights(),
        languages.definitions(),
        events,
    )
    .unwrap();
    assert!(matches!(highlighter.advance(), HighlightEvent::PushHighlights(_)));
    assert_eq!(highlighter.next_event_offset(), 3);
    match highlighter.advance() {
        HighlightEvent::PushHighlights(list) => assert_eq!(collect(list), Vec::<u32>::new()),
        HighlightEvent::RefreshHighlights(_) => panic!("no highlight ended at the byte"),
    }
    // The highlight in force is that of the last match, whatever the caller
    // holds.
    assert_eq!(collect(highlighter.active_highlights()), vec![3]);
    assert_eq!(highlighter.next_event_offset(), 5);
    match highlighter.advance() {
        HighlightEvent::RefreshHighlights(list) => assert_eq!(collect(list), Vec::<u32>::new()),
        HighlightEvent::PushHighlights(_) => panic!("a highlight ended at the byte"),
    }
    assert_eq!(highlighter.next_event_offset(), u32::MAX);
}

#[test]
fn a_step_that_leaves_fewer_highlights_refreshes() {
    // The second and the third match at byte 3 bring nothing: the second
    // takes the first one off, the third the outer highlight, which was in
    // force before the step. Nothing can be handed out on top of it.
    let syntax = one_layer(Locals::new());
    let languages = Languages {
        names: Vec::new(),
        configs: vec![Some(config(&["a", "quiet", "c"], &[1, u32::MAX, 3], &[]))],
    };
    let events =
        vec![matched(0, 0, 0, 5), matched(0, 0, 3, 5), matched(1, 1, 3, 5), matched(1, 1, 3, 5)];
    let steps = pass(TEXT, &syntax, &languages, events);
    assert_eq!(steps, vec![(0, false, vec![1]), (3, true, vec![])]);
}

#[test]
fn a_step_refreshes_where_a_highlight_ends_or_goes_dormant() {
    let syntax = two_layers();
    let languages = Languages {
        names: Vec::new(),
        configs: vec![Some(config(&["a"], &[1], &[])), Some(config(&["x"], &[2], &[]))],
    };
    let events = vec![
        matched(0, 0, 0, 4),
        matched(0, 0, 4, 30),
        enter(1, 5, 10, true),
        matched(0, 0, 6, 17),
        exit(1, 5, 10, true, false),
        enter(1, 15, 20, true),
        exit(1, 15, 20, true, true),
    ];
    let steps = pass(TEXT, &syntax, &languages, events);
    let refreshed: Vec<(u32, bool)> = steps.iter().map(|(pos, refresh, _)| (*pos, *refresh)).collect();
    assert_eq!(
        refreshed,
        vec![
            (0, false),
            // A highlight ends at the byte, and another starts there.
            (4, true),
            (5, false),
            (6, false),
            // The highlights of the injection go dormant.
            (10, true),
            (15, false),
            (17, true),
            // The injection is left for good: nothing changes.
            (20, false),
            (30, true),
        ]
    );
}

#[test]
fn an_injection_switches_the_language() {
    let syntax = two_layers();
    let languages = Languages {
        names: Vec::new(),
        configs: vec![Some(config(&["a"], &[1], &[])), Some(config(&["x"], &[10], &[]))],
    };
    let events = vec![
        matched(0, 0, 0, 3),
        enter(1, 5, 12, false),
        matched(0, 0, 6, 9),
        exit(1, 5, 12, false, true),
        matched(0, 0, 14, 16),
    ];
    let steps = pass(TEXT, &syntax, &languages, events);
    assert_eq!(
        steps,
        vec![
            (0, false, vec![1]),
            (3, true, vec![]),
            (5, false, vec![]),
            (6, false, vec![10]),
            (9, true, vec![]),
            (12, false, vec![]),
            (14, false, vec![1]),
            (16, true, vec![]),
        ]
    );
}

#[test]
fn highlights_of_a_combined_injection_go_dormant_and_return() {
    let syntax = two_layers();
    let languages = Languages {
        names: Vec::new(),
        configs: vec![Some(config(&["a"], &[1], &[])), Some(config(&["x"], &[2], &[]))],
    };
    let events = vec![
        matched(0, 0, 0, 20),
        enter(1, 5, 10, true),
        matched(0, 0, 6, 17),
        exit(1, 5, 10, true, false),
        enter(1, 15, 20, true),
        exit(1, 15, 20, true, true),
    ];
    let steps = pass(TEXT, &syntax, &languages, events);
    assert_eq!(
        steps,
        vec![
            (0, false, vec![1]),
            (5, false, vec![]),
            (6, false, vec![2]),
            // The injection ends: its highlight leaves, to return later.
            (10, true, vec![1]),
            // The layer is entered again: the highlight is back.
            (15, false, vec![2]),
            (17, true, vec![1]),
            (20, true, vec![]),
        ]
    );
}

#[test]
fn highlights_that_ended_do_not_go_dormant() {
    let syntax = two_layers();
    let languages = Languages {
        names: Vec::new(),
        configs: vec![Some(config(&["a"], &[1], &[])), Some(config(&["x"], &[2], &[]))],
    };
    let events = vec![
        matched(0, 0, 0, 20),
        enter(1, 5, 10, true),
        matched(0, 0, 5, 8),
        exit(1, 5, 10, true, false),
        enter(1, 15, 20, true),
        exit(1, 15, 20, true, true),
    ];
    let steps = pass(TEXT, &syntax, &languages, events);
    assert_eq!(
        steps,
        vec![
            (0, false, vec![1]),
            (5, false, vec![2]),
            (8, true, vec![1]),
            (10, true, vec![1]),
            (15, false, vec![]),
            (20, true, vec![]),
        ]
    );
}

#[test]
fn dormant_highlights_leave_what_was_in_force_before() {
    // Two highlights of the injected layer outlive the injection; the
    // highlight of the parent ends where the next event starts.
    let syntax = two_layers();
    let languages = Languages {
        names: Vec::new(),
        configs: vec![Some(config(&["a"], &[1], &[])), Some(config(&["x", "y"], &[2, 3], &[]))],
    };
    let events = vec![
        matched(0, 0, 0, 12),
        enter(1, 4, 8, true),
        matched(0, 0, 4, 30),
        matched(1, 1, 5, 25),
        exit(1, 4, 8, true, false),
        enter(1, 12, 30, true),
        exit(1, 12, 30, true, true),
    ];
    let steps = pass(TEXT, &syntax, &languages, events);
    assert_eq!(
        steps,
        vec![
            (0, false, vec![1]),
            (4, false, vec![2]),
            (5, false, vec![3]),
            // The parent's highlight ends at 12, where the next event
            // starts, and leaves with the injection.
            (8, true, vec![]),
            (12, false, vec![2, 3]),
            (25, true, vec![2]),
            (30, true, vec![]),
        ]
    );
}

fn locals_with_definition() -> Locals {
    // A function scope [10, 30) inside the root, which defines `x`.
    let mut locals = Locals::new();
    let function = locals.push_scope(Scope::root(), 10, 30, true);
    assert_eq!(function, Scope(1));
    locals.define(function, "bcd".to_string(), Capture(2));
    locals
}

/// A map that gives the first captures the highlights, in order.
fn definitions(highlights: &[u32]) -> DefinitionMap {
    let mut map = DefinitionMap::new();
    for (capture, highlight) in highlights.iter().enumerate() {
        assert_eq!(map.insert(Capture(capture as u32), Highlight(*highlight)), None);
    }
    map
}

fn locals_config() -> LanguageConfig {
    // Capture 0 is the reference to a local, capture 1 an identifier whose
    // pattern does not match locals.
    let config = config(&["local.reference", "variable", "other"], &[50, 60, 70], &[1]);
    config.local_definition_highlights.store(definitions(&[80, 81, 82]));
    config
}

#[test]
fn a_reference_takes_the_highlight_of_its_definition() {
    let syntax = one_layer(locals_with_definition());
    let languages = Languages { names: Vec::new(), configs: vec![Some(locals_config())] };
    // `bcd` is at bytes [11, 14) of the text.
    assert_eq!(&TEXT[11..14], "bcd");
    let steps = pass(TEXT, &syntax, &languages, vec![matched(0, 0, 11, 14)]);
    assert_eq!(steps, vec![(11, false, vec![82]), (14, true, vec![])]);
}

#[test]
fn a_reference_that_nothing_defines_is_dropped() {
    let syntax = one_layer(locals_with_definition());
    let languages = Languages { names: Vec::new(), configs: vec![Some(locals_config())] };
    // `cde` is not defined; `bcd` is not defined outside the function.
    let events = vec![matched(0, 0, 12, 15), matched(2, 2, 16, 18)];
    let steps = pass(TEXT, &syntax, &languages, events);
    assert_eq!(steps, vec![(12, false, vec![]), (16, false, vec![70]), (18, true, vec![])]);
    let text = "bcd 012345 bcd";
    let steps = pass(text, &syntax, &languages, vec![matched(0, 0, 0, 3)]);
    assert_eq!(steps, vec![(0, false, vec![])]);
}

#[test]
fn a_pattern_that_is_not_local_drops_references_to_locals() {
    let syntax = one_layer(locals_with_definition());
    let languages = Languages { names: Vec::new(), configs: vec![Some(locals_config())] };
    // The pattern of capture 1 holds `(#is-not? local)`.
    let events = vec![matched(1, 1, 11, 14), matched(1, 1, 15, 17)];
    let steps = pass(TEXT, &syntax, &languages, events);
    assert_eq!(steps, vec![(11, false, vec![]), (15, false, vec![60]), (17, true, vec![])]);
}

#[test]
fn a_definition_capture_without_highlight() {
    let syntax = one_layer(locals_with_definition());
    let config = locals_config();
    config.local_definition_highlights.store(definitions(&[80]));
    let languages = Languages { names: Vec::new(), configs: vec![Some(config)] };
    // The definition's capture has no highlight: the reference brings none.
    let steps = pass(TEXT, &syntax, &languages, vec![matched(0, 0, 11, 14)]);
    assert_eq!(steps, vec![(11, false, vec![])]);
}

#[test]
fn highlight_query_finds_its_captures() {
    let query = highlight_query(
        &["local.scope", "variable", "local.definition.var", "local.reference", "local.definition"],
        &[1, 3],
    );
    assert_eq!(query.local_reference_capture(), Some(Capture(3)));
    assert!(query.is_non_local(Pattern(1)));
    assert!(query.is_non_local(Pattern(3)));
    assert!(!query.is_non_local(Pattern(0)));
    assert!(!query.is_non_local(Pattern(5)));
    assert_eq!(query.highlights(), vec![Highlight::none(); 5]);
    let disabled: Vec<bool> =
        (0..5).map(|c| query.query().is_capture_disabled(Capture(c))).collect();
    assert_eq!(disabled, vec![true, false, true, false, false]);
    assert!(Highlight::none().is_none());
    assert!(!Highlight(3).is_none());
}

#[test]
fn highlight_query_without_reference_capture() {
    let query = highlight_query(&["variable"], &[]);
    assert_eq!(query.local_reference_capture(), None);
}

fn with_predicate(name: &str, args: &[&str]) -> Result<HighlightQuery, ParseError> {
    let mut strings = vec![name.to_string()];
    let mut steps = vec![step(PredicateStepKind::String, 0)];
    for arg in args {
        strings.push(arg.to_string());
        steps.push(step(PredicateStepKind::String, strings.len() as u32 - 1));
    }
    steps.push(step(PredicateStepKind::Done, 0));
    let data = QueryData {
        capture_names: vec!["variable".to_string()],
        strings,
        pattern_starts: vec![4],
        predicate_steps: vec![steps],
    };
    HighlightQuery::new(Ok(data), "; h\n((identifier) ", "@variable)")
}

#[test]
fn highlight_query_accepts_what_it_knows() {
    assert!(with_predicate("set!", &["local.scope-inherits", "false"]).is_ok());
    assert!(with_predicate("set!", &["local.scope-inherits"]).is_ok());
    assert!(with_predicate("is-not?", &["local"]).is_ok());
}

#[test]
fn highlight_query_refuses_other_predicates() {
    let refused = [
        (with_predicate("set!", &["priority", "100"]), "unsupported predicate (#set! priority 100)"),
        (with_predicate("is?", &["local"]), "unsupported predicate  (#is? local)"),
        (with_predicate("is-not?", &["local", "x"]), "unsupported predicate  (#is-not? local x)"),
        (with_predicate("frob?", &["x"]), "unsupported predicate #frob?"),
        (with_predicate("any-of?", &["a", "b"]), "unsupported predicate (#any-of? a \"b\")"),
    ];
    for (result, expected) in refused {
        match result {
            Err(ParseError::InvalidPredicate { message, location }) => {
                assert_eq!(message, expected);
                assert_eq!((location.line, location.column), (2, 1));
                assert_eq!(location.line_content, "((identifier) @variable)");
            }
            other => panic!("expected a refusal, got {other:?}"),
        }
    }
}

#[test]
fn locals_look_names_up_in_the_scopes_around() {
    let mut locals = Locals::new();
    locals.define(Scope::root(), "global".to_string(), Capture(1));
    let outer = locals.push_scope(Scope::root(), 10, 50, true);
    locals.define(outer, "x".to_string(), Capture(2));
    locals.define(outer, "y".to_string(), Capture(3));
    let sealed = locals.push_scope(outer, 20, 30, false);
    locals.define(sealed, "z".to_string(), Capture(4));
    let inner = locals.push_scope(outer, 35, 45, true);
    locals.define(inner, "x".to_string(), Capture(5));
    locals.define(inner, "x".to_string(), Capture(6));
    assert_eq!(locals.len(), 4);

    assert_eq!(locals.lookup_reference(Scope::root(), "global"), Some(Capture(1)));
    assert_eq!(locals.lookup_reference(Scope::root(), "x"), None);
    assert_eq!(locals.lookup_reference(outer, "x"), Some(Capture(2)));
    assert_eq!(locals.lookup_reference(outer, "global"), Some(Capture(1)));
    // A scope that does not inherit sees only its own names.
    assert_eq!(locals.lookup_reference(sealed, "z"), Some(Capture(4)));
    assert_eq!(locals.lookup_reference(sealed, "x"), None);
    assert_eq!(locals.lookup_reference(sealed, "global"), None);
    // The last definition of a name in a scope is the one that counts.
    assert_eq!(locals.lookup_reference(inner, "x"), Some(Capture(6)));
    assert_eq!(locals.lookup_reference(inner, "y"), Some(Capture(3)));
    assert_eq!(locals.lookup_reference(inner, "nothing"), None);
}

#[test]
fn the_scope_cursor_finds_the_innermost_scope() {
    let mut locals = Locals::new();
    let outer = locals.push_scope(Scope::root(), 10, 50, true);
    let first = locals.push_scope(outer, 20, 30, true);
    let nested = locals.push_scope(first, 22, 25, true);
    let second = locals.push_scope(outer, 35, 45, true);
    let mut cursor = locals.scope_cursor();
    let expected = [
        (0, Scope::root()),
        (9, Scope::root()),
        (10, outer),
        (19, outer),
        (20, first),
        (22, nested),
        (24, nested),
        (25, first),
        (30, outer),
        (35, second),
        (44, second),
        (45, outer),
        (50, Scope::root()),
        (u32::MAX, Scope::root()),
        // Back again.
        (23, nested),
        (0, Scope::root()),
        (40, second),
    ];
    for (at, scope) in expected {
        assert_eq!(cursor.advance(at), scope, "at {at}");
    }
}

#[test]
fn a_new_theme_shows_in_the_next_pass() {
    let syntax = one_layer(Locals::new());
    let languages = Languages { names: Vec::new(), configs: vec![Some(config(&["a"], &[3], &[])), None] };
    assert_eq!(languages.highlights(), vec![Some(vec![Highlight(3)]), None]);
    let rope = Rope::from_str(TEXT);
    let events = vec![matched(0, 0, 2, 6)];
    let mut old_pass =
        Highlighter::checked(
            &syntax,
            rope.slice(..),
            &languages,
            languages.highlights(),
            languages.definitions(),
            events.clone(),
        )
        .unwrap();
    // The theme changes while the pass is under way.
    let query = &languages.configs[0].as_ref().unwrap().highlight_query;
    assert_eq!(query.configure(&|_: &str| Highlight(8)), vec![Highlight(8)]);
    assert_eq!(languages.highlights(), vec![Some(vec![Highlight(8)]), None]);
    assert_eq!(run(&mut old_pass), vec![(2, false, vec![3]), (6, true, vec![])]);
    let steps = pass(TEXT, &syntax, &languages, events);
    assert_eq!(steps, vec![(2, false, vec![8]), (6, true, vec![])]);
}

fn fits(syntax: &Syntax, languages: &Languages, text: &str, events: Vec<QueryIterEvent>) -> bool {
    let rope = Rope::from_str(text);
    Highlighter::checked(
        syntax,
        rope.slice(..),
        languages,
        languages.highlights(),
        languages.definitions(),
        events,
    )
    .is_some()
}

#[test]
fn layers_that_do_not_fit_together_are_refused() {
    let languages = Languages { names: Vec::new(), configs: vec![Some(config(&["a"], &[1], &[]))] };
    let mut syntax = two_layers();
    assert!(syntax.check());
    assert!(fits(&syntax, &languages, TEXT, vec![]));
    syntax.layers[1].parent = Some(Layer(2));
    assert!(!syntax.check());
    assert!(!fits(&syntax, &languages, TEXT, vec![]));
    let mut syntax = two_layers();
    syntax.root = Layer(2);
    assert!(!syntax.check());
    assert!(!fits(&syntax, &languages, TEXT, vec![]));
}

#[test]
fn events_that_do_not_fit_the_document_are_refused() {
    let syntax = two_layers();
    let languages = Languages { names: Vec::new(), configs: vec![Some(config(&["a"], &[1], &[])), None] };
    let text = "aé0123456789";
    assert!(fits(&syntax, &languages, text, vec![matched(0, 0, 0, 3), matched(0, 0, 3, 13)]));
    assert!(fits(&syntax, &languages, text, vec![enter(1, 3, 5, false), exit(1, 3, 5, false, true)]));
    // A match whose text is read must not lie behind the text, within a
    // character, or the wrong way round.
    let reading = Languages {
        names: Vec::new(),
        configs: vec![Some(config(&["a", "b"], &[1, 2], &[0])), None],
    };
    assert!(fits(&syntax, &reading, text, vec![matched(0, 0, 0, 3), matched(0, 0, 3, 13)]));
    assert!(!fits(&syntax, &reading, text, vec![matched(0, 0, 3, 14)]));
    assert!(!fits(&syntax, &reading, text, vec![matched(0, 0, 2, 4)]));
    assert!(!fits(&syntax, &reading, text, vec![matched(0, 0, 0, 2)]));
    assert!(!fits(&syntax, &reading, text, vec![matched(0, 0, 5, 4)]));
    // Of a match whose text is not read only the end is taken.
    assert!(fits(&syntax, &reading, text, vec![matched(1, 1, 2, 4)]));
    assert!(fits(&syntax, &languages, text, vec![matched(0, 0, 2, 4)]));
    assert!(fits(&syntax, &languages, text, vec![matched(0, 0, 3, 14)]));
    // A capture without a highlight, and a layer that the document lacks.
    assert!(!fits(&syntax, &languages, text, vec![matched(0, 1, 0, 1)]));
    assert!(!fits(&syntax, &languages, text, vec![enter(2, 3, 5, false)]));
    assert!(!fits(&syntax, &languages, text, vec![exit(2, 3, 5, false, true)]));
    // A match in a layer whose language is not configured.
    assert!(!fits(&syntax, &languages, text, vec![enter(1, 3, 5, false), matched(0, 0, 3, 4)]));
    assert!(fits(
        &syntax,
        &languages,
        text,
        vec![enter(1, 3, 5, false), exit(1, 3, 5, false, true), matched(0, 0, 5, 6)]
    ));
}

#[test]
fn a_language_is_loaded_by_its_name() {
    let languages = Languages {
        names: vec!["rust".to_string(), "markdown".to_string(), "rust".to_string()],
        configs: vec![Some(config(&["a"], &[1], &[])), None],
    };
    assert_eq!(languages.load_language("rust"), Some(Language(0)));
    assert_eq!(languages.load_language("markdown"), Some(Language(1)));
    assert_eq!(languages.load_language("mark"), None);
    assert_eq!(languages.load_language(""), None);
    assert!(languages.get_config(Language(0)).is_some());
    assert!(languages.get_config(Language(1)).is_none());
    // A language with a name need not have a configuration.
    assert!(languages.get_config(Language(2)).is_none());
    assert!(languages.get_config(Language(u32::MAX)).is_none());
}

#[test]
fn the_table_holds_a_highlight_for_each_capture() {
    let query = highlight_query(&["a", "b", "c"], &[]);
    // Before a theme is given, no capture has a highlight.
    assert_eq!(query.highlights(), vec![Highlight(u32::MAX); 3]);
    let given = query.configure(&|name: &str| Highlight(name.len() as u32 + 4));
    assert_eq!(given, vec![Highlight(5); 3]);
    assert_eq!(query.highlights(), given);
    let given = query.configure(&|name: &str| Highlight(if name == "b" { 2 } else { u32::MAX }));
    assert_eq!(query.highlights().len(), 3);
    assert_eq!(query.highlights(), given);
    assert_eq!(highlight_query(&[], &[]).highlights(), Vec::<Highlight>::new());
}

#[test]
fn scopes_that_are_not_well_formed_are_refused() {
    let languages = Languages { names: Vec::new(), configs: vec![Some(config(&["a"], &[1], &[]))] };
    let mut locals = Locals::new();
    assert!(locals.check());
    locals.push_scope(Scope::root(), 10, 30, true);
    assert!(locals.check());
    // A scope that starts before the one before it.
    let mut out_of_order = Locals::new();
    out_of_order.push_scope(Scope::root(), 10, 30, true);
    out_of_order.push_scope(Scope::root(), 5, 8, true);
    assert!(!out_of_order.check());
    // A scope inside a scope that comes behind it.
    let mut no_parent = Locals::new();
    no_parent.push_scope(Scope(4), 10, 30, true);
    assert!(!no_parent.check());
    let syntax = one_layer(locals);
    assert!(syntax.check_scopes());
    assert!(fits(&syntax, &languages, TEXT, vec![matched(0, 0, 2, 6)]));
    for broken in [out_of_order, no_parent] {
        let syntax = one_layer(broken);
        assert!(syntax.check());
        assert!(!syntax.check_scopes());
        assert!(!fits(&syntax, &languages, TEXT, vec![matched(0, 0, 2, 6)]));
    }
}

#[test]
fn a_definition_map_holds_the_highlight_last_given() {
    let mut map = DefinitionMap::new();
    assert_eq!(map.get(Capture(3)), Highlight::none());
    assert_eq!(map.insert(Capture(3), Highlight(7)), None);
    assert_eq!(map.insert(Capture(3), Highlight(9)), Some(Highlight(7)));
    assert_eq!(map.insert(Capture(4), Highlight(1)), None);
    assert_eq!(map.get(Capture(3)), Highlight(9));
    assert_eq!(map.get(Capture(4)), Highlight(1));
    assert_eq!(map.get(Capture(5)), Highlight::none());
}

#[test]
fn new_definition_highlights_show_in_the_next_pass() {
    let syntax = one_layer(locals_with_definition());
    let languages = Languages { names: Vec::new(), configs: vec![Some(locals_config())] };
    let events = vec![matched(0, 0, 11, 14)];
    let rope = Rope::from_str(TEXT);
    let mut old_pass = Highlighter::checked(
        &syntax,
        rope.slice(..),
        &languages,
        languages.highlights(),
        languages.definitions(),
        events.clone(),
    )
    .unwrap();
    let before = run(&mut old_pass);
    let mut under_way = Highlighter::checked(
        &syntax,
        rope.slice(..),
        &languages,
        languages.highlights(),
        languages.definitions(),
        events.clone(),
    )
    .unwrap();
    // The theme gives the definitions other highlights.
    let config = languages.configs[0].as_ref().unwrap();
    config.local_definition_highlights.store(definitions(&[90, 91, 92]));
    assert_eq!(run(&mut under_way), before);
    let after = pass(TEXT, &syntax, &languages, events);
    assert_ne!(after, before);
    assert_eq!(after.len(), before.len());
}
