use ropey::Rope;
use tree_house::config::{LanguageConfig, Languages};
use tree_house::definition_map::DefinitionMap;
use tree_house::shared::SharedDefinitions;
use tree_house::highlight_query::{Highlight, HighlightQuery};
use tree_house::highlighter::{HighlightEvent, Highlighter};
use tree_house::locals::Locals;
use tree_house::query::{Capture, Pattern, QueryData};
use tree_house::query_iter::{merged_events, QueryIter, QueryIterEvent};
use tree_house::syntax::{Injection, Language, Layer, LayerInfo, Syntax};
use tree_house::text_predicate::MatchedNode;
use tree_house::{Point, Range};

fn bytes(start: u32, end: u32) -> Range {
    Range {
        start_point: Point { row: 0, col: start },
        end_point: Point { row: 0, col: end },
        start_byte: start,
        end_byte: end,
    }
}

fn node(capture: u32, start: u32, end: u32) -> MatchedNode {
    MatchedNode { node: bytes(start, end), capture: Capture(capture), pattern: Pattern(0) }
}

fn into(layer: u32, start: u32, end: u32, combined: bool) -> Injection {
    Injection { layer: Layer(layer), range: bytes(start, end), combined }
}

fn layer_of(language: u32, parent: Option<u32>, injections: Vec<Injection>) -> LayerInfo {
    LayerInfo {
        language: Language(language),
        locals: Locals::new(),
        parent: parent.map(Layer),
        injections,
    }
}

/// An event in short: `M` for a match, `E` for entering and `X` for leaving
/// an injection, then the layer (of a match: the capture) and the span; a
/// `!` behind an injection that is left and finished.
fn short(event: &QueryIterEvent) -> String {
    match event {
        QueryIterEvent::Match(m) => {
            format!("M{} {}..{}", m.capture.0, m.node.start_byte, m.node.end_byte)
        }
        QueryIterEvent::EnterInjection(i) => {
            format!("E{} {}..{}", i.layer.0, i.range.start_byte, i.range.end_byte)
        }
        QueryIterEvent::ExitInjection { injection: i, finished } => format!(
            "X{} {}..{}{}",
            i.layer.0,
            i.range.start_byte,
            i.range.end_byte,
            if *finished { "!" } else { "" }
        ),
    }
}

fn merged(syntax: &Syntax, matches: &Vec<Vec<MatchedNode>>) -> Vec<String> {
    assert!(syntax.check());
    let events = merged_events(syntax, matches);
    // Event by event the merge gives the same.
    let mut iter = QueryIter::new(syntax, matches);
    let mut one_by_one = Vec::new();
    while let Some(event) = iter.next() {
        one_by_one.push(short(&event));
        assert!(one_by_one.len() < 1000);
    }
    assert!(iter.next().is_none());
    let all: Vec<String> = events.iter().map(short).collect();
    assert_eq!(all, one_by_one);
    // The events come in the order of the document's bytes.
    let starts: Vec<u32> = events.iter().map(|event| event.start_byte()).collect();
    assert!(starts.windows(2).all(|pair| pair[0] <= pair[1]), "{starts:?}");
    all
}

#[test]
fn a_document_without_matches_has_no_events() {
    let syntax = Syntax { layers: vec![layer_of(0, None, vec![])], root: Layer(0) };
    assert_eq!(merged(&syntax, &vec![vec![]]), Vec::<String>::new());
    // A layer without a list of matches has none.
    assert_eq!(merged(&syntax, &vec![]), Vec::<String>::new());
}

#[test]
fn the_matches_of_one_layer_come_in_their_order() {
    let syntax = Syntax { layers: vec![layer_of(0, None, vec![])], root: Layer(0) };
    let matches = vec![vec![node(0, 0, 3), node(1, 0, 3), node(0, 4, 7)]];
    assert_eq!(merged(&syntax, &matches), vec!["M0 0..3", "M1 0..3", "M0 4..7"]);
}

#[test]
fn matches_with_an_empty_span_are_passed_over() {
    let syntax = Syntax { layers: vec![layer_of(0, None, vec![])], root: Layer(0) };
    let matches = vec![vec![node(0, 0, 0), node(0, 1, 4), node(1, 4, 4), node(0, 5, 6), node(0, 9, 9)]];
    assert_eq!(merged(&syntax, &matches), vec!["M0 1..4", "M0 5..6"]);
}

#[test]
fn an_injection_is_entered_between_the_matches_around_it() {
    let syntax = Syntax {
        layers: vec![layer_of(0, None, vec![into(1, 5, 10, false)]), layer_of(1, Some(0), vec![])],
        root: Layer(0),
    };
    let matches = vec![
        vec![node(0, 0, 3), node(0, 5, 10), node(0, 12, 14)],
        vec![node(7, 5, 6), node(8, 7, 10)],
    ];
    assert_eq!(
        merged(&syntax, &matches),
        vec!["M0 0..3", "M0 5..10", "E1 5..10", "M7 5..6", "M8 7..10", "X1 5..10!", "M0 12..14"]
    );
}

#[test]
fn an_injection_without_matches_is_entered_and_left() {
    let syntax = Syntax {
        layers: vec![layer_of(0, None, vec![into(1, 5, 10, false)]), layer_of(1, Some(0), vec![])],
        root: Layer(0),
    };
    let matches = vec![vec![node(0, 12, 14)], vec![]];
    assert_eq!(merged(&syntax, &matches), vec!["E1 5..10", "X1 5..10!", "M0 12..14"]);
    assert_eq!(merged(&syntax, &vec![]), vec!["E1 5..10", "X1 5..10!"]);
}

#[test]
fn a_match_that_starts_inside_an_injection_is_passed_over() {
    let syntax = Syntax {
        layers: vec![layer_of(0, None, vec![into(1, 5, 10, false)]), layer_of(1, Some(0), vec![])],
        root: Layer(0),
    };
    let matches = vec![
        vec![node(0, 4, 12), node(1, 6, 8), node(2, 9, 12), node(3, 10, 12)],
        vec![node(7, 6, 8)],
    ];
    assert_eq!(
        merged(&syntax, &matches),
        vec!["M0 4..12", "E1 5..10", "M7 6..8", "X1 5..10!", "M3 10..12"]
    );
}

#[test]
fn a_combined_injection_is_left_unfinished_while_matches_remain() {
    let syntax = Syntax {
        layers: vec![
            layer_of(0, None, vec![into(1, 5, 10, true), into(1, 15, 20, true)]),
            layer_of(1, Some(0), vec![]),
        ],
        root: Layer(0),
    };
    let matches = vec![
        vec![node(0, 0, 20), node(1, 11, 13)],
        vec![node(7, 6, 9), node(8, 15, 18), node(9, 19, 20)],
    ];
    assert_eq!(
        merged(&syntax, &matches),
        vec![
            "M0 0..20",
            "E1 5..10",
            "M7 6..9",
            "X1 5..10",
            "M1 11..13",
            "E1 15..20",
            "M8 15..18",
            "M9 19..20",
            "X1 15..20!",
        ]
    );
}

#[test]
fn a_match_at_the_end_of_an_injection_waits_for_the_next_entry() {
    let syntax = Syntax {
        layers: vec![
            layer_of(0, None, vec![into(1, 5, 10, true), into(1, 10, 20, true)]),
            layer_of(1, Some(0), vec![]),
        ],
        root: Layer(0),
    };
    let matches = vec![vec![], vec![node(7, 6, 9), node(8, 10, 12)]];
    assert_eq!(
        merged(&syntax, &matches),
        vec!["E1 5..10", "M7 6..9", "X1 5..10", "E1 10..20", "M8 10..12", "X1 10..20!"]
    );
}

#[test]
fn an_injection_that_is_not_combined_is_finished_when_it_is_left() {
    let syntax = Syntax {
        layers: vec![layer_of(0, None, vec![into(1, 5, 10, false)]), layer_of(1, Some(0), vec![])],
        root: Layer(0),
    };
    // The second match of the injected layer lies behind the injection:
    // nothing enters the layer again for it.
    let matches = vec![vec![], vec![node(7, 6, 9), node(8, 15, 18)]];
    assert_eq!(merged(&syntax, &matches), vec!["E1 5..10", "M7 6..9", "X1 5..10!"]);
}

#[test]
fn injections_nest() {
    let syntax = Syntax {
        layers: vec![
            layer_of(0, None, vec![into(1, 2, 18, false)]),
            layer_of(1, Some(0), vec![into(2, 4, 8, false), into(3, 10, 12, false)]),
            layer_of(2, Some(1), vec![]),
            layer_of(3, Some(1), vec![]),
        ],
        root: Layer(0),
    };
    let matches = vec![
        vec![node(0, 0, 20), node(0, 18, 20)],
        vec![node(1, 2, 4), node(1, 8, 9), node(1, 13, 18)],
        vec![node(2, 4, 8)],
        vec![node(3, 10, 11), node(3, 11, 12)],
    ];
    assert_eq!(
        merged(&syntax, &matches),
        vec![
            "M0 0..20",
            "E1 2..18",
            "M1 2..4",
            "E2 4..8",
            "M2 4..8",
            "X2 4..8!",
            "M1 8..9",
            "E3 10..12",
            "M3 10..11",
            "M3 11..12",
            "X3 10..12!",
            "M1 13..18",
            "X1 2..18!",
            "M0 18..20",
        ]
    );
}

#[test]
fn the_iterator_knows_its_layer() {
    let syntax = Syntax {
        layers: vec![layer_of(0, None, vec![into(1, 5, 10, false)]), layer_of(1, Some(0), vec![])],
        root: Layer(0),
    };
    let matches = vec![vec![node(0, 0, 3)], vec![node(7, 5, 6)]];
    assert!(syntax.check());
    let mut iter = QueryIter::new(&syntax, &matches);
    assert_eq!(iter.current_layer(), Layer(0));
    assert_eq!(short(&iter.next().unwrap()), "M0 0..3");
    assert_eq!(iter.current_layer(), Layer(0));
    assert_eq!(short(&iter.next().unwrap()), "E1 5..10");
    assert_eq!(iter.current_layer(), Layer(1));
    assert_eq!(short(&iter.next().unwrap()), "M7 5..6");
    assert_eq!(iter.current_layer(), Layer(1));
    assert_eq!(short(&iter.next().unwrap()), "X1 5..10!");
    assert_eq!(iter.current_layer(), Layer(0));
    assert!(iter.next().is_none());
    assert_eq!(iter.current_layer(), Layer(0));
}

#[test]
fn injections_that_lead_nowhere_do_not_fit() {
    let mut syntax = Syntax {
        layers: vec![layer_of(0, None, vec![into(1, 5, 10, false)]), layer_of(1, Some(0), vec![])],
        root: Layer(0),
    };
    assert!(syntax.check());
    // Into a layer that the document does not have.
    syntax.layers[0].injections[0].layer = Layer(2);
    assert!(!syntax.check());
    // Into a layer with another parent.
    syntax.layers[0].injections[0].layer = Layer(0);
    assert!(!syntax.check());
    syntax.layers[0].injections[0].layer = Layer(1);
    syntax.layers[1].parent = None;
    assert!(!syntax.check());
}

fn language(capture: &str, highlight: u32) -> LanguageConfig {
    let data = QueryData {
        capture_names: vec![capture.to_string()],
        strings: Vec::new(),
        pattern_starts: vec![0],
        predicate_steps: vec![Vec::new()],
    };
    let query = HighlightQuery::new(Ok(data), &format!("(identifier) @{capture}"), "").unwrap();
    assert_eq!(query.configure(&|_: &str| Highlight(highlight)), vec![Highlight(highlight)]);
    LanguageConfig {
        highlight_query: query,
        local_definition_highlights: SharedDefinitions::new(DefinitionMap::new()),
    }
}

#[test]
fn merged_matches_of_a_combined_injection_are_highlighted() {
    let syntax = Syntax {
        layers: vec![
            layer_of(0, None, vec![into(1, 5, 10, true), into(1, 15, 20, true)]),
            layer_of(1, Some(0), vec![]),
        ],
        root: Layer(0),
    };
    let languages =
        Languages { names: Vec::new(), configs: vec![Some(language("a", 1)), Some(language("x", 2))] };
    let matches = vec![vec![node(0, 0, 20)], vec![node(0, 6, 17), node(0, 17, 19)]];
    assert!(syntax.check());
    let events = merged_events(&syntax, &matches);
    let rope = Rope::from_str("0123456789abcdefghijklmnopqrstuvwxyz");
    let mut highlighter =
Highlighter::checked(
        &syntax,
        rope.slice(..),
        &languages,
        languages.highlights(),
        languages.definitions(),
        events,
    )
    .unwrap();
    let mut steps = Vec::new();
    while highlighter.next_event_offset() != u32::MAX {
        let pos = highlighter.next_event_offset();
        let (refresh, mut list) = match highlighter.advance() {
            HighlightEvent::RefreshHighlights(list) => (true, list),
            HighlightEvent::PushHighlights(list) => (false, list),
        };
        let mut handed = Vec::new();
        while let Some(h) = list.next() {
            handed.push(h.0);
        }
        steps.push((pos, refresh, handed));
        assert!(steps.len() < 100);
    }
    assert_eq!(
        steps,
        vec![
            (0, false, vec![1]),
            (5, false, vec![]),
            (6, false, vec![2]),
            // The injection is left with a match to come: its highlight
            // goes dormant.
            (10, true, vec![1]),
            // The layer is entered again: the highlight is back.
            (15, false, vec![2]),
            (17, true, vec![1, 2]),
            (19, true, vec![1]),
            (20, true, vec![]),
        ]
    );
}
