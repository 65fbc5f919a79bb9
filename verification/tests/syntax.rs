use tree_house::locals::Locals;
use tree_house::syntax::{Injection, Language, Layer, LayerInfo, Syntax};
use tree_house::{Point, Range};

fn range(start: u32, end: u32) -> Range {
    Range {
        start_point: Point { row: 0, col: start },
        end_point: Point { row: 0, col: end },
        start_byte: start,
        end_byte: end,
    }
}

fn leads(layer: u32, start: u32, end: u32) -> Injection {
    Injection { layer: Layer(layer), range: range(start, end), combined: false }
}

fn info(parent: Option<u32>, injections: Vec<Injection>) -> LayerInfo {
    LayerInfo {
        language: Language(0),
        locals: Locals::new(),
        parent: parent.map(Layer),
        injections,
    }
}

/// A document whose root holds two injections, the first of which holds
/// one of its own.
fn document() -> Syntax {
    Syntax {
        layers: vec![
            info(None, vec![leads(1, 10, 20), leads(2, 30, 40)]),
            info(Some(0), vec![leads(3, 12, 16)]),
            info(Some(0), vec![]),
            info(Some(1), vec![]),
        ],
        root: Layer(0),
    }
}

fn found(layer: &LayerInfo, idx: u32) -> Option<(u32, u32)> {
    layer.injection_at_byte_idx(idx).map(|i| (i.range.start_byte, i.range.end_byte))
}

#[test]
fn injection_at_byte_idx_finds_the_injection_that_holds_the_byte() {
    let syntax = document();
    let root = &syntax.layers[0];
    assert_eq!(found(root, 0), None);
    assert_eq!(found(root, 9), None);
    assert_eq!(found(root, 10), Some((10, 20)));
    assert_eq!(found(root, 19), Some((10, 20)));
    // An injection does not hold the byte at its end.
    assert_eq!(found(root, 20), None);
    assert_eq!(found(root, 29), None);
    assert_eq!(found(root, 30), Some((30, 40)));
    assert_eq!(found(root, 39), Some((30, 40)));
    assert_eq!(found(root, 40), None);
    assert_eq!(found(root, u32::MAX), None);
    assert_eq!(found(&syntax.layers[2], 35), None);
}

#[test]
fn injection_over_asks_for_the_whole_range() {
    let syntax = document();
    let over = |layer: u32, start: u32, end: u32| {
        syntax.injection_over(Layer(layer), start, end).map(|i| i.layer.0)
    };
    assert_eq!(over(0, 10, 20), Some(1));
    assert_eq!(over(0, 12, 14), Some(1));
    assert_eq!(over(0, 19, 19), Some(1));
    assert_eq!(over(0, 12, 21), None);
    assert_eq!(over(0, 9, 12), None);
    assert_eq!(over(0, 30, 40), Some(2));
    assert_eq!(over(1, 12, 16), Some(3));
    assert_eq!(over(1, 10, 20), None);
    assert_eq!(over(3, 12, 16), None);
}

#[test]
fn layer_for_byte_range_goes_down_to_the_innermost_layer() {
    let syntax = document();
    assert!(syntax.check());
    assert_eq!(syntax.layer_for_byte_range(0, 5), Layer(0));
    assert_eq!(syntax.layer_for_byte_range(0, 50), Layer(0));
    assert_eq!(syntax.layer_for_byte_range(10, 20), Layer(1));
    assert_eq!(syntax.layer_for_byte_range(10, 12), Layer(1));
    assert_eq!(syntax.layer_for_byte_range(12, 16), Layer(3));
    assert_eq!(syntax.layer_for_byte_range(13, 14), Layer(3));
    assert_eq!(syntax.layer_for_byte_range(13, 18), Layer(1));
    assert_eq!(syntax.layer_for_byte_range(13, 25), Layer(0));
    assert_eq!(syntax.layer_for_byte_range(35, 36), Layer(2));
    assert_eq!(syntax.layer_for_byte_range(40, 41), Layer(0));
}

#[test]
fn layer_for_byte_range_ends_where_layers_go_round() {
    // Two layers that are each other's parents, each with an injection
    // into the other over the same range.
    let syntax = Syntax {
        layers: vec![info(Some(1), vec![leads(1, 0, 10)]), info(Some(0), vec![leads(0, 0, 10)])],
        root: Layer(0),
    };
    assert!(syntax.check());
    assert_eq!(syntax.layer_for_byte_range(2, 4), Layer(0));
    assert_eq!(syntax.layer_for_byte_range(2, 12), Layer(0));
}

#[test]
fn parent_of_a_layer() {
    let syntax = document();
    assert_eq!(syntax.parent(Layer(3)), Layer(1));
    assert_eq!(syntax.parent(Layer(1)), Layer(0));
    // The root has no parent: what is left goes on in the root.
    assert_eq!(syntax.parent(Layer(0)), Layer(0));
    assert_eq!(syntax.layer(Layer(1)).parent, Some(Layer(0)));
    assert_eq!(Layer(3).idx(), 3);
    assert_eq!(Language(7).idx(), 7);
}
