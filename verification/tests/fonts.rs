//! The fonts that a subtree uses, and the links between its shapes.
use svg_layers::fonts::collect_font_aliases;
use svg_layers::shape::{
    BlendMode, Group, Paragraph, Region, Scalar, Shape, ShapesPool, TextContent, TextSpan, Type,
    Uuid,
};

fn shape(id: Uuid, shape_type: Type, children: Vec<Uuid>) -> Shape {
    let region = || Region {
        x: String::new(),
        y: String::new(),
        width: String::new(),
        height: String::new(),
    };
    Shape {
        id,
        hidden: false,
        shape_type,
        paint_order: children.clone(),
        children,
        mask_id: None,
        clip_content: false,
        open: false,
        fills: vec![],
        strokes: vec![],
        opacity: Scalar { text: "1".to_string(), positive: true, below_one: false },
        blend_mode: BlendMode::SrcOver,
        blur: None,
        drop_shadows: vec![],
        drop_region: region(),
        inner_shadows: vec![],
        inner_region: region(),
    }
}

fn text(id: Uuid, paragraphs: Vec<Vec<&str>>) -> Shape {
    let paragraphs = paragraphs
        .into_iter()
        .map(|spans| Paragraph {
            children: spans
                .into_iter()
                .map(|font| TextSpan { font_family: font.to_string() })
                .collect(),
        })
        .collect();
    shape(id, Type::Text(TextContent { paragraphs }), vec![])
}

fn group(id: Uuid, children: Vec<Uuid>) -> Shape {
    shape(id, Type::Group(Group { masked: false }), children)
}

fn aliases(shapes: Vec<Shape>, root: Uuid) -> Vec<String> {
    let mut pool = ShapesPool::new();
    for shape in shapes {
        pool.insert(shape);
    }
    assert!(pool.is_acyclic(&root));
    let mut out: Vec<String> = Vec::new();
    collect_font_aliases(&pool, &root, &mut out);
    out
}

#[test]
fn every_span_below_the_root_counts_once() {
    let fonts = aliases(
        vec![
            group(1, vec![2, 3]),
            text(2, vec![vec!["sans", "serif"], vec!["sans"]]),
            group(3, vec![4]),
            text(4, vec![vec!["mono", "serif"]]),
            text(5, vec![vec!["elsewhere"]]),
        ],
        1,
    );
    assert_eq!(fonts, vec!["sans", "serif", "mono"]);
}

#[test]
fn hidden_text_counts_too() {
    let mut hidden = text(2, vec![vec!["sans"]]);
    hidden.hidden = true;
    assert_eq!(aliases(vec![group(1, vec![2]), hidden], 1), vec!["sans"]);
}

#[test]
fn a_missing_shape_uses_no_font() {
    assert!(aliases(vec![group(1, vec![7])], 1).is_empty());
    assert!(aliases(vec![], 1).is_empty());
}

#[test]
fn names_that_are_there_stay_in_front() {
    let mut pool = ShapesPool::new();
    pool.insert(text(1, vec![vec!["a", "b"]]));
    let mut out = vec!["b".to_string()];
    collect_font_aliases(&pool, &1, &mut out);
    assert_eq!(out, vec!["b", "a"]);
}

#[test]
fn a_tree_has_no_cycle() {
    let mut pool = ShapesPool::new();
    pool.insert(group(1, vec![2, 3]));
    pool.insert(group(2, vec![4]));
    pool.insert(group(3, vec![4]));
    pool.insert(group(4, vec![9]));
    for id in 1..6u128 {
        assert!(pool.is_acyclic(&id));
    }
}

#[test]
fn cycles_are_found() {
    let mut pool = ShapesPool::new();
    pool.insert(group(1, vec![2]));
    pool.insert(group(2, vec![3]));
    pool.insert(group(3, vec![2]));
    pool.insert(group(4, vec![]));
    assert!(!pool.is_acyclic(&1));
    assert!(!pool.is_acyclic(&2));
    assert!(!pool.is_acyclic(&3));
    assert!(pool.is_acyclic(&4));
    let mut masked = group(5, vec![]);
    masked.mask_id = Some(5);
    pool.insert(masked);
    assert!(!pool.is_acyclic(&5));
    // A shape with the same id takes the place of the other.
    pool.insert(group(3, vec![]));
    assert!(pool.is_acyclic(&1));
}

#[test]
fn deep_trees_are_no_problem() {
    let mut pool = ShapesPool::new();
    for id in 1..400u128 {
        pool.insert(group(id, vec![id + 1, id + 1]));
    }
    assert!(pool.is_acyclic(&1));
    pool.insert(group(400, vec![1]));
    assert!(!pool.is_acyclic(&1));
}

#[test]
fn the_pool_gives_back_what_it_holds() {
    let mut pool = ShapesPool::new();
    assert!(pool.get(&1).is_none());
    pool.insert(group(1, vec![2]));
    assert_eq!(pool.get(&1).map(|shape| shape.children.clone()), Some(vec![2]));
    pool.insert(group(1, vec![3]));
    assert_eq!(pool.get(&1).map(|shape| shape.children.clone()), Some(vec![3]));
}
