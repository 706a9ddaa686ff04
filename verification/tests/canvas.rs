//! The compositor on its own, and documents with effects that meet.
use svg_layers::compose::SvgLayerCanvas;
use svg_layers::document::{
    compose_svg, render_svg_body, render_to_svg, render_tree_to_svg, svg_fragments, Error, Page,
};
use svg_layers::fragments::fragments_of;
use svg_layers::ops::{Confinement, Draw, Op};
use svg_layers::shape::{
    BlendMode, Blur, BlurType, Fill, Group, Region, Rgb, Scalar, Shadow, Shape, ShapesPool, Stroke,
    StrokeKind, TextContent, Type, Uuid,
};
use svg_layers::style::{blend_css, layer_blur_value};

fn doc(body: &str) -> String {
    format!("<svg width=\"1\" height=\"1\">{body}</svg>")
}

fn number(text: &str, positive: bool, below_one: bool) -> Scalar {
    Scalar { text: text.to_string(), positive, below_one }
}

fn region(text: &str) -> Region {
    Region {
        x: text.to_string(),
        y: text.to_string(),
        width: text.to_string(),
        height: text.to_string(),
    }
}

fn shape(id: Uuid, shape_type: Type) -> Shape {
    Shape {
        id,
        hidden: false,
        shape_type,
        children: vec![],
        paint_order: vec![],
        mask_id: None,
        clip_content: false,
        open: false,
        fills: vec![Fill::Solid],
        strokes: vec![],
        opacity: number("1", true, false),
        blend_mode: BlendMode::SrcOver,
        blur: None,
        drop_shadows: vec![],
        drop_region: region("-10"),
        inner_shadows: vec![],
        inner_region: region("-20"),
    }
}

fn container(id: Uuid, shape_type: Type, children: Vec<Uuid>) -> Shape {
    let mut container = shape(id, shape_type);
    container.fills = vec![];
    container.paint_order = children.clone();
    container.children = children;
    container
}

fn shadow(spread: Scalar) -> Shadow {
    Shadow {
        sigma: "2".to_string(),
        dx: "3".to_string(),
        dy: "-4".to_string(),
        spread,
        color: Rgb { r: 0x0A, g: 0xB0, b: 0xFF },
        opacity: "0.5".to_string(),
    }
}

fn pool_of(shapes: Vec<Shape>) -> ShapesPool {
    let mut pool = ShapesPool::new();
    for shape in shapes {
        pool.insert(shape);
    }
    pool
}

fn mark(draw: &Draw) -> String {
    format!("[{draw:?}]")
}

/// The definitions and the body of an export, with a mark for each drawing.
fn parts(pool: &ShapesPool, root: Uuid, images: bool) -> (String, String) {
    assert!(pool.is_acyclic(&root));
    let docs: Vec<String> = svg_fragments(pool, &root, images)
        .iter()
        .map(|draws| doc(&draws.iter().map(mark).collect::<Vec<String>>().concat()))
        .collect();
    render_svg_body(pool, &root, images, &docs)
}

#[test]
fn ids_count_up_whatever_their_names() {
    let mut canvas = SvgLayerCanvas::new();
    assert_eq!(canvas.unique("blur"), "blur0");
    assert_eq!(canvas.unique("clip"), "clip1");
    assert_eq!(canvas.unique("blur"), "blur2");
    assert_eq!(canvas.unique("A_"), "A_3");
    // A name that ends in a digit can run into the number.
    let mut other = SvgLayerCanvas::new();
    assert_eq!(other.unique("a1"), "a10");
    for _ in 1..10 {
        let _ = other.unique("b");
    }
    assert_eq!(other.unique("a"), "a10");
}

#[test]
fn equal_filters_share_one_definition() {
    let mut canvas = SvgLayerCanvas::new();
    let first = canvas.intern_def("shadow", "x=\"1\">");
    let other = canvas.intern_def("shadow", "x=\"2\">");
    let again = canvas.intern_def("inshadow", "x=\"1\">");
    assert_eq!(first, "shadow0");
    assert_eq!(other, "shadow1");
    assert_eq!(again, "shadow0");
    assert_eq!(
        canvas.defs(),
        "<filter id=\"shadow0\" x=\"1\"></filter><filter id=\"shadow1\" x=\"2\"></filter>"
    );
}

#[test]
fn groups_nest_around_the_fragments() {
    let docs = vec![doc("<a/>"), doc("<b/>"), doc("<c/>")];
    let ops = vec![
        Op::Draw(Draw::Leaf(1)),
        Op::Opacity("0.5".to_string()),
        Op::Draw(Draw::Leaf(2)),
        Op::Draw(Draw::Leaf(3)),
        Op::Close,
        Op::Draw(Draw::Leaf(4)),
    ];
    let lists = fragments_of(&ops);
    assert_eq!(
        lists,
        vec![
            vec![Draw::Leaf(1)],
            vec![Draw::Leaf(2), Draw::Leaf(3)],
            vec![Draw::Leaf(4)],
        ]
    );
    let mut canvas = SvgLayerCanvas::new();
    assert_eq!(canvas.run(&ops, &docs, 0), 3);
    assert_eq!(canvas.out(), "<a/><g opacity=\"0.5\"><b/></g>");
    canvas.flush(&docs);
    assert_eq!(canvas.out(), "<a/><g opacity=\"0.5\"><b/></g><c/>");
    canvas.flush(&docs);
    assert_eq!(canvas.out(), "<a/><g opacity=\"0.5\"><b/></g><c/>");
    assert_eq!(canvas.defs(), "");
}

#[test]
fn a_blank_fragment_takes_no_number() {
    let docs = vec![doc(" \n"), doc("<a id=\"x\"/>"), doc("<a id=\"x\"/>")];
    let ops = vec![
        Op::Draw(Draw::Leaf(1)),
        Op::Opacity("0.5".to_string()),
        Op::Draw(Draw::Leaf(2)),
        Op::Close,
        Op::Draw(Draw::Leaf(3)),
    ];
    let mut canvas = SvgLayerCanvas::new();
    let _ = canvas.run(&ops, &docs, 0);
    canvas.flush(&docs);
    assert_eq!(canvas.out(), "<g opacity=\"0.5\"><a id=\"f0_x\"/></g><a id=\"f1_x\"/>");
}

#[test]
fn confined_groups_define_what_confines_them() {
    let docs = vec![doc("<a id=\"x\"/>"), doc("<b/>"), doc("<c/>")];
    let ops = vec![
        Op::Confine {
            kind: Confinement::ClipPath,
            prefix: "clip",
            draws: vec![Draw::Silhouette(1)],
            opacity: Some("0.2".to_string()),
        },
        Op::Confine {
            kind: Confinement::AlphaMask,
            prefix: "simask",
            draws: vec![Draw::Silhouette(1)],
            opacity: None,
        },
        Op::Draw(Draw::Leaf(1)),
        Op::Close,
        Op::Close,
    ];
    let mut canvas = SvgLayerCanvas::new();
    assert_eq!(canvas.run(&ops, &docs, 0), 3);
    assert_eq!(
        canvas.defs(),
        "<clipPath id=\"clip0\" clipPathUnits=\"userSpaceOnUse\"><a id=\"f0_x\"/></clipPath>\
         <mask id=\"simask1\" maskUnits=\"userSpaceOnUse\" mask-type=\"alpha\"><b/></mask>"
    );
    assert_eq!(
        canvas.out(),
        "<g clip-path=\"url(#clip0)\" opacity=\"0.2\"><g mask=\"url(#simask1)\"><c/></g></g>"
    );
}

#[test]
fn blend_modes_have_css_keywords() {
    assert_eq!(blend_css(BlendMode::Multiply), Some("multiply"));
    assert_eq!(blend_css(BlendMode::ColorDodge), Some("color-dodge"));
    assert_eq!(blend_css(BlendMode::HardLight), Some("hard-light"));
    assert_eq!(blend_css(BlendMode::Luminosity), Some("luminosity"));
    assert_eq!(blend_css(BlendMode::SrcOver), None);
    assert_eq!(blend_css(BlendMode::Plus), None);
    assert_eq!(blend_css(BlendMode::Clear), None);
}

#[test]
fn only_a_visible_layer_blur_counts() {
    let mut blurred = shape(1, Type::Rect);
    assert_eq!(layer_blur_value(&blurred), None);
    for (blur_type, hidden, positive, expected) in [
        (BlurType::LayerBlur, false, true, Some("5".to_string())),
        (BlurType::LayerBlur, true, true, None),
        (BlurType::LayerBlur, false, false, None),
        (BlurType::BackgroundBlur, false, true, None),
    ] {
        let value = number("5", positive, false);
        blurred.blur = Some(Blur { blur_type, hidden, value });
        assert_eq!(layer_blur_value(&blurred), expected);
    }
}

#[test]
fn effects_come_in_one_group() {
    let mut rectangle = shape(1, Type::Rect);
    rectangle.opacity = number("0.25", true, true);
    rectangle.blend_mode = BlendMode::Screen;
    rectangle.blur = Some(Blur {
        blur_type: BlurType::LayerBlur,
        hidden: false,
        value: number("5", true, false),
    });
    let (defs, out) = parts(&pool_of(vec![rectangle]), 1, false);
    assert_eq!(
        defs,
        "<filter id=\"blur0\" x=\"-50%\" y=\"-50%\" width=\"200%\" height=\"200%\">\
         <feGaussianBlur stdDeviation=\"5\"/></filter>"
    );
    assert_eq!(
        out,
        "<g opacity=\"0.25\" style=\"mix-blend-mode:screen\" filter=\"url(#blur0)\">[Leaf(1)]</g>"
    );
}

#[test]
fn a_drop_shadow_with_spread_is_dilated_first() {
    let mut rectangle = shape(1, Type::Rect);
    rectangle.drop_shadows = vec![shadow(number("7", true, false)), shadow(number("0", false, true))];
    let (defs, out) = parts(&pool_of(vec![rectangle]), 1, false);
    assert_eq!(
        defs,
        "<filter id=\"shadow0\" x=\"-10%\" y=\"-10%\" width=\"-10%\" height=\"-10%\" \
         primitiveUnits=\"userSpaceOnUse\" color-interpolation-filters=\"sRGB\">\
         <feMorphology in=\"SourceAlpha\" operator=\"dilate\" radius=\"7\" result=\"shsp0\"/>\
         <feGaussianBlur in=\"shsp0\" stdDeviation=\"2\" result=\"shbl0\"/>\
         <feOffset in=\"shbl0\" dx=\"3\" dy=\"-4\" result=\"shof0\"/>\
         <feFlood flood-color=\"#0AB0FF\" flood-opacity=\"0.5\" result=\"shfl0\"/>\
         <feComposite in=\"shfl0\" in2=\"shof0\" operator=\"in\" result=\"shad0\"/>\
         <feGaussianBlur in=\"SourceAlpha\" stdDeviation=\"2\" result=\"shbl1\"/>\
         <feOffset in=\"shbl1\" dx=\"3\" dy=\"-4\" result=\"shof1\"/>\
         <feFlood flood-color=\"#0AB0FF\" flood-opacity=\"0.5\" result=\"shfl1\"/>\
         <feComposite in=\"shfl1\" in2=\"shof1\" operator=\"in\" result=\"shad1\"/>\
         <feMerge><feMergeNode in=\"shad0\"/><feMergeNode in=\"shad1\"/>\
         <feMergeNode in=\"SourceGraphic\"/></feMerge></filter>"
    );
    assert_eq!(out, "<g filter=\"url(#shadow0)\">[Leaf(1)]</g>");
}

#[test]
fn an_inner_shadow_with_spread_is_dilated_before_its_clip() {
    let mut rectangle = shape(1, Type::Rect);
    rectangle.inner_shadows = vec![shadow(number("7", true, false))];
    let (defs, out) = parts(&pool_of(vec![rectangle]), 1, false);
    assert!(
        defs.contains(
            "result=\"istn0\"/><feMorphology in=\"istn0\" operator=\"dilate\" radius=\"7\" \
             result=\"issp0\"/><feComposite in=\"issp0\" in2=\"SourceAlpha\" operator=\"in\" \
             result=\"issh0\"/>"
        ),
        "{defs}"
    );
    assert_eq!(out, "[Leaf(1)]<g filter=\"url(#inshadow0)\">[Silhouette(1)]</g>");
}

#[test]
fn a_shape_without_fills_has_no_inner_shadow() {
    let mut rectangle = shape(1, Type::Rect);
    rectangle.fills = vec![];
    rectangle.inner_shadows = vec![shadow(number("0", false, true))];
    let (defs, out) = parts(&pool_of(vec![rectangle]), 1, false);
    assert_eq!((defs.as_str(), out.as_str()), ("", "[Leaf(1)]"));
}

#[test]
fn shapes_with_the_same_shadow_share_its_filter() {
    let mut a = shape(2, Type::Rect);
    a.drop_shadows = vec![shadow(number("0", false, true))];
    let mut b = shape(3, Type::Circle);
    b.drop_shadows = vec![shadow(number("0", false, true))];
    let group = container(1, Type::Group(Group { masked: false }), vec![2, 3]);
    let (defs, out) = parts(&pool_of(vec![group, a, b]), 1, false);
    assert_eq!(defs.matches("<filter").count(), 1);
    assert_eq!(
        out,
        "<g filter=\"url(#shadow0)\">[Leaf(2)]</g><g filter=\"url(#shadow0)\">[Leaf(3)]</g>"
    );
}

#[test]
fn hidden_and_missing_shapes_render_to_nothing() {
    let mut hidden = shape(2, Type::Rect);
    hidden.hidden = true;
    let group = container(1, Type::Group(Group { masked: false }), vec![2, 7]);
    let pool = pool_of(vec![group, hidden]);
    assert_eq!(parts(&pool, 1, false), (String::new(), String::new()));
    assert_eq!(parts(&pool, 2, false), (String::new(), String::new()));
    assert_eq!(parts(&pool, 7, false), (String::new(), String::new()));
    assert!(svg_fragments(&pool, &1, false).is_empty());
}

#[test]
fn the_content_of_a_frame_is_clipped_in_order() {
    let mut frame = container(1, Type::Frame, vec![2]);
    frame.clip_content = true;
    frame.fills = vec![Fill::Solid];
    frame.inner_shadows = vec![shadow(number("0", false, true))];
    frame.strokes = vec![Stroke {
        kind: StrokeKind::Inner,
        clip_op: None,
        fill: Fill::Image,
        opacity: number("1", true, false),
    }];
    let pool = pool_of(vec![frame, shape(2, Type::Rect)]);
    let (_, out) = parts(&pool, 1, true);
    assert_eq!(
        out,
        "<g clip-path=\"url(#clip0)\">[Fills(1)]<g filter=\"url(#inshadow1)\">[Silhouette(1)]</g>\
         [Leaf(2)][Strokes(1)]<g mask=\"url(#simask2)\">[StrokeImage(1, 0)]</g></g>"
    );
    // Without an image store the image is left out, the strokes are not.
    let (_, out) = parts(&pool, 1, false);
    assert!(out.ends_with("[Leaf(2)][Strokes(1)]</g>"), "{out}");
}

#[test]
fn the_shadow_of_a_group_is_cast_by_shapes_without_shadows() {
    let mut group = container(1, Type::Group(Group { masked: false }), vec![2]);
    group.drop_shadows = vec![shadow(number("1", true, false))];
    let mut child = shape(2, Type::Rect);
    child.drop_shadows = vec![shadow(number("2", true, false))];
    let (defs, out) = parts(&pool_of(vec![group, child]), 1, false);
    assert_eq!(
        out,
        "<g filter=\"url(#shadow0)\">[Leaf(2)]</g><g filter=\"url(#shadow1)\">[Leaf(2)]</g>"
    );
    assert_eq!(defs.matches("SourceGraphic").count(), 1);
}

#[test]
fn a_clip_to_a_group_is_a_clip_to_what_it_holds() {
    let mut frame = container(1, Type::Frame, vec![2]);
    frame.clip_content = true;
    let group = container(2, Type::Group(Group { masked: false }), vec![3, 9]);
    let pool = pool_of(vec![frame, group, shape(3, Type::Path)]);
    assert_eq!(
        svg_fragments(&pool, &1, false),
        vec![vec![Draw::Silhouette(1)], vec![Draw::Leaf(3)]]
    );
    let mut draws: Vec<Draw> = Vec::new();
    let group = pool.get(&2).expect("the group");
    svg_layers::render::draw_clip_geometry(&mut draws, group, &pool);
    assert_eq!(draws, vec![Draw::Silhouette(3)]);
}

#[test]
fn a_mask_with_effects_keeps_its_references() {
    let mut group = container(1, Type::Group(Group { masked: true }), vec![2, 3]);
    group.paint_order = vec![3];
    group.mask_id = Some(2);
    let mut mask = shape(2, Type::Rect);
    mask.drop_shadows = vec![shadow(number("0", false, true))];
    let mut content = shape(3, Type::Rect);
    content.drop_shadows = vec![shadow(number("1", true, false))];
    let (defs, out) = parts(&pool_of(vec![group, mask, content]), 1, false);
    // The filter of the mask and the reference to it have the same prefix.
    assert!(defs.starts_with("<filter id=\"m0_shadow0\" "), "{defs}");
    assert!(
        defs.contains(
            "<mask id=\"mask1\" maskUnits=\"userSpaceOnUse\" mask-type=\"alpha\">\
             <g filter=\"url(#m0_shadow0)\">[Leaf(2)]</g></mask><filter id=\"shadow2\" "
        ),
        "{defs}"
    );
    assert_eq!(
        out,
        "<g mask=\"url(#mask1)\"><g filter=\"url(#shadow2)\">[Leaf(3)]</g></g>"
    );
}

#[test]
fn a_group_without_its_mask_is_not_masked() {
    let mut group = container(1, Type::Group(Group { masked: true }), vec![3]);
    group.mask_id = Some(9);
    let (defs, out) = parts(&pool_of(vec![group, shape(3, Type::Rect)]), 1, false);
    assert_eq!((defs.as_str(), out.as_str()), ("", "[Leaf(3)]"));
    let mut group = container(1, Type::Group(Group { masked: false }), vec![3]);
    group.mask_id = Some(3);
    let (_, out) = parts(&pool_of(vec![group, shape(3, Type::Rect)]), 1, false);
    assert_eq!(out, "[Leaf(3)]");
}

fn stroke(kind: StrokeKind, fill: Fill, opacity: Scalar) -> Stroke {
    Stroke { kind, clip_op: None, fill, opacity }
}

#[test]
fn translucent_text_strokes_are_translucent_groups() {
    let mut label = shape(1, Type::Text(TextContent { paragraphs: vec![] }));
    label.strokes = vec![
        stroke(StrokeKind::Outer, Fill::Solid, number("0.25", true, true)),
        stroke(StrokeKind::Inner, Fill::Solid, number("0.5", true, true)),
        stroke(StrokeKind::Center, Fill::Solid, number("0.75", true, true)),
        stroke(StrokeKind::Center, Fill::Solid, number("1", true, false)),
    ];
    let (_, out) = parts(&pool_of(vec![label]), 1, false);
    assert_eq!(
        out,
        "[Leaf(1)]<g opacity=\"0.75\">[TextStroke(1, 2)]</g>\
         <g clip-path=\"url(#tclip0)\" opacity=\"0.5\">[TextStroke(1, 1)]</g>\
         <g mask=\"url(#tmask1)\" opacity=\"0.25\">[TextStroke(1, 0)]</g>"
    );
}

#[test]
fn an_outer_stroke_of_a_path_that_an_image_fills_is_the_image_alone() {
    let mut path = shape(1, Type::Path);
    path.strokes = vec![stroke(StrokeKind::Outer, Fill::Image, number("1", true, false))];
    let (defs, out) = parts(&pool_of(vec![path]), 1, true);
    assert_eq!(out, "[Leaf(1)]<g mask=\"url(#simask0)\">[StrokeImage(1, 0)]</g>");
    assert!(!defs.contains("smask"), "{defs}");
}

#[test]
fn an_open_path_has_no_outer_stroke() {
    let mut path = shape(1, Type::Path);
    path.open = true;
    path.strokes = vec![stroke(StrokeKind::Outer, Fill::Solid, number("1", true, false))];
    let (_, out) = parts(&pool_of(vec![path]), 1, true);
    assert_eq!(out, "[Leaf(1)]");
    let mut union = shape(1, Type::Bool);
    union.strokes = vec![stroke(StrokeKind::Outer, Fill::LinearGradient, number("1", true, false))];
    let (_, out) = parts(&pool_of(vec![union]), 1, true);
    assert_eq!(out, "[Leaf(1)]<g mask=\"url(#smask0)\">[DoubledStroke(1, 0)]</g>");
}

fn page(font_css: &str) -> Page {
    Page { width: "10".to_string(), height: "20".to_string(), font_css: font_css.to_string() }
}

#[test]
fn a_missing_root_is_an_error() {
    let pool = ShapesPool::new();
    for result in [
        render_to_svg(&pool, &1, &page(""), &vec![]),
        render_tree_to_svg(&pool, &1, false, &page(""), &vec![]),
        compose_svg(&pool, &1, false, &page(""), &vec![]).map(String::into_bytes),
    ] {
        match result {
            Ok(_) => panic!("no error"),
            Err(Error::CriticalError(message)) => assert_eq!(message, "Shape not found for SVG"),
        }
    }
}

#[test]
fn fonts_go_before_the_other_definitions() {
    let mut rectangle = shape(1, Type::Rect);
    rectangle.blur = Some(Blur {
        blur_type: BlurType::LayerBlur,
        hidden: false,
        value: number("5", true, false),
    });
    let pool = pool_of(vec![rectangle, shape(2, Type::Rect)]);
    let docs = vec![doc("<a/>")];
    let svg = compose_svg(&pool, &1, false, &page("@font-face{}"), &docs).expect("a document");
    assert!(
        svg.contains(
            "<defs><style type=\"text/css\"><![CDATA[@font-face{}]]></style><filter id=\"blur0\""
        ),
        "{svg}"
    );
    let svg = compose_svg(&pool, &2, false, &page("@font-face{}"), &docs).expect("a document");
    assert_eq!(
        svg,
        "<?xml version=\"1.0\" encoding=\"utf-8\" ?>\n<svg xmlns=\"http://www.w3.org/2000/svg\" \
         xmlns:xlink=\"http://www.w3.org/1999/xlink\" width=\"10\" height=\"20\"><defs>\
         <style type=\"text/css\"><![CDATA[@font-face{}]]></style></defs><a/></svg>"
    );
}

#[test]
fn fragments_are_taken_as_utf8() {
    let pool = pool_of(vec![shape(1, Type::Rect)]);
    let mut bytes = b"<svg><text>".to_vec();
    bytes.extend_from_slice("é".as_bytes());
    bytes.push(0xFF);
    bytes.extend_from_slice(b"</text></svg>");
    let svg = render_to_svg(&pool, &1, &page(""), &vec![bytes]).expect("a document");
    let svg = String::from_utf8(svg).expect("utf8 svg");
    assert!(svg.ends_with("<text>é\u{FFFD}</text></svg>"), "{svg}");
}

#[test]
fn no_id_is_defined_twice() {
    let mut group = container(1, Type::Group(Group { masked: true }), vec![2, 3, 4]);
    group.paint_order = vec![3, 4];
    group.mask_id = Some(2);
    group.drop_shadows = vec![shadow(number("1", true, false))];
    let mut shapes = vec![group];
    for id in 2..5u128 {
        let mut rectangle = shape(id, Type::Rect);
        rectangle.inner_shadows = vec![shadow(number("0", false, true))];
        rectangle.drop_shadows = vec![shadow(number("0", false, true))];
        shapes.push(rectangle);
    }
    let pool = pool_of(shapes);
    assert!(pool.is_acyclic(&1));
    let docs: Vec<String> = svg_fragments(&pool, &1, false)
        .iter()
        .map(|_| doc("<clipPath id=\"cl_0\"/><g clip-path=\"url(#cl_0)\"/>"))
        .collect();
    assert!(docs.len() > 5);
    let svg = compose_svg(&pool, &1, false, &page(""), &docs).expect("a document");
    let mut ids: Vec<&str> = svg
        .match_indices("id=\"")
        .map(|(at, _)| svg[at + 4..].split('"').next().unwrap_or(""))
        .collect();
    let count = ids.len();
    assert!(count > docs.len());
    ids.sort();
    ids.dedup();
    assert_eq!(ids.len(), count, "{svg}");
    // Every reference is to one of them.
    for (at, _) in svg.match_indices("url(#") {
        let name = svg[at + 5..].split(')').next().unwrap_or("");
        assert!(ids.contains(&name), "{name}: {svg}");
    }
    // Every group is closed.
    assert_eq!(svg.matches("<g ").count(), svg.matches("</g>").count() + docs.len());
}
