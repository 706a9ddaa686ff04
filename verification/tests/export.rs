//! Exports of small documents, with the markup that each drawing gives.
use svg_layers::document::{render_to_svg, render_tree_to_svg, svg_fragments, Page};
use svg_layers::ops::Draw;
use svg_layers::shape::{
    BlendMode, Blur, BlurType, ClipOp, Fill, Group, Paragraph, Region, Rgb, Scalar, Shadow, Shape,
    ShapesPool, Stroke, StrokeKind, TextContent, TextSpan, Type, Uuid,
};

fn uid(n: u32) -> Uuid {
    n as u128
}

fn scalar(v: f32) -> Scalar {
    Scalar { text: format!("{v}"), positive: v > 0.0, below_one: v < 1.0 }
}

fn radius_to_sigma(radius: f32) -> f32 {
    if radius > 0.0 {
        0.57735 * radius + 0.5
    } else {
        0.0
    }
}

fn no_region() -> Region {
    Region {
        x: String::new(),
        y: String::new(),
        width: String::new(),
        height: String::new(),
    }
}

fn shape(id: Uuid, shape_type: Type) -> Shape {
    Shape {
        id,
        hidden: false,
        shape_type,
        children: vec![],
        paint_order: vec![],
        mask_id: None,
        clip_content: true,
        open: false,
        fills: vec![],
        strokes: vec![],
        opacity: scalar(1.0),
        blend_mode: BlendMode::SrcOver,
        blur: None,
        drop_shadows: vec![],
        drop_region: no_region(),
        inner_shadows: vec![],
        inner_region: no_region(),
    }
}

fn solid_rect(id: Uuid) -> Shape {
    let mut rect = shape(id, Type::Rect);
    rect.fills = vec![Fill::Solid];
    rect
}

fn group(id: Uuid, masked: bool, children: Vec<Uuid>) -> Shape {
    let mut group = shape(id, Type::Group(Group { masked }));
    let first = if masked { 1 } else { 0 };
    group.mask_id = if masked { children.first().copied() } else { None };
    group.paint_order = children[first..].to_vec();
    group.children = children;
    group
}

/// A shadow at scale 1: color, alpha, blur, spread and offset.
fn shadow(color: (u8, u8, u8), alpha: u8, blur: f32, spread: f32, offset: (f32, f32)) -> Shadow {
    let (r, g, b) = color;
    Shadow {
        sigma: format!("{}", radius_to_sigma(blur)),
        dx: format!("{}", offset.0),
        dy: format!("{}", offset.1),
        spread: scalar(spread),
        color: Rgb { r, g, b },
        opacity: format!("{}", alpha as f32 / 255.0),
    }
}

/// The filter region for one shadow on a shape of the given size.
fn region(size: (f32, f32), blur: f32, spread: f32, offset: (f32, f32)) -> Region {
    let reach = 3.0 * radius_to_sigma(blur) + spread;
    let (mx, my) = (reach + offset.0.abs(), reach + offset.1.abs());
    let (w, h) = (size.0.max(1.0), size.1.max(1.0));
    Region {
        x: format!("{:.4}", -mx / w * 100.0),
        y: format!("{:.4}", -my / h * 100.0),
        width: format!("{:.4}", (1.0 + 2.0 * mx / w) * 100.0),
        height: format!("{:.4}", (1.0 + 2.0 * my / h) * 100.0),
    }
}

fn stroke(kind: StrokeKind, fill: Fill, dotted: bool, opacity: f32) -> Stroke {
    let clip_op = match (kind, dotted) {
        (StrokeKind::Inner, true) => Some(ClipOp::Intersect),
        (StrokeKind::Outer, true) => Some(ClipOp::Difference),
        _ => None,
    };
    Stroke { kind, clip_op, fill, opacity: scalar(opacity) }
}

fn pool_of(shapes: Vec<Shape>) -> ShapesPool {
    let mut pool = ShapesPool::new();
    for shape in shapes {
        pool.insert(shape);
    }
    pool
}

fn documents(
    pool: &ShapesPool,
    root: Uuid,
    images: bool,
    paint: &dyn Fn(&Draw) -> String,
) -> Vec<Vec<u8>> {
    assert!(pool.is_acyclic(&root));
    let mut docs: Vec<Vec<u8>> = Vec::new();
    for draws in svg_fragments(pool, &root, images) {
        let markup: Vec<String> = draws.iter().map(paint).collect();
        let doc = format!(
            "<?xml version=\"1.0\" encoding=\"utf-8\" ?>\n<svg width=\"100\" height=\"80\">{}</svg>\n",
            markup.concat()
        );
        docs.push(doc.into_bytes());
    }
    docs
}

fn page(width: f32, height: f32) -> Page {
    Page { width: format!("{width}"), height: format!("{height}"), font_css: String::new() }
}

fn render(
    pool: &ShapesPool,
    root: Uuid,
    size: (f32, f32),
    paint: &dyn Fn(&Draw) -> String,
) -> String {
    let docs = documents(pool, root, false, paint);
    let bytes = render_tree_to_svg(pool, &root, false, &page(size.0, size.1), &docs);
    String::from_utf8(bytes.expect("svg export")).expect("utf8 svg")
}

fn render_with_images(
    pool: &ShapesPool,
    root: Uuid,
    size: (f32, f32),
    paint: &dyn Fn(&Draw) -> String,
) -> String {
    let docs = documents(pool, root, true, paint);
    let bytes = render_to_svg(pool, &root, &page(size.0, size.1), &docs);
    String::from_utf8(bytes.expect("svg export")).expect("utf8 svg")
}

fn opening(width: &str, height: &str) -> String {
    format!(
        "<?xml version=\"1.0\" encoding=\"utf-8\" ?>\n<svg xmlns=\"http://www.w3.org/2000/svg\" \
         xmlns:xlink=\"http://www.w3.org/1999/xlink\" width=\"{width}\" height=\"{height}\">"
    )
}

fn rect(fill: &str, width: u32, height: u32) -> String {
    format!("<rect fill=\"{fill}\" width=\"{width}\" height=\"{height}\"/>")
}

#[test]
fn exports_a_solid_rect() {
    let id = uid(1);
    let pool = pool_of(vec![solid_rect(id)]);
    let svg = render(&pool, id, (100.0, 80.0), &|_| rect("red", 100, 80));
    assert_eq!(svg, format!("{}{}</svg>", opening("100", "80"), rect("red", 100, 80)));
}

#[test]
fn exports_leaf_opacity_and_blend_mode_as_group_wrappers() {
    let id = uid(1);
    let mut shape = solid_rect(id);
    shape.opacity = scalar(0.5);
    shape.blend_mode = BlendMode::Multiply;
    let pool = pool_of(vec![shape]);
    let svg = render(&pool, id, (100.0, 100.0), &|_| rect("#0080FF", 100, 100));
    assert!(svg.contains("opacity=\"0.5\""), "missing opacity wrapper: {svg}");
    assert!(svg.contains("mix-blend-mode:multiply"), "missing blend-mode wrapper: {svg}");
    assert_eq!(
        svg,
        format!(
            "{}<g opacity=\"0.5\" style=\"mix-blend-mode:multiply\">{}</g></svg>",
            opening("100", "100"),
            rect("#0080FF", 100, 100)
        )
    );
}

#[test]
fn exports_a_group_with_two_rects_and_group_opacity() {
    let (group_id, a, b) = (uid(1), uid(2), uid(3));
    let mut outer = group(group_id, false, vec![a, b]);
    outer.opacity = scalar(0.7);
    let pool = pool_of(vec![outer, solid_rect(a), solid_rect(b)]);
    let svg = render(&pool, group_id, (200.0, 100.0), &|draw| {
        if *draw == Draw::Leaf(a) {
            rect("blue", 90, 100)
        } else {
            rect("#00C800", 90, 100)
        }
    });
    // Consecutive leaves share one fragment.
    assert_eq!(svg_fragments(&pool, &group_id, false), vec![vec![Draw::Leaf(a), Draw::Leaf(b)]]);
    assert_eq!(
        svg,
        format!(
            "{}<g opacity=\"0.7\">{}{}</g></svg>",
            opening("200", "100"),
            rect("blue", 90, 100),
            rect("#00C800", 90, 100)
        )
    );
}

#[test]
fn exports_a_masked_group() {
    let (group_id, mask, content) = (uid(1), uid(2), uid(3));
    let pool = pool_of(vec![
        group(group_id, true, vec![mask, content]),
        solid_rect(mask),
        solid_rect(content),
    ]);
    let svg = render(&pool, group_id, (100.0, 100.0), &|draw| {
        if *draw == Draw::Leaf(mask) {
            rect("black", 50, 100)
        } else {
            rect("red", 100, 100)
        }
    });
    assert_eq!(
        svg,
        format!(
            "{}<defs><mask id=\"mask1\" maskUnits=\"userSpaceOnUse\" mask-type=\"alpha\">{}</mask>\
             </defs><g mask=\"url(#mask1)\">{}</g></svg>",
            opening("100", "100"),
            rect("black", 50, 100),
            rect("red", 100, 100)
        )
    );
}

#[test]
fn exports_a_masked_group_whose_mask_is_a_group() {
    let (group_id, mask_group, ellipse) = (uid(1), uid(2), uid(3));
    let (band_h, band_v) = (uid(4), uid(5));
    let mut content = shape(ellipse, Type::Circle);
    content.fills = vec![Fill::Solid];
    let pool = pool_of(vec![
        group(group_id, true, vec![mask_group, ellipse]),
        group(mask_group, false, vec![band_h, band_v]),
        solid_rect(band_h),
        solid_rect(band_v),
        content,
    ]);
    let svg = render(&pool, group_id, (100.0, 100.0), &|draw| match draw {
        Draw::Leaf(4) => rect("#B1B2B5", 100, 20),
        Draw::Leaf(5) => rect("#B1B2B5", 20, 100),
        _ => "<ellipse fill=\"#1A4DE5\" cx=\"50\" cy=\"50\" rx=\"50\" ry=\"50\"/>".to_string(),
    });
    assert!(svg.contains("mask=\"url(#"), "content must reference a mask: {svg}");
    assert!(
        !svg.contains("mask-type=\"alpha\"></mask>"),
        "mask from a group must not be empty: {svg}"
    );
    assert!(
        svg.contains(&format!(
            "mask-type=\"alpha\">{}{}</mask>",
            rect("#B1B2B5", 100, 20),
            rect("#B1B2B5", 20, 100)
        )),
        "mask must hold both bands: {svg}"
    );
}

#[test]
fn exports_a_shape_with_a_drop_shadow() {
    let id = uid(1);
    let mut circle = shape(id, Type::Circle);
    circle.fills = vec![Fill::Solid];
    circle.drop_shadows = vec![shadow((0x38, 0x00, 0x00), 0xFF, 4.0, 0.0, (10.0, 4.0))];
    circle.drop_region = region((100.0, 80.0), 4.0, 0.0, (10.0, 4.0));
    let pool = pool_of(vec![circle]);
    let bounds = region((100.0, 80.0), 4.0, 0.0, (10.0, 4.0));
    let ellipse = "<ellipse fill=\"#FBB\" cx=\"50\" cy=\"40\" rx=\"50\" ry=\"40\"/>";
    let svg = render(&pool, id, (120.0, 90.0), &|_| ellipse.to_string());
    assert!(
        svg.contains("<filter") && svg.contains("feOffset") && svg.contains("feGaussianBlur"),
        "drop shadow must be emitted as an SVG filter: {svg}"
    );
    assert!(svg.contains("flood-color=\"#380000\""), "shadow tint must be preserved: {svg}");
    assert_eq!(
        svg,
        format!(
            "{}<defs><filter id=\"shadow0\" x=\"{}%\" y=\"{}%\" width=\"{}%\" \
             height=\"{}%\" primitiveUnits=\"userSpaceOnUse\" \
             color-interpolation-filters=\"sRGB\"><feGaussianBlur in=\"SourceAlpha\" \
             stdDeviation=\"{}\" result=\"shbl0\"/><feOffset in=\"shbl0\" dx=\"10\" dy=\"4\" \
             result=\"shof0\"/><feFlood flood-color=\"#380000\" flood-opacity=\"1\" \
             result=\"shfl0\"/><feComposite in=\"shfl0\" in2=\"shof0\" operator=\"in\" \
             result=\"shad0\"/><feMerge><feMergeNode in=\"shad0\"/><feMergeNode \
             in=\"SourceGraphic\"/></feMerge></filter></defs>\
             <g filter=\"url(#shadow0)\">{ellipse}</g></svg>",
            opening("120", "90"),
            bounds.x,
            bounds.y,
            bounds.width,
            bounds.height,
            radius_to_sigma(4.0)
        )
    );
}

#[test]
fn exports_a_shape_with_a_layer_blur() {
    let id = uid(1);
    let mut rectangle = solid_rect(id);
    let mut value = scalar(8.0);
    value.text = format!("{}", radius_to_sigma(8.0));
    rectangle.blur = Some(Blur { blur_type: BlurType::LayerBlur, hidden: false, value });
    let pool = pool_of(vec![rectangle]);
    let svg = render(&pool, id, (100.0, 100.0), &|_| rect("#0080FF", 100, 100));
    assert!(
        svg.contains("<filter") && svg.contains("feGaussianBlur"),
        "layer blur must be emitted as an SVG feGaussianBlur filter: {svg}"
    );
    assert!(
        svg.contains("filter=\"url(#blur"),
        "shape must reference the blur filter: {svg}"
    );
    assert_eq!(
        svg,
        format!(
            "{}<defs><filter id=\"blur0\" x=\"-50%\" y=\"-50%\" width=\"200%\" height=\"200%\">\
             <feGaussianBlur stdDeviation=\"{}\"/></filter></defs>\
             <g filter=\"url(#blur0)\">{}</g></svg>",
            opening("100", "100"),
            radius_to_sigma(8.0),
            rect("#0080FF", 100, 100)
        )
    );
}

#[test]
fn exports_a_frame_with_a_drop_shadow() {
    let id = uid(1);
    let mut frame = shape(id, Type::Frame);
    frame.strokes = vec![stroke(StrokeKind::Inner, Fill::Solid, false, 1.0)];
    frame.drop_shadows = vec![shadow((0, 0, 0), 0x33, 4.0, 0.0, (40.0, 40.0))];
    frame.drop_region = region((354.0, 204.0), 4.0, 0.0, (40.0, 40.0));
    let pool = pool_of(vec![frame]);
    let outline = "<rect fill=\"none\" stroke=\"black\" stroke-width=\"10\" x=\"5\" y=\"5\"/>";
    let svg = render(&pool, id, (400.0, 250.0), &|draw| match draw {
        Draw::Strokes(_) => outline.to_string(),
        _ => rect("black", 354, 204),
    });
    assert!(
        svg.contains("<filter") && svg.contains("feOffset") && svg.contains("feGaussianBlur"),
        "frame drop shadow must be emitted as an SVG filter: {svg}"
    );
    assert!(
        svg.contains("filter=\"url(#shadow"),
        "frame content must reference the shadow filter: {svg}"
    );
    assert!(svg.contains("stroke-width=\"10\""), "frame stroke must be present: {svg}");
    // The shadow lies behind the content and outside its clip.
    assert!(
        svg.ends_with(&format!(
            "<g filter=\"url(#shadow0)\">{outline}</g><g clip-path=\"url(#clip1)\">{outline}</g></svg>"
        )),
        "shadow, then clipped content: {svg}"
    );
    // Only the shadow is cast: the content is not merged on top.
    assert!(!svg.contains("SourceGraphic"), "{svg}");
}

#[test]
fn frame_drop_shadow_does_not_double_child_shadows() {
    let (frame_id, child_id) = (uid(1), uid(2));
    let mut frame = shape(frame_id, Type::Frame);
    frame.children = vec![child_id];
    frame.paint_order = vec![child_id];
    frame.drop_shadows = vec![shadow((0x58, 0xEA, 0x66), 0xFF, 0.0, 0.0, (50.0, 50.0))];
    frame.drop_region = region((300.0, 200.0), 0.0, 0.0, (50.0, 50.0));
    let mut child = solid_rect(child_id);
    child.drop_shadows = vec![shadow((0x19, 0x00, 0xFF), 0xFF, 0.0, 0.0, (20.0, 20.0))];
    child.drop_region = region((120.0, 80.0), 0.0, 0.0, (20.0, 20.0));
    let pool = pool_of(vec![frame, child]);
    let svg = render(&pool, frame_id, (350.0, 250.0), &|draw| match draw {
        Draw::Leaf(_) => rect("#E17FDA", 120, 80),
        _ => rect("black", 300, 200),
    });
    assert_eq!(
        svg.matches("flood-color=\"#58EA66\"").count(),
        1,
        "frame (green) shadow filter must be defined once: {svg}"
    );
    assert_eq!(
        svg.matches("flood-color=\"#1900FF\"").count(),
        1,
        "child (blue) shadow filter must be defined once: {svg}"
    );
    assert_eq!(
        svg.matches("filter=\"url(#shadow").count(),
        2,
        "exactly the frame-silhouette + child-content shadow refs: {svg}"
    );
    assert!(
        svg.ends_with(&format!(
            "<g filter=\"url(#shadow0)\"><g clip-path=\"url(#clip1)\">{child}</g></g>\
             <g clip-path=\"url(#clip2)\"><g filter=\"url(#shadow3)\">{child}</g></g></svg>",
            child = rect("#E17FDA", 120, 80)
        )),
        "{svg}"
    );
}

fn stroked_rect(id: Uuid, kind: StrokeKind, fill: Fill, dotted: bool) -> ShapesPool {
    let mut rectangle = solid_rect(id);
    rectangle.strokes = vec![stroke(kind, fill, dotted, 1.0)];
    pool_of(vec![rectangle])
}

/// A rectangle that is drawn together with its solid stroke.
fn inline_stroke(color: &str) -> String {
    format!("{}<rect fill=\"none\" stroke=\"{color}\" stroke-width=\"10\"/>", rect("#CCC", 100, 80))
}

#[test]
fn exports_a_shape_with_a_solid_inner_stroke() {
    let id = uid(1);
    let pool = stroked_rect(id, StrokeKind::Inner, Fill::Solid, false);
    let svg = render(&pool, id, (100.0, 80.0), &|_| inline_stroke("red"));
    assert!(
        svg.contains("stroke-width=\"10\"") && svg.contains("stroke=\"red\""),
        "inner stroke must be present: {svg}"
    );
    assert_eq!(svg, format!("{}{}</svg>", opening("100", "80"), inline_stroke("red")));
}

#[test]
fn exports_a_shape_with_a_solid_center_stroke() {
    let id = uid(1);
    let pool = stroked_rect(id, StrokeKind::Center, Fill::Solid, false);
    let svg = render(&pool, id, (110.0, 90.0), &|_| inline_stroke("#080"));
    assert!(
        svg.contains("stroke-width=\"10\"") && svg.contains("stroke=\"#080\""),
        "center stroke must be present: {svg}"
    );
    assert_eq!(svg, format!("{}{}</svg>", opening("110", "90"), inline_stroke("#080")));
}

#[test]
fn exports_a_shape_with_a_solid_outer_stroke() {
    let id = uid(1);
    let pool = stroked_rect(id, StrokeKind::Outer, Fill::Solid, false);
    let svg = render(&pool, id, (120.0, 100.0), &|_| inline_stroke("blue"));
    assert!(
        svg.contains("stroke-width=\"10\"") && svg.contains("stroke=\"blue\""),
        "outer stroke must be present: {svg}"
    );
    assert_eq!(svg, format!("{}{}</svg>", opening("120", "100"), inline_stroke("blue")));
}

const IMAGE: &str = "<image xlink:href=\"data:image/png;base64,AA==\" width=\"2\" height=\"2\"/>";

fn image_markup(draw: &Draw) -> String {
    match draw {
        Draw::StrokeImage(_, 0) => IMAGE.to_string(),
        Draw::StrokeSilhouette(_, 0) => "<path d=\"silhouette\"/>".to_string(),
        Draw::DottedRing(_, 0) => "<path d=\"ring\"/>".to_string(),
        Draw::Page => rect("white", 200000, 200000),
        Draw::Silhouette(_) => rect("black", 100, 80),
        _ => rect("#CCC", 100, 80),
    }
}

#[test]
fn exports_a_shape_with_a_solid_center_image_stroke() {
    let id = uid(1);
    let pool = stroked_rect(id, StrokeKind::Center, Fill::Image, false);
    let svg = render_with_images(&pool, id, (116.0, 96.0), &image_markup);
    assert!(svg.contains("<image"), "stroke image must be emitted: {svg}");
    assert!(
        svg.contains("mask-type=\"alpha\""),
        "stroke silhouette alpha mask must be present: {svg}"
    );
    assert_eq!(
        svg,
        format!(
            "{}<defs><mask id=\"simask0\" maskUnits=\"userSpaceOnUse\" mask-type=\"alpha\">\
             <path d=\"silhouette\"/></mask></defs>{}<g mask=\"url(#simask0)\">{IMAGE}</g></svg>",
            opening("116", "96"),
            rect("#CCC", 100, 80)
        )
    );
}

#[test]
fn exports_a_shape_with_a_dotted_inner_image_stroke() {
    let id = uid(1);
    let pool = stroked_rect(id, StrokeKind::Inner, Fill::Image, true);
    let svg = render_with_images(&pool, id, (100.0, 80.0), &image_markup);
    assert!(svg.contains("<image"), "stroke image must be emitted: {svg}");
    assert!(
        svg.contains("clip-path=\"url(#") && svg.contains("mask-type=\"alpha\""),
        "dotted-inner image stroke needs a clip-path + alpha ring mask: {svg}"
    );
    assert_eq!(
        svg,
        format!(
            "{}<defs><clipPath id=\"dclip0\" clipPathUnits=\"userSpaceOnUse\">{}</clipPath>\
             <mask id=\"dimask1\" maskUnits=\"userSpaceOnUse\" mask-type=\"alpha\">\
             <path d=\"ring\"/></mask></defs>{}<g clip-path=\"url(#dclip0)\">\
             <g mask=\"url(#dimask1)\">{IMAGE}</g></g></svg>",
            opening("100", "80"),
            rect("black", 100, 80),
            rect("#CCC", 100, 80)
        )
    );
}

#[test]
fn exports_a_shape_with_a_dotted_outer_image_stroke() {
    let id = uid(1);
    let pool = stroked_rect(id, StrokeKind::Outer, Fill::Image, true);
    let svg = render_with_images(&pool, id, (132.0, 112.0), &image_markup);
    assert!(svg.contains("<image"), "stroke image must be emitted: {svg}");
    assert!(
        svg.contains("mask=\"url(#") && svg.contains("mask-type=\"alpha\""),
        "dotted-outer image stroke needs restriction + alpha ring masks: {svg}"
    );
    assert_eq!(
        svg,
        format!(
            "{}<defs><mask id=\"dmask0\" maskUnits=\"userSpaceOnUse\">{}{}</mask>\
             <mask id=\"dimask1\" maskUnits=\"userSpaceOnUse\" mask-type=\"alpha\">\
             <path d=\"ring\"/></mask></defs>{}<g mask=\"url(#dmask0)\">\
             <g mask=\"url(#dimask1)\">{IMAGE}</g></g></svg>",
            opening("132", "112"),
            rect("white", 200000, 200000),
            rect("black", 100, 80),
            rect("#CCC", 100, 80)
        )
    );
}

#[test]
fn exports_a_shape_with_a_solid_inner_image_stroke() {
    let id = uid(1);
    let pool = stroked_rect(id, StrokeKind::Inner, Fill::Image, false);
    let svg = render_with_images(&pool, id, (100.0, 80.0), &image_markup);
    assert!(svg.contains("<image"), "stroke image must be emitted: {svg}");
    assert!(
        svg.contains("mask-type=\"alpha\""),
        "inner stroke silhouette alpha mask must be present: {svg}"
    );
    assert!(svg.ends_with(&format!("<g mask=\"url(#simask0)\">{IMAGE}</g></svg>")), "{svg}");
}

#[test]
fn exports_a_shape_with_a_solid_outer_image_stroke() {
    let id = uid(1);
    let pool = stroked_rect(id, StrokeKind::Outer, Fill::Image, false);
    let svg = render_with_images(&pool, id, (132.0, 112.0), &image_markup);
    assert!(svg.contains("<image"), "stroke image must be emitted: {svg}");
    assert!(
        svg.contains("mask-type=\"alpha\""),
        "outer stroke silhouette alpha mask must be present: {svg}"
    );
    assert!(svg.ends_with(&format!("<g mask=\"url(#simask0)\">{IMAGE}</g></svg>")), "{svg}");
}

#[test]
fn exports_a_shape_with_an_image_fill() {
    let id = uid(1);
    let mut rectangle = shape(id, Type::Rect);
    rectangle.fills = vec![Fill::Image];
    let pool = pool_of(vec![rectangle]);
    // The fragment defines a clip of its own and refers to it.
    let markup = format!(
        "<clipPath id=\"cl_0\"><path d=\"M0 0h100v80H0z\"/></clipPath>\
         <g clip-path=\"url(#cl_0)\">{IMAGE}</g>"
    );
    let svg = render_with_images(&pool, id, (100.0, 80.0), &|_| markup.clone());
    assert!(svg.contains("<image"), "image fill must be emitted: {svg}");
    assert_eq!(
        svg,
        format!(
            "{}<clipPath id=\"f0_cl_0\"><path d=\"M0 0h100v80H0z\"/></clipPath>\
             <g clip-path=\"url(#f0_cl_0)\">{IMAGE}</g></svg>",
            opening("100", "80")
        )
    );
}

fn stroked_path(id: Uuid, kind: StrokeKind, fill: Fill, open: bool) -> ShapesPool {
    let mut path = shape(id, Type::Path);
    path.open = open;
    path.fills = vec![Fill::Solid];
    path.strokes = vec![stroke(kind, fill, false, 1.0)];
    pool_of(vec![path])
}

const TRIANGLE: &str = "<path fill=\"#CCC\" d=\"M50 0L100 80L0 80Z\"/>";

#[test]
fn exports_a_path_with_a_solid_inner_stroke() {
    let id = uid(1);
    let pool = stroked_path(id, StrokeKind::Inner, Fill::Solid, false);
    let svg = render(&pool, id, (100.0, 80.0), &|_| TRIANGLE.to_string());
    assert_eq!(svg_fragments(&pool, &id, false), vec![vec![Draw::Leaf(id)]]);
    assert_eq!(svg, format!("{}{TRIANGLE}</svg>", opening("100", "80")));
}

#[test]
fn exports_a_path_with_a_solid_center_stroke() {
    let id = uid(1);
    let pool = stroked_path(id, StrokeKind::Center, Fill::Solid, false);
    let svg = render(&pool, id, (110.0, 90.0), &|_| TRIANGLE.to_string());
    assert_eq!(svg_fragments(&pool, &id, false), vec![vec![Draw::Leaf(id)]]);
    assert_eq!(svg, format!("{}{TRIANGLE}</svg>", opening("110", "90")));
}

#[test]
fn exports_a_path_with_a_solid_outer_stroke() {
    let id = uid(1);
    let pool = stroked_path(id, StrokeKind::Outer, Fill::Solid, false);
    let doubled = "<path fill=\"none\" stroke=\"blue\" stroke-width=\"20\"/>";
    let svg = render(&pool, id, (120.0, 100.0), &|draw| match draw {
        Draw::Leaf(_) => TRIANGLE.to_string(),
        Draw::DoubledStroke(_, 0) => doubled.to_string(),
        Draw::Page => rect("white", 200000, 200000),
        _ => "<path d=\"M50 0L100 80L0 80Z\"/>".to_string(),
    });
    assert!(
        svg.contains("<mask") && svg.contains("mask=\"url(#smask"),
        "outer path stroke must be composed via an exterior mask: {svg}"
    );
    assert!(
        svg.contains("stroke-width=\"20\""),
        "outer path stroke must emit the double-width stroke: {svg}"
    );
    assert_eq!(
        svg,
        format!(
            "{}<defs><mask id=\"smask0\" maskUnits=\"userSpaceOnUse\">{}\
             <path d=\"M50 0L100 80L0 80Z\"/></mask></defs>{TRIANGLE}\
             <g mask=\"url(#smask0)\">{doubled}</g></svg>",
            opening("120", "100"),
            rect("white", 200000, 200000)
        )
    );
}

#[test]
fn exports_a_shape_with_a_dotted_inner_stroke() {
    let id = uid(1);
    let pool = stroked_rect(id, StrokeKind::Inner, Fill::Solid, true);
    let dots = "<path fill=\"red\" d=\"dots\"/>";
    let svg = render(&pool, id, (100.0, 80.0), &|draw| match draw {
        Draw::DottedStroke(_, 0) => dots.to_string(),
        Draw::Silhouette(_) => rect("black", 100, 80),
        _ => rect("#CCC", 100, 80),
    });
    assert!(
        svg.contains("<clipPath") && svg.contains("clip-path=\"url(#dclip"),
        "dotted inner stroke must be composed via an interior clip: {svg}"
    );
    assert!(svg.contains("fill=\"red\""), "dotted inner stroke color must be present: {svg}");
    assert!(svg.ends_with(&format!("<g clip-path=\"url(#dclip0)\">{dots}</g></svg>")), "{svg}");
}

#[test]
fn exports_a_shape_with_a_dotted_center_stroke() {
    let id = uid(1);
    let pool = stroked_rect(id, StrokeKind::Center, Fill::Solid, true);
    let svg = render(&pool, id, (110.0, 90.0), &|_| inline_stroke("#080"));
    assert_eq!(svg_fragments(&pool, &id, false), vec![vec![Draw::Leaf(id)]]);
    assert_eq!(svg, format!("{}{}</svg>", opening("110", "90"), inline_stroke("#080")));
}

#[test]
fn exports_a_shape_with_a_dotted_outer_stroke() {
    let id = uid(1);
    let pool = stroked_rect(id, StrokeKind::Outer, Fill::Solid, true);
    let dots = "<path fill=\"blue\" d=\"dots\"/>";
    let svg = render(&pool, id, (120.0, 100.0), &|draw| match draw {
        Draw::DottedStroke(_, 0) => dots.to_string(),
        Draw::Silhouette(_) => rect("black", 100, 80),
        Draw::Page => rect("white", 200000, 200000),
        _ => rect("#CCC", 100, 80),
    });
    assert!(
        svg.contains("<mask") && svg.contains("mask=\"url(#dmask"),
        "dotted outer stroke must be composed via an exterior mask: {svg}"
    );
    assert!(svg.contains("fill=\"blue\""), "dotted outer stroke color must be present: {svg}");
    assert!(svg.ends_with(&format!("<g mask=\"url(#dmask0)\">{dots}</g></svg>")), "{svg}");
}

fn text(id: Uuid, strokes: Vec<Stroke>) -> Shape {
    let span = TextSpan { font_family: "default-400-normal".to_string() };
    let content = TextContent { paragraphs: vec![Paragraph { children: vec![span] }] };
    let mut text = shape(id, Type::Text(content));
    text.strokes = strokes;
    text
}

const GLYPHS: &str = "<text fill=\"#E17FDA\" x=\"0\" y=\"190\">HOLA</text>";
const BLACK_GLYPHS: &str = "<text x=\"0\" y=\"190\">HOLA</text>";

fn text_markup(draw: &Draw) -> String {
    match draw {
        Draw::Leaf(_) => GLYPHS.to_string(),
        Draw::Glyphs(_) => BLACK_GLYPHS.to_string(),
        Draw::Page => rect("white", 200000, 200000),
        _ => "<text fill=\"none\" stroke=\"blue\" stroke-width=\"4\">HOLA</text>".to_string(),
    }
}

#[test]
fn exports_text_with_a_solid_inner_stroke() {
    let id = uid(1);
    let pool = pool_of(vec![text(id, vec![stroke(StrokeKind::Inner, Fill::Solid, false, 1.0)])]);
    let svg = render(&pool, id, (560.0, 240.0), &text_markup);
    assert!(svg.contains("<text"), "text glyphs must be present: {svg}");
    assert!(
        svg.contains("<clipPath") && svg.contains("clip-path=\"url(#tclip"),
        "inner text stroke must be composed via a glyph-silhouette clip: {svg}"
    );
    assert_eq!(
        svg,
        format!(
            "{}<defs><clipPath id=\"tclip0\" clipPathUnits=\"userSpaceOnUse\">{BLACK_GLYPHS}\
             </clipPath></defs>{GLYPHS}<g clip-path=\"url(#tclip0)\">{}</g></svg>",
            opening("560", "240"),
            text_markup(&Draw::TextStroke(id, 0))
        )
    );
}

#[test]
fn exports_text_with_a_solid_center_stroke() {
    let id = uid(1);
    let pool = pool_of(vec![text(id, vec![stroke(StrokeKind::Center, Fill::Solid, false, 1.0)])]);
    let stroked = "<text stroke=\"blue\" stroke-width=\"2\">HOLA</text>";
    let svg = render(&pool, id, (560.0, 240.0), &|_| stroked.to_string());
    assert!(svg.contains("<text"), "text glyphs must be present: {svg}");
    assert!(
        svg.contains("stroke-width=\"2\"") && svg.contains("stroke=\"blue\""),
        "center text stroke must be present: {svg}"
    );
    assert_eq!(svg, format!("{}{stroked}</svg>", opening("560", "240")));
}

#[test]
fn exports_text_with_a_solid_outer_stroke() {
    let id = uid(1);
    let pool = pool_of(vec![text(id, vec![stroke(StrokeKind::Outer, Fill::Solid, false, 1.0)])]);
    let svg = render(&pool, id, (560.0, 240.0), &text_markup);
    assert!(svg.contains("<text"), "text glyphs must be present: {svg}");
    assert!(
        svg.contains("<mask") && svg.contains("mask=\"url(#tmask"),
        "outer text stroke must be composed via an exterior mask: {svg}"
    );
    assert!(
        svg.contains("stroke=\"blue\""),
        "outer text stroke color must be present: {svg}"
    );
    assert_eq!(
        svg,
        format!(
            "{}<defs><mask id=\"tmask0\" maskUnits=\"userSpaceOnUse\">{}{BLACK_GLYPHS}</mask>\
             </defs>{GLYPHS}<g mask=\"url(#tmask0)\">{}</g></svg>",
            opening("560", "240"),
            rect("white", 200000, 200000),
            text_markup(&Draw::TextStroke(id, 0))
        )
    );
}

#[test]
fn exports_a_shape_with_an_inner_shadow() {
    let id = uid(1);
    let mut rectangle = solid_rect(id);
    rectangle.inner_shadows = vec![shadow((0, 0, 0), 0x66, 12.0, 0.0, (8.0, 6.0))];
    rectangle.inner_region = region((120.0, 90.0), 12.0, 0.0, (8.0, 6.0));
    let pool = pool_of(vec![rectangle]);
    let svg = render(&pool, id, (120.0, 90.0), &|draw| match draw {
        Draw::Silhouette(_) => rect("black", 120, 90),
        _ => rect("#B1B2B5", 120, 90),
    });
    assert!(
        svg.contains("filter=\"url(#inshadow"),
        "inner shadow must be emitted as an SVG filter: {svg}"
    );
    assert!(
        svg.contains("operator=\"out\"") && svg.contains("flood-color=\"#000000\""),
        "inner shadow must build a tinted interior band: {svg}"
    );
    assert!(
        svg.contains(&format!(
            "<feGaussianBlur in=\"SourceAlpha\" stdDeviation=\"{}\" result=\"isbl0\"/>\
             <feOffset in=\"isbl0\" dx=\"8\" dy=\"6\" result=\"isof0\"/>\
             <feComposite in=\"SourceAlpha\" in2=\"isof0\" operator=\"out\" result=\"isbd0\"/>\
             <feFlood flood-color=\"#000000\" flood-opacity=\"0.4\" result=\"isfl0\"/>\
             <feComposite in=\"isfl0\" in2=\"isbd0\" operator=\"in\" result=\"istn0\"/>\
             <feComposite in=\"istn0\" in2=\"SourceAlpha\" operator=\"in\" result=\"issh0\"/>\
             <feMerge><feMergeNode in=\"issh0\"/></feMerge></filter>",
            radius_to_sigma(12.0)
        )),
        "{svg}"
    );
    assert!(
        svg.ends_with(&format!(
            "{}<g filter=\"url(#inshadow0)\">{}</g></svg>",
            rect("#B1B2B5", 120, 90),
            rect("black", 120, 90)
        )),
        "{svg}"
    );
}

#[test]
fn exports_text_with_an_inner_shadow() {
    let id = uid(1);
    let mut label = text(id, vec![]);
    label.inner_shadows = vec![shadow((0, 0, 0), 0x99, 6.0, 0.0, (4.0, 4.0))];
    label.inner_region = region((560.0, 240.0), 6.0, 0.0, (4.0, 4.0));
    let pool = pool_of(vec![label]);
    let svg = render(&pool, id, (560.0, 240.0), &text_markup);
    assert!(svg.contains("<text"), "text glyphs must be present: {svg}");
    assert!(
        svg.contains("filter=\"url(#inshadow"),
        "text inner shadow must be emitted as an SVG filter: {svg}"
    );
    // A text needs no fill for its inner shadow, which follows the glyphs.
    assert!(
        svg.ends_with(&format!("{GLYPHS}<g filter=\"url(#inshadow0)\">{BLACK_GLYPHS}</g></svg>")),
        "{svg}"
    );
}
