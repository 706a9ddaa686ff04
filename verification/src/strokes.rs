//! Shadows, effects and strokes of a single shape.
use vstd::prelude::*;
use vstd::string::*;

use crate::filter::{
    drop_shadow_body, drop_shadow_body_text, inner_shadow_body, inner_shadow_body_text,
};
use crate::ops::{op_view, ops_view, push_op, text_view, Confinement, Draw, Op, OpView};
use crate::shape::{ClipOp, Fill, Scalar, Shape, StrokeKind, Type, Uuid};
use crate::style::{blend_css, blend_keyword, layer_blur, layer_blur_value};

verus! {

/// `f(0) + f(1) + ... + f(n - 1)`.
pub open spec fn concat(n: nat, f: spec_fn(int) -> Seq<OpView>) -> Seq<OpView>
    decreases n,
{
    if n == 0 {
        Seq::empty()
    } else {
        concat((n - 1) as nat, f) + f(n - 1)
    }
}

/// Concatenation is associative.
pub proof fn lemma_concat_assoc(a: Seq<OpView>, b: Seq<OpView>, c: Seq<OpView>)
    ensures
        (a + b) + c == a + (b + c),
{
    assert((a + b) + c =~= a + (b + c));
}

/// The text of a number below one.
pub open spec fn below_one(value: Scalar) -> Option<Seq<char>> {
    if value.below_one {
        Some(value.text@)
    } else {
        None
    }
}

fn below_one_text(value: &Scalar) -> (r: Option<String>)
    ensures
        text_view(r) == below_one(*value),
{
    if value.below_one {
        Some(value.text.clone())
    } else {
        None
    }
}

/// The group for the composite effects of a shape: opacity, blend mode, layer blur.
pub open spec fn effects_group(e: Shape) -> Option<OpView> {
    let opacity = below_one(e.opacity);
    let blend = blend_keyword(e.blend_mode);
    let blur = layer_blur(e);
    if opacity is None && blend is None && blur is None {
        None
    } else {
        Some(OpView::Effects { opacity, blend, blur })
    }
}

/// Builds the group for the composite effects of a shape (opacity, blend mode, layer
/// blur). Returns `None` when the shape needs no group.
pub fn svg_effect_attrs(element: &Shape) -> (group: Option<Op>)
    ensures
        op_view(group) == effects_group(*element),
{
    let opacity = below_one_text(&element.opacity);
    let blend: Option<String> = match blend_css(element.blend_mode) {
        Some(css) => Some(css.to_owned()),
        None => None,
    };
    let blur = layer_blur_value(element);
    if opacity.is_none() && blend.is_none() && blur.is_none() {
        None
    } else {
        Some(Op::Effects { opacity, blend, blur })
    }
}

/// The group for the drop shadows of a shape.
pub open spec fn drop_shadow_group(e: Shape, include_source: bool) -> Option<OpView> {
    if e.drop_shadows@.len() == 0 {
        None
    } else {
        Some(
            OpView::Filter {
                prefix: "shadow"@,
                body: drop_shadow_body(e.drop_shadows@, e.drop_region, include_source),
            },
        )
    }
}

/// Builds the group whose filter reproduces the visible drop shadows of a shape, or
/// `None` when there are none.
///
/// With `include_source` the shape lies on top of its shadows; without, the filter
/// gives the shadows alone.
pub fn svg_drop_shadow_attr(element: &Shape, include_source: bool) -> (group: Option<Op>)
    ensures
        op_view(group) == drop_shadow_group(*element, include_source),
{
    if element.drop_shadows.len() == 0 {
        return None;
    }
    let body = drop_shadow_body_text(&element.drop_shadows, &element.drop_region, include_source);
    Some(Op::Filter { prefix: "shadow", body })
}

/// The group for the inner shadows of a shape.
pub open spec fn inner_shadow_group(e: Shape) -> Option<OpView> {
    if e.inner_shadows@.len() == 0 {
        None
    } else {
        Some(
            OpView::Filter {
                prefix: "inshadow"@,
                body: inner_shadow_body(e.inner_shadows@, e.inner_region),
            },
        )
    }
}

/// Builds the group whose filter turns a silhouette into the visible inner shadows of
/// a shape, or `None` when there are none.
pub fn svg_inner_shadow_attr(element: &Shape) -> (group: Option<Op>)
    ensures
        op_view(group) == inner_shadow_group(*element),
{
    if element.inner_shadows.len() == 0 {
        return None;
    }
    let body = inner_shadow_body_text(&element.inner_shadows, &element.inner_region);
    Some(Op::Filter { prefix: "inshadow", body })
}

/// Inner shadows: over a filled shape or a text, a silhouette in the group for them.
pub open spec fn inner_shadow_ops(e: Shape) -> Seq<OpView> {
    match inner_shadow_group(e) {
        Some(group) => if e.shape_type is Text {
            seq![group, OpView::Draw(Draw::Glyphs(e.id)), OpView::Close]
        } else if e.has_fills() {
            seq![group, OpView::Draw(Draw::Silhouette(e.id)), OpView::Close]
        } else {
            Seq::empty()
        },
        None => Seq::empty(),
    }
}

fn is_text(element: &Shape) -> (r: bool)
    ensures
        r == (element.shape_type is Text),
{
    match &element.shape_type {
        Type::Text(_) => true,
        _ => false,
    }
}

/// Emits the inner shadows of a shape as a filtered group around an opaque silhouette
/// (the geometry, or the glyphs of a text), drawn over the fill. A shape that is no
/// text needs fills for them.
pub fn svg_render_inner_shadows(ops: &mut Vec<Op>, element: &Shape)
    ensures
        ops_view(final(ops)@) == ops_view(old(ops)@) + inner_shadow_ops(*element),
{
    let ghost base = ops_view(ops@);
    let text = is_text(element);
    if text || element.has_fills() {
        match svg_inner_shadow_attr(element) {
            Some(group) => {
                push_op(ops, group);
                let silhouette = if text {
                    Draw::Glyphs(element.id)
                } else {
                    Draw::Silhouette(element.id)
                };
                push_op(ops, Op::Draw(silhouette));
                push_op(ops, Op::Close);
            },
            None => {},
        }
    }
    proof {
        assert(ops_view(ops@) =~= base + inner_shadow_ops(*element));
    }
}

/// A group confined to the exterior of a shape.
pub open spec fn outside(prefix: Seq<char>, id: Uuid) -> OpView {
    OpView::Confine {
        kind: Confinement::Mask,
        prefix,
        draws: seq![Draw::Page, Draw::Silhouette(id)],
        opacity: None,
    }
}

/// A group confined to the interior of a shape.
pub open spec fn inside(prefix: Seq<char>, id: Uuid) -> OpView {
    OpView::Confine {
        kind: Confinement::ClipPath,
        prefix,
        draws: seq![Draw::Silhouette(id)],
        opacity: None,
    }
}

fn push_outside(ops: &mut Vec<Op>, prefix: &'static str, id: Uuid)
    ensures
        ops_view(final(ops)@) == ops_view(old(ops)@) + seq![outside(prefix@, id)],
{
    let mut draws: Vec<Draw> = Vec::new();
    draws.push(Draw::Page);
    draws.push(Draw::Silhouette(id));
    proof {
        assert(draws@ =~= seq![Draw::Page, Draw::Silhouette(id)]);
    }
    push_op(ops, Op::Confine { kind: Confinement::Mask, prefix, draws, opacity: None });
}

/// Opens a group confined to the interior of a leaf by a clip path.
pub fn push_leaf_clip_path(ops: &mut Vec<Op>, element: &Shape)
    ensures
        ops_view(final(ops)@) == ops_view(old(ops)@) + seq![inside("dclip"@, element.id)],
{
    let mut draws: Vec<Draw> = Vec::new();
    draws.push(Draw::Silhouette(element.id));
    proof {
        assert(draws@ =~= seq![Draw::Silhouette(element.id)]);
    }
    push_op(
        ops,
        Op::Confine { kind: Confinement::ClipPath, prefix: "dclip", draws, opacity: None },
    );
}

/// Opens a group confined to the exterior of a leaf by a mask, since a clip path
/// cannot subtract.
pub fn push_inverse_shape_mask(ops: &mut Vec<Op>, element: &Shape)
    ensures
        ops_view(final(ops)@) == ops_view(old(ops)@) + seq![outside("dmask"@, element.id)],
{
    push_outside(ops, "dmask", element.id);
}

/// The group that restricts the dots of a stroke to one side of the outline.
pub open spec fn side(clip_op: ClipOp, id: Uuid) -> OpView {
    match clip_op {
        ClipOp::Intersect => inside("dclip"@, id),
        ClipOp::Difference => outside("dmask"@, id),
    }
}

fn push_side(ops: &mut Vec<Op>, clip_op: ClipOp, element: &Shape)
    ensures
        ops_view(final(ops)@) == ops_view(old(ops)@) + seq![side(clip_op, element.id)],
{
    match clip_op {
        ClipOp::Intersect => push_leaf_clip_path(ops, element),
        ClipOp::Difference => push_inverse_shape_mask(ops, element),
    }
}

/// The group confined to the dots of a stroke, on both sides of the outline.
pub open spec fn ring(id: Uuid, i: int) -> OpView {
    OpView::Confine {
        kind: Confinement::AlphaMask,
        prefix: "dimask"@,
        draws: seq![Draw::DottedRing(id, i as usize)],
        opacity: None,
    }
}

/// Opens a group confined to the dots of a stroke by an alpha mask.
pub fn push_dotted_ring_alpha_mask(ops: &mut Vec<Op>, element: &Shape, i: usize)
    ensures
        ops_view(final(ops)@) == ops_view(old(ops)@) + seq![ring(element.id, i as int)],
{
    let mut draws: Vec<Draw> = Vec::new();
    draws.push(Draw::DottedRing(element.id, i));
    proof {
        assert(draws@ =~= seq![Draw::DottedRing(element.id, i)]);
    }
    push_op(
        ops,
        Op::Confine { kind: Confinement::AlphaMask, prefix: "dimask", draws, opacity: None },
    );
}

/// The group confined to the region that a stroke covers.
pub open spec fn stroke_region(id: Uuid, i: int) -> OpView {
    OpView::Confine {
        kind: Confinement::AlphaMask,
        prefix: "simask"@,
        draws: seq![Draw::StrokeSilhouette(id, i as usize)],
        opacity: None,
    }
}

/// Opens a group confined to the region that a stroke covers by an alpha mask.
pub fn push_stroke_alpha_mask(ops: &mut Vec<Op>, element: &Shape, i: usize)
    ensures
        ops_view(final(ops)@) == ops_view(old(ops)@) + seq![stroke_region(element.id, i as int)],
{
    let mut draws: Vec<Draw> = Vec::new();
    draws.push(Draw::StrokeSilhouette(element.id, i));
    proof {
        assert(draws@ =~= seq![Draw::StrokeSilhouette(element.id, i)]);
    }
    push_op(
        ops,
        Op::Confine { kind: Confinement::AlphaMask, prefix: "simask", draws, opacity: None },
    );
}

/// An outer stroke of an outline: stroked at double width, outside the shape. Where an
/// image fills it, it is none of these.
pub open spec fn path_outer_stroke(e: Shape, i: int) -> Seq<OpView> {
    if e.strokes@[i].kind == StrokeKind::Outer && e.strokes@[i].fill != Fill::Image {
        seq![
            outside("smask"@, e.id),
            OpView::Draw(Draw::DoubledStroke(e.id, i as usize)),
            OpView::Close,
        ]
    } else {
        Seq::empty()
    }
}

/// The outer solid and gradient strokes of a closed path or boolean shape.
pub open spec fn path_outer_ops(e: Shape) -> Seq<OpView> {
    if (e.shape_type is Path || e.shape_type is Bool) && !e.open {
        concat(e.strokes@.len(), |i: int| path_outer_stroke(e, i))
    } else {
        Seq::empty()
    }
}

/// Emits the outer solid and gradient strokes of a closed path or boolean shape, each as
/// a group confined to the exterior of the shape around the outline stroked at double
/// width. Those that an image fills are left to [`svg_render_image_strokes`].
pub fn svg_render_path_outer_strokes(ops: &mut Vec<Op>, element: &Shape)
    ensures
        ops_view(final(ops)@) == ops_view(old(ops)@) + path_outer_ops(*element),
{
    let ghost base = ops_view(ops@);
    let outlined = match &element.shape_type {
        Type::Path => true,
        Type::Bool => true,
        _ => false,
    };
    proof {
        assert(base + Seq::<OpView>::empty() =~= base);
    }
    if !outlined || element.open {
        return ;
    }
    let ghost f = |i: int| path_outer_stroke(*element, i);
    let mut i: usize = 0;
    while i < element.strokes.len()
        invariant
            0 <= i <= element.strokes.len(),
            f == (|i: int| path_outer_stroke(*element, i)),
            ops_view(ops@) == base + concat(i as nat, f),
        decreases element.strokes.len() - i,
    {
        let ghost before = ops_view(ops@);
        if element.strokes[i].kind == StrokeKind::Outer && element.strokes[i].fill != Fill::Image {
            push_outside(ops, "smask", element.id);
            push_op(ops, Op::Draw(Draw::DoubledStroke(element.id, i)));
            push_op(ops, Op::Close);
        }
        proof {
            assert(ops_view(ops@) =~= before + f(i as int));
            lemma_concat_assoc(base, concat(i as nat, f), f(i as int));
        }
        i = i + 1;
    }
}

/// A dotted inner or outer stroke: its dots, on one side of the outline. Where an image
/// fills it, it is none of these.
pub open spec fn dotted_stroke(e: Shape, i: int) -> Seq<OpView> {
    match e.strokes@[i].clip_op {
        Some(clip_op) => if e.strokes@[i].fill != Fill::Image {
            seq![
                side(clip_op, e.id),
                OpView::Draw(Draw::DottedStroke(e.id, i as usize)),
                OpView::Close,
            ]
        } else {
            Seq::empty()
        },
        None => Seq::empty(),
    }
}

/// The dotted inner and outer strokes of a rectangle or circle.
pub open spec fn dotted_ops(e: Shape) -> Seq<OpView> {
    if e.shape_type is Rect || e.shape_type is Circle {
        concat(e.strokes@.len(), |i: int| dotted_stroke(e, i))
    } else {
        Seq::empty()
    }
}

/// Emits the dotted inner and outer strokes of a rectangle or circle: the ring of dots
/// on the outline, clipped to the interior or masked to the exterior. Those that an
/// image fills are left to [`svg_render_image_strokes`].
pub fn svg_render_rect_circle_dotted_strokes(ops: &mut Vec<Op>, element: &Shape)
    ensures
        ops_view(final(ops)@) == ops_view(old(ops)@) + dotted_ops(*element),
{
    let ghost base = ops_view(ops@);
    let rounded = match &element.shape_type {
        Type::Rect => true,
        Type::Circle => true,
        _ => false,
    };
    proof {
        assert(base + Seq::<OpView>::empty() =~= base);
    }
    if !rounded {
        return ;
    }
    let ghost f = |i: int| dotted_stroke(*element, i);
    let mut i: usize = 0;
    while i < element.strokes.len()
        invariant
            0 <= i <= element.strokes.len(),
            f == (|i: int| dotted_stroke(*element, i)),
            ops_view(ops@) == base + concat(i as nat, f),
        decreases element.strokes.len() - i,
    {
        let ghost before = ops_view(ops@);
        match element.strokes[i].clip_op {
            Some(clip_op) => {
                if element.strokes[i].fill != Fill::Image {
                    push_side(ops, clip_op, element);
                    push_op(ops, Op::Draw(Draw::DottedStroke(element.id, i)));
                    push_op(ops, Op::Close);
                }
            },
            None => {},
        }
        proof {
            assert(ops_view(ops@) =~= before + f(i as int));
            lemma_concat_assoc(base, concat(i as nat, f), f(i as int));
        }
        i = i + 1;
    }
}

/// A stroke that an image fills: the image, in the region of the stroke; for a dotted
/// inner or outer stroke, in its dots on one side of the outline.
pub open spec fn image_stroke(e: Shape, i: int) -> Seq<OpView> {
    let image = OpView::Draw(Draw::StrokeImage(e.id, i as usize));
    if e.strokes@[i].fill == Fill::Image {
        match e.strokes@[i].clip_op {
            None => seq![stroke_region(e.id, i), image, OpView::Close],
            Some(clip_op) => seq![
                side(clip_op, e.id),
                ring(e.id, i),
                image,
                OpView::Close,
                OpView::Close,
            ],
        }
    } else {
        Seq::empty()
    }
}

/// The strokes that images fill, where there are images.
pub open spec fn image_stroke_ops(e: Shape, images: bool) -> Seq<OpView> {
    if images {
        concat(e.strokes@.len(), |i: int| image_stroke(e, i))
    } else {
        Seq::empty()
    }
}

/// Draws the image that fills a stroke into the current group.
pub fn svg_draw_stroke_image(ops: &mut Vec<Op>, element: &Shape, i: usize)
    ensures
        ops_view(final(ops)@) == ops_view(old(ops)@) + seq![
            OpView::Draw(Draw::StrokeImage(element.id, i)),
        ],
{
    push_op(ops, Op::Draw(Draw::StrokeImage(element.id, i)));
}

/// Emits the strokes that images fill.
///
/// - Solid and dotted center strokes: the region of the stroke is the mask.
/// - Dotted inner and outer strokes: the ring of dots is the mask, inside a group that
///   restricts it to the interior or the exterior of the shape, since the ring lies on
///   both sides of the outline.
///
/// Without an image store there is nothing to draw.
pub fn svg_render_image_strokes(ops: &mut Vec<Op>, element: &Shape, images: bool)
    ensures
        ops_view(final(ops)@) == ops_view(old(ops)@) + image_stroke_ops(*element, images),
{
    let ghost base = ops_view(ops@);
    proof {
        assert(base + Seq::<OpView>::empty() =~= base);
    }
    if !images {
        return ;
    }
    let ghost f = |i: int| image_stroke(*element, i);
    let mut i: usize = 0;
    while i < element.strokes.len()
        invariant
            0 <= i <= element.strokes.len(),
            f == (|i: int| image_stroke(*element, i)),
            ops_view(ops@) == base + concat(i as nat, f),
        decreases element.strokes.len() - i,
    {
        let ghost before = ops_view(ops@);
        if element.strokes[i].fill == Fill::Image {
            match element.strokes[i].clip_op {
                None => {
                    push_stroke_alpha_mask(ops, element, i);
                    svg_draw_stroke_image(ops, element, i);
                    push_op(ops, Op::Close);
                },
                Some(clip_op) => {
                    push_side(ops, clip_op, element);
                    push_dotted_ring_alpha_mask(ops, element, i);
                    svg_draw_stroke_image(ops, element, i);
                    push_op(ops, Op::Close);
                    push_op(ops, Op::Close);
                },
            }
        }
        proof {
            assert(ops_view(ops@) =~= before + f(i as int));
            lemma_concat_assoc(base, concat(i as nat, f), f(i as int));
        }
        i = i + 1;
    }
}

/// A translucent center stroke of a text: the opaque stroke in a translucent group.
pub open spec fn text_alpha_stroke(e: Shape, i: int) -> Seq<OpView> {
    if e.strokes@[i].kind == StrokeKind::Center && e.strokes@[i].opacity.below_one {
        seq![
            OpView::Opacity(e.strokes@[i].opacity.text@),
            OpView::Draw(Draw::TextStroke(e.id, i as usize)),
            OpView::Close,
        ]
    } else {
        Seq::empty()
    }
}

/// Emits each translucent center stroke of a text as a translucent group around the
/// opaque stroke.
pub fn svg_render_text_alpha_strokes(ops: &mut Vec<Op>, element: &Shape)
    ensures
        ops_view(final(ops)@) == ops_view(old(ops)@) + concat(
            element.strokes@.len(),
            |i: int| text_alpha_stroke(*element, i),
        ),
{
    let ghost base = ops_view(ops@);
    let ghost f = |i: int| text_alpha_stroke(*element, i);
    proof {
        assert(base + Seq::<OpView>::empty() =~= base);
    }
    let mut i: usize = 0;
    while i < element.strokes.len()
        invariant
            0 <= i <= element.strokes.len(),
            f == (|i: int| text_alpha_stroke(*element, i)),
            ops_view(ops@) == base + concat(i as nat, f),
        decreases element.strokes.len() - i,
    {
        let ghost before = ops_view(ops@);
        let stroke = &element.strokes[i];
        if stroke.kind == StrokeKind::Center && stroke.opacity.below_one {
            push_op(ops, Op::Opacity(stroke.opacity.text.clone()));
            push_op(ops, Op::Draw(Draw::TextStroke(element.id, i)));
            push_op(ops, Op::Close);
        }
        proof {
            assert(ops_view(ops@) =~= before + f(i as int));
            lemma_concat_assoc(base, concat(i as nat, f), f(i as int));
        }
        i = i + 1;
    }
}

/// An inner stroke of a text: the opaque stroke, inside the glyphs.
pub open spec fn text_inner_stroke(e: Shape, i: int) -> Seq<OpView> {
    if e.strokes@[i].kind == StrokeKind::Inner {
        seq![
            OpView::Confine {
                kind: Confinement::ClipPath,
                prefix: "tclip"@,
                draws: seq![Draw::Glyphs(e.id)],
                opacity: below_one(e.strokes@[i].opacity),
            },
            OpView::Draw(Draw::TextStroke(e.id, i as usize)),
            OpView::Close,
        ]
    } else {
        Seq::empty()
    }
}

/// Emits each inner stroke of a text as a group clipped to the glyphs around the
/// opaque stroke, translucent where the stroke is.
pub fn svg_render_text_inner_strokes(ops: &mut Vec<Op>, element: &Shape)
    ensures
        ops_view(final(ops)@) == ops_view(old(ops)@) + concat(
            element.strokes@.len(),
            |i: int| text_inner_stroke(*element, i),
        ),
{
    let ghost base = ops_view(ops@);
    let ghost f = |i: int| text_inner_stroke(*element, i);
    proof {
        assert(base + Seq::<OpView>::empty() =~= base);
    }
    let mut i: usize = 0;
    while i < element.strokes.len()
        invariant
            0 <= i <= element.strokes.len(),
            f == (|i: int| text_inner_stroke(*element, i)),
            ops_view(ops@) == base + concat(i as nat, f),
        decreases element.strokes.len() - i,
    {
        let ghost before = ops_view(ops@);
        let stroke = &element.strokes[i];
        if stroke.kind == StrokeKind::Inner {
            let mut draws: Vec<Draw> = Vec::new();
            draws.push(Draw::Glyphs(element.id));
            proof {
                assert(draws@ =~= seq![Draw::Glyphs(element.id)]);
            }
            let opacity = below_one_text(&stroke.opacity);
            push_op(
                ops,
                Op::Confine { kind: Confinement::ClipPath, prefix: "tclip", draws, opacity },
            );
            push_op(ops, Op::Draw(Draw::TextStroke(element.id, i)));
            push_op(ops, Op::Close);
        }
        proof {
            assert(ops_view(ops@) =~= before + f(i as int));
            lemma_concat_assoc(base, concat(i as nat, f), f(i as int));
        }
        i = i + 1;
    }
}

/// An outer stroke of a text: the opaque stroke, outside the glyphs.
pub open spec fn text_outer_stroke(e: Shape, i: int) -> Seq<OpView> {
    if e.strokes@[i].kind == StrokeKind::Outer {
        seq![
            OpView::Confine {
                kind: Confinement::Mask,
                prefix: "tmask"@,
                draws: seq![Draw::Page, Draw::Glyphs(e.id)],
                opacity: below_one(e.strokes@[i].opacity),
            },
            OpView::Draw(Draw::TextStroke(e.id, i as usize)),
            OpView::Close,
        ]
    } else {
        Seq::empty()
    }
}

/// Emits each outer stroke of a text as a group masked to the exterior of the glyphs
/// around the opaque stroke, translucent where the stroke is.
pub fn svg_render_text_outer_strokes(ops: &mut Vec<Op>, element: &Shape)
    ensures
        ops_view(final(ops)@) == ops_view(old(ops)@) + concat(
            element.strokes@.len(),
            |i: int| text_outer_stroke(*element, i),
        ),
{
    let ghost base = ops_view(ops@);
    let ghost f = |i: int| text_outer_stroke(*element, i);
    proof {
        assert(base + Seq::<OpView>::empty() =~= base);
    }
    let mut i: usize = 0;
    while i < element.strokes.len()
        invariant
            0 <= i <= element.strokes.len(),
            f == (|i: int| text_outer_stroke(*element, i)),
            ops_view(ops@) == base + concat(i as nat, f),
        decreases element.strokes.len() - i,
    {
        let ghost before = ops_view(ops@);
        let stroke = &element.strokes[i];
        if stroke.kind == StrokeKind::Outer {
            let mut draws: Vec<Draw> = Vec::new();
            draws.push(Draw::Page);
            draws.push(Draw::Glyphs(element.id));
            proof {
                assert(draws@ =~= seq![Draw::Page, Draw::Glyphs(element.id)]);
            }
            let opacity = below_one_text(&stroke.opacity);
            push_op(ops, Op::Confine { kind: Confinement::Mask, prefix: "tmask", draws, opacity });
            push_op(ops, Op::Draw(Draw::TextStroke(element.id, i)));
            push_op(ops, Op::Close);
        }
        proof {
            assert(ops_view(ops@) =~= before + f(i as int));
            lemma_concat_assoc(base, concat(i as nat, f), f(i as int));
        }
        i = i + 1;
    }
}

} // verus!
