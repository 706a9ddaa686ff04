//! What the style of a shape asks for: the groups around the shape or parts of it.
use vstd::prelude::*;
use vstd::string::*;

use crate::filter::{drop_shadow_body, inner_shadow_body};
use crate::ops::{if_any, only_if, Confinement, Draw, OpView};
use crate::placement::{
    drawings, lemma_any_closing, lemma_any_opening, lemma_behind, lemma_nothing, lemma_shown,
    lemma_shown_level, openings, shows, within, Placed,
};
use crate::shape::{BlendMode, BlurType, Shape, Uuid};
use crate::strokes::{drop_shadow_group, effects_group};
use crate::structure::{level, opens};
use crate::style::blend_keyword;

verus! {

/// The `mix-blend-mode` that shows a blend mode, where CSS has one that is not `normal`.
pub open spec fn css_blend_mode(mode: BlendMode) -> Option<Seq<char>> {
    match mode {
        BlendMode::Multiply => Some("multiply"@),
        BlendMode::Screen => Some("screen"@),
        BlendMode::Overlay => Some("overlay"@),
        BlendMode::Darken => Some("darken"@),
        BlendMode::Lighten => Some("lighten"@),
        BlendMode::ColorDodge => Some("color-dodge"@),
        BlendMode::ColorBurn => Some("color-burn"@),
        BlendMode::HardLight => Some("hard-light"@),
        BlendMode::SoftLight => Some("soft-light"@),
        BlendMode::Difference => Some("difference"@),
        BlendMode::Exclusion => Some("exclusion"@),
        BlendMode::Hue => Some("hue"@),
        BlendMode::Saturation => Some("saturation"@),
        BlendMode::Color => Some("color"@),
        BlendMode::Luminosity => Some("luminosity"@),
        BlendMode::Clear | BlendMode::Src | BlendMode::Dst | BlendMode::SrcOver
        | BlendMode::DstOver | BlendMode::SrcIn | BlendMode::DstIn | BlendMode::SrcOut
        | BlendMode::DstOut | BlendMode::SrcATop | BlendMode::DstATop | BlendMode::Xor
        | BlendMode::Plus | BlendMode::Modulate => None,
    }
}

/// The group that the opacity, the blend mode and the layer blur of a shape ask for, or
/// none where it is opaque, drawn over what lies below, and sharp.
pub open spec fn asked_effects(e: Shape) -> Seq<OpView> {
    let opacity = if e.opacity.below_one {
        Some(e.opacity.text@)
    } else {
        None
    };
    let blend = css_blend_mode(e.blend_mode);
    let blur = match e.blur {
        Some(b) => if b.blur_type == BlurType::LayerBlur && !b.hidden && b.value.positive {
            Some(b.value.text@)
        } else {
            None
        },
        None => None,
    };
    if opacity is Some || blend is Some || blur is Some {
        seq![OpView::Effects { opacity, blend, blur }]
    } else {
        Seq::empty()
    }
}

/// The group that the drop shadows of a shape ask for; `source` tells whether the shape
/// itself is shown too.
pub open spec fn asked_shadow(e: Shape, source: bool) -> Seq<OpView> {
    if e.drop_shadows@.len() > 0 {
        seq![
            OpView::Filter {
                prefix: "shadow"@,
                body: drop_shadow_body(e.drop_shadows@, e.drop_region, source),
            },
        ]
    } else {
        Seq::empty()
    }
}

/// The group that the inner shadows of a shape ask for.
pub open spec fn asked_inner_shadow(e: Shape) -> OpView {
    OpView::Filter {
        prefix: "inshadow"@,
        body: inner_shadow_body(e.inner_shadows@, e.inner_region),
    }
}

/// A group that shows what lies inside the geometry of a shape.
pub open spec fn clipped_to(prefix: Seq<char>, id: Uuid) -> OpView {
    OpView::Confine {
        kind: Confinement::ClipPath,
        prefix,
        draws: seq![Draw::Silhouette(id)],
        opacity: None,
    }
}

/// A group that shows what lies outside the geometry of a shape.
pub open spec fn kept_out_of(prefix: Seq<char>, id: Uuid) -> OpView {
    OpView::Confine {
        kind: Confinement::Mask,
        prefix,
        draws: seq![Draw::Page, Draw::Silhouette(id)],
        opacity: None,
    }
}

/// Blend modes have the CSS keyword that shows them: those of the same name. The other
/// modes have none.
pub proof fn blend_modes_are_shown(mode: BlendMode)
    ensures
        blend_keyword(mode) == css_blend_mode(mode),
        mode is Multiply ==> blend_keyword(mode) == Some("multiply"@),
        mode is Screen ==> blend_keyword(mode) == Some("screen"@),
        mode is Overlay ==> blend_keyword(mode) == Some("overlay"@),
        mode is Darken ==> blend_keyword(mode) == Some("darken"@),
        mode is Lighten ==> blend_keyword(mode) == Some("lighten"@),
        mode is ColorDodge ==> blend_keyword(mode) == Some("color-dodge"@),
        mode is ColorBurn ==> blend_keyword(mode) == Some("color-burn"@),
        mode is HardLight ==> blend_keyword(mode) == Some("hard-light"@),
        mode is SoftLight ==> blend_keyword(mode) == Some("soft-light"@),
        mode is Difference ==> blend_keyword(mode) == Some("difference"@),
        mode is Exclusion ==> blend_keyword(mode) == Some("exclusion"@),
        mode is Hue ==> blend_keyword(mode) == Some("hue"@),
        mode is Saturation ==> blend_keyword(mode) == Some("saturation"@),
        mode is Color ==> blend_keyword(mode) == Some("color"@),
        mode is Luminosity ==> blend_keyword(mode) == Some("luminosity"@),
        (mode is Clear || mode is Src || mode is Dst || mode is SrcOver || mode is DstOver
            || mode is SrcIn || mode is DstIn || mode is SrcOut || mode is DstOut
            || mode is SrcATop || mode is DstATop || mode is Xor || mode is Plus
            || mode is Modulate) ==> blend_keyword(mode) is None,
{
}

proof fn lemma_effects(e: Shape)
    ensures
        if_any(effects_group(e)) == asked_effects(e),
        (effects_group(e) is Some) == (asked_effects(e).len() > 0),
{
    blend_modes_are_shown(e.blend_mode);
}

pub proof fn lemma_shadow(e: Shape, source: bool)
    ensures
        if_any(drop_shadow_group(e, source)) == asked_shadow(e, source),
{
}

/// Whether steps begin with a step that opens a group, and stay in that group up to the
/// last of them, which closes it.
pub open spec fn enclosed_by(ops: Seq<OpView>, group: OpView) -> bool {
    &&& ops.len() >= 2
    &&& ops[0] == group
    &&& ops.last() is Close
    &&& forall|i: int| 0 < i < ops.len() ==> level(#[trigger] ops.take(i)) >= 1
}

proof fn lemma_level_inside(op: OpView, ops: Seq<OpView>)
    requires
        opens(op),
    ensures
        level(seq![op] + ops) == level(ops) + 1,
    decreases ops.len(),
{
    let all = seq![op] + ops;
    if ops.len() == 0 {
        assert(all.drop_last() =~= Seq::empty());
        assert(all.last() == op);
        assert(level(all.drop_last()) == 0);
    } else {
        lemma_level_inside(op, ops.drop_last());
        assert(all.drop_last() =~= seq![op] + ops.drop_last());
        assert(all.last() == ops.last());
    }
}

/// The steps of a shape between those that open and close the group for its effects.
pub open spec fn inside_effects(ops: Seq<OpView>, e: Shape, rest: Seq<OpView>) -> bool {
    ops == if_any(effects_group(e)) + rest + only_if(effects_group(e) is Some, OpView::Close)
}

pub proof fn lemma_inside_effects(
    ops: Seq<OpView>,
    e: Shape,
    rest: Seq<OpView>,
    l: Seq<Placed>,
    o: Seq<OpView>,
)
    requires
        inside_effects(ops, e, rest),
        shows(rest, Seq::empty(), l, o),
    ensures
        drawings(ops) == within(asked_effects(e), l),
        openings(ops) == asked_effects(e) + o,
        asked_effects(e).len() > 0 ==> enclosed_by(ops, asked_effects(e)[0]),
{
    let none = Seq::<OpView>::empty();
    let blank = Seq::<Placed>::empty();
    let effects = effects_group(e);
    let g = asked_effects(e);
    lemma_effects(e);
    lemma_nothing();
    lemma_any_opening(none, none, blank, none, effects);
    assert(none + if_any(effects) =~= g);
    lemma_behind(g, g, blank, g, rest, l, o);
    lemma_any_closing(g + rest, none, effects, blank + within(g, l), g + o);
    assert(blank + within(g, l) =~= within(g, l));
    lemma_shown(ops, none, within(g, l), g + o);
    if let Some(op) = effects {
        lemma_shown_level(rest, none, l, o);
        assert forall|i: int| 0 < i < ops.len() implies level(#[trigger] ops.take(i)) >= 1 by {
            assert(ops.take(i) =~= seq![op] + rest.take(i - 1));
            lemma_level_inside(op, rest.take(i - 1));
        }
    }
}

} // verus!
