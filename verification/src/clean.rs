//! Texts in which no definition begins: all that an export writes but the definitions
//! themselves.
use vstd::prelude::*;
use vstd::string::*;

use crate::filter::{
    all_drop_primitives, all_inner_primitives, all_merge_nodes, drop_primitives, drop_shadow_body,
    fe_composite, fe_dilate, fe_flood, fe_gaussian_blur, fe_merge_node, fe_offset, filter_body,
    hex_color, inner_primitives, inner_shadow_body, numbered,
};
use crate::naming::{lemma_decimal_digits, lettered};
use crate::ops::OpView;
use crate::pieces::{free, lemma_free_concat, lemma_free_empty, lemma_free_word};
use crate::shape::{BlendMode, Region, Rgb, Shadow, Shape, Uuid};
use crate::style::blend_keyword;
use crate::text::{decimal, hex_digit};

verus! {

/// Whether no text of a shadow begins a definition.
pub open spec fn clean_shadow(shadow: Shadow) -> bool {
    &&& free(shadow.sigma@)
    &&& free(shadow.dx@)
    &&& free(shadow.dy@)
    &&& free(shadow.spread.text@)
    &&& free(shadow.opacity@)
}

pub open spec fn clean_shadows(shadows: Seq<Shadow>) -> bool {
    forall|i: int| 0 <= i < shadows.len() ==> clean_shadow(#[trigger] shadows[i])
}

pub open spec fn clean_region(region: Region) -> bool {
    &&& free(region.x@)
    &&& free(region.y@)
    &&& free(region.width@)
    &&& free(region.height@)
}

/// Whether no text of a shape begins a definition; numbers do not.
pub open spec fn clean_shape(e: Shape) -> bool {
    &&& free(e.opacity.text@)
    &&& e.blur matches Some(blur) ==> free(blur.value.text@)
    &&& forall|i: int| 0 <= i < e.strokes@.len() ==> free(#[trigger] e.strokes@[i].opacity.text@)
    &&& clean_shadows(e.drop_shadows@)
    &&& clean_shadows(e.inner_shadows@)
    &&& clean_region(e.drop_region)
    &&& clean_region(e.inner_region)
}

pub open spec fn clean_pool(pool: Map<Uuid, Shape>) -> bool {
    forall|id: Uuid| #[trigger] pool.contains_key(id) ==> clean_shape(pool[id])
}

/// Whether an optional text begins no definition.
pub open spec fn free_if_any(text: Option<Seq<char>>) -> bool {
    text matches Some(text) ==> free(text)
}

/// Whether no text of a step begins a definition; for masks, none of their steps.
pub open spec fn clean_step(op: OpView) -> bool
    decreases op,
{
    match op {
        OpView::Effects { opacity, blend, blur } => free_if_any(opacity) && free_if_any(blend)
            && free_if_any(blur),
        OpView::Filter { body, .. } => free(body),
        OpView::Confine { opacity, .. } => free_if_any(opacity),
        OpView::Opacity(opacity) => free(opacity),
        OpView::AlphaMask(steps) => forall|i: int|
            0 <= i < steps.len() ==> clean_step(#[trigger] steps[i]),
        _ => true,
    }
}

pub proof fn lemma_numbered(name: Seq<char>, n: nat)
    requires
        lettered(name),
    ensures
        free(numbered(name, n)),
        !numbered(name, n).contains('"'),
        numbered(name, n).len() > 0,
{
    lemma_decimal_digits(n);
    let s = numbered(name, n);
    assert forall|i: int| 0 <= i < s.len() implies #[trigger] s[i] != '=' && s[i] != '"' by {
        if i < name.len() {
            assert(s[i] == name[i]);
        } else {
            assert(s[i] == decimal(n)[i - name.len()]);
        }
    }
    assert(s.last() == decimal(n).last());
    lemma_free_word(s);
}

proof fn lemma_hex(color: Rgb)
    ensures
        free(hex_color(color)),
{
    reveal_strlit("#");
    let s = hex_color(color);
    assert(s.len() == 7);
    assert forall|i: int| 0 <= i < s.len() implies #[trigger] s[i] != '=' by {
        if 0 < i {
        }
    }
    assert(s.last() == hex_digit(color.b as int % 16));
    lemma_free_word(s);
}

proof fn lemma_filter_words()
    ensures
        free("<feMorphology in=\""@),
        free("\" operator=\"dilate\" radius=\""@),
        free("\" result=\""@),
        free("\"/>"@),
        free("<feGaussianBlur in=\""@),
        free("\" stdDeviation=\""@),
        free("<feOffset in=\""@),
        free("\" dx=\""@),
        free("\" dy=\""@),
        free("<feFlood flood-color=\""@),
        free("\" flood-opacity=\""@),
        free("<feComposite in=\""@),
        free("\" in2=\""@),
        free("\" operator=\""@),
        free("<feMergeNode in=\""@),
        free("x=\""@),
        free("%\" y=\""@),
        free("%\" width=\""@),
        free("%\" height=\""@),
        free("%\" primitiveUnits=\"userSpaceOnUse\" color-interpolation-filters=\"sRGB\">"@),
        free("<feMerge>"@),
        free("</feMerge>"@),
        free("SourceAlpha"@),
        free("SourceGraphic"@),
        free("in"@),
        free("out"@),
{
    reveal(free);
    reveal_strlit("<feMorphology in=\"");
    reveal_strlit("\" operator=\"dilate\" radius=\"");
    reveal_strlit("\" result=\"");
    reveal_strlit("\"/>");
    reveal_strlit("<feGaussianBlur in=\"");
    reveal_strlit("\" stdDeviation=\"");
    reveal_strlit("<feOffset in=\"");
    reveal_strlit("\" dx=\"");
    reveal_strlit("\" dy=\"");
    reveal_strlit("<feFlood flood-color=\"");
    reveal_strlit("\" flood-opacity=\"");
    reveal_strlit("<feComposite in=\"");
    reveal_strlit("\" in2=\"");
    reveal_strlit("\" operator=\"");
    reveal_strlit("<feMergeNode in=\"");
    reveal_strlit("x=\"");
    reveal_strlit("%\" y=\"");
    reveal_strlit("%\" width=\"");
    reveal_strlit("%\" height=\"");
    reveal_strlit("%\" primitiveUnits=\"userSpaceOnUse\" color-interpolation-filters=\"sRGB\">");
    reveal_strlit("<feMerge>");
    reveal_strlit("</feMerge>");
    reveal_strlit("SourceAlpha");
    reveal_strlit("SourceGraphic");
    reveal_strlit("in");
    reveal_strlit("out");
}

// The names of the results of filter primitives.
proof fn lemma_results(i: nat)
    ensures
        free(numbered("shsp"@, i)),
        free(numbered("shbl"@, i)),
        free(numbered("shof"@, i)),
        free(numbered("shfl"@, i)),
        free(numbered("shad"@, i)),
        free(numbered("isbl"@, i)),
        free(numbered("isof"@, i)),
        free(numbered("isbd"@, i)),
        free(numbered("isfl"@, i)),
        free(numbered("istn"@, i)),
        free(numbered("issp"@, i)),
        free(numbered("issh"@, i)),
{
    reveal_strlit("shsp");
    reveal_strlit("shbl");
    reveal_strlit("shof");
    reveal_strlit("shfl");
    reveal_strlit("shad");
    reveal_strlit("isbl");
    reveal_strlit("isof");
    reveal_strlit("isbd");
    reveal_strlit("isfl");
    reveal_strlit("istn");
    reveal_strlit("issp");
    reveal_strlit("issh");
    lemma_numbered("shsp"@, i);
    lemma_numbered("shbl"@, i);
    lemma_numbered("shof"@, i);
    lemma_numbered("shfl"@, i);
    lemma_numbered("shad"@, i);
    lemma_numbered("isbl"@, i);
    lemma_numbered("isof"@, i);
    lemma_numbered("isbd"@, i);
    lemma_numbered("isfl"@, i);
    lemma_numbered("istn"@, i);
    lemma_numbered("issp"@, i);
    lemma_numbered("issh"@, i);
}

proof fn lemma_primitives(a: Seq<char>, b: Seq<char>, c: Seq<char>, d: Seq<char>, color: Rgb)
    requires
        free(a),
        free(b),
        free(c),
        free(d),
    ensures
        free(fe_dilate(a, b, c)),
        free(fe_gaussian_blur(a, b, c)),
        free(fe_offset(a, b, c, d)),
        free(fe_flood(color, a, b)),
        free(fe_composite(a, b, c, d)),
        free(fe_merge_node(a)),
{
    broadcast use lemma_free_concat;

    lemma_filter_words();
    lemma_hex(color);
}

proof fn lemma_drop_primitives(shadow: Shadow, i: nat)
    requires
        clean_shadow(shadow),
    ensures
        free(drop_primitives(shadow, i)),
        free(fe_merge_node(numbered("shad"@, i))),
{
    broadcast use lemma_free_concat;

    lemma_filter_words();
    lemma_results(i);
    lemma_free_empty();
    let dilated = numbered("shsp"@, i);
    let blurred = numbered("shbl"@, i);
    let offset = numbered("shof"@, i);
    let flood = numbered("shfl"@, i);
    let tinted = numbered("shad"@, i);
    let input = if shadow.spread.positive {
        dilated
    } else {
        "SourceAlpha"@
    };
    lemma_primitives("SourceAlpha"@, shadow.spread.text@, dilated, dilated, shadow.color);
    lemma_primitives(input, shadow.sigma@, blurred, blurred, shadow.color);
    lemma_primitives(blurred, shadow.dx@, shadow.dy@, offset, shadow.color);
    lemma_primitives(shadow.opacity@, flood, flood, flood, shadow.color);
    lemma_primitives(flood, offset, "in"@, tinted, shadow.color);
    lemma_primitives(tinted, tinted, tinted, tinted, shadow.color);
}

proof fn lemma_inner_primitives(shadow: Shadow, i: nat)
    requires
        clean_shadow(shadow),
    ensures
        free(inner_primitives(shadow, i)),
        free(fe_merge_node(numbered("issh"@, i))),
{
    broadcast use lemma_free_concat;

    lemma_filter_words();
    lemma_results(i);
    lemma_free_empty();
    let blurred = numbered("isbl"@, i);
    let occluder = numbered("isof"@, i);
    let band = numbered("isbd"@, i);
    let flood = numbered("isfl"@, i);
    let tinted = numbered("istn"@, i);
    let dilated = numbered("issp"@, i);
    let shade = numbered("issh"@, i);
    let clipped = if shadow.spread.positive {
        dilated
    } else {
        tinted
    };
    lemma_primitives("SourceAlpha"@, shadow.sigma@, blurred, blurred, shadow.color);
    lemma_primitives(blurred, shadow.dx@, shadow.dy@, occluder, shadow.color);
    lemma_primitives("SourceAlpha"@, occluder, "out"@, band, shadow.color);
    lemma_primitives(shadow.opacity@, flood, flood, flood, shadow.color);
    lemma_primitives(flood, band, "in"@, tinted, shadow.color);
    lemma_primitives(tinted, shadow.spread.text@, dilated, dilated, shadow.color);
    lemma_primitives(clipped, "SourceAlpha"@, "in"@, shade, shadow.color);
    lemma_primitives(shade, shade, shade, shade, shadow.color);
}

proof fn lemma_all_primitives(shadows: Seq<Shadow>, n: nat)
    requires
        clean_shadows(shadows),
        n <= shadows.len(),
    ensures
        free(all_drop_primitives(shadows, n)),
        free(all_inner_primitives(shadows, n)),
        free(all_merge_nodes("shad"@, n)),
        free(all_merge_nodes("issh"@, n)),
    decreases n,
{
    broadcast use lemma_free_concat;

    if n == 0 {
        lemma_free_empty();
    } else {
        let i = (n - 1) as nat;
        lemma_all_primitives(shadows, i);
        lemma_drop_primitives(shadows[n - 1], i);
        lemma_inner_primitives(shadows[n - 1], i);
    }
}

proof fn lemma_filter_body(region: Region, prims: Seq<char>, merges: Seq<char>)
    requires
        clean_region(region),
        free(prims),
        free(merges),
    ensures
        free(filter_body(region, prims, merges)),
{
    broadcast use lemma_free_concat;

    lemma_filter_words();
}

/// The filters of clean shadows are clean.
pub proof fn lemma_shadow_bodies(shadows: Seq<Shadow>, region: Region, include_source: bool)
    requires
        clean_shadows(shadows),
        clean_region(region),
    ensures
        free(drop_shadow_body(shadows, region, include_source)),
        free(inner_shadow_body(shadows, region)),
{
    broadcast use lemma_free_concat;

    let n = shadows.len();
    lemma_all_primitives(shadows, n);
    lemma_filter_words();
    lemma_free_empty();
    let source = fe_merge_node("SourceGraphic"@);
    assert(free(source));
    let merges = all_merge_nodes("shad"@, n) + (if include_source {
        source
    } else {
        Seq::empty()
    });
    lemma_filter_body(region, all_drop_primitives(shadows, n), merges);
    lemma_filter_body(region, all_inner_primitives(shadows, n), all_merge_nodes("issh"@, n));
}

/// Blend modes are clean.
pub proof fn lemma_blend_keyword(mode: BlendMode)
    ensures
        free_if_any(blend_keyword(mode)),
{
    reveal(free);
    reveal_strlit("multiply");
    reveal_strlit("screen");
    reveal_strlit("overlay");
    reveal_strlit("darken");
    reveal_strlit("lighten");
    reveal_strlit("color-dodge");
    reveal_strlit("color-burn");
    reveal_strlit("hard-light");
    reveal_strlit("soft-light");
    reveal_strlit("difference");
    reveal_strlit("exclusion");
    reveal_strlit("hue");
    reveal_strlit("saturation");
    reveal_strlit("color");
    reveal_strlit("luminosity");
}

} // verus!
