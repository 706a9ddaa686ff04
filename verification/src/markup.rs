//! What stands in the markup that an export writes: elements, with their attributes.
use vstd::prelude::*;
use vstd::string::*;

use crate::body::{inner_of_document, inner_svg};
use crate::compose::{
    blur_def, confinement_attrs, confinement_def, effects_attrs, filter_def, opacity_attr,
    reference, spaced,
};
use crate::document::{defs_element, document};
use crate::filter::{
    all_drop_primitives, all_inner_primitives, all_merge_nodes, drop_primitives, drop_shadow_body,
    fe_composite, fe_dilate, fe_flood, fe_gaussian_blur, fe_merge_node, fe_offset, filter_body,
    hex_color, inner_primitives, inner_shadow_body, numbered,
};
use crate::ops::Confinement;
use crate::shape::{Region, Rgb, Shadow};
use crate::text::{decimal, occurs_at};

verus! {

/// An attribute, with the space before it.
pub open spec fn attr(name: Seq<char>, value: Seq<char>) -> Seq<char> {
    " "@ + name + "=\""@ + value + "\""@
}

/// An attribute that may be there.
pub open spec fn attr_if(name: Seq<char>, value: Option<Seq<char>>) -> Seq<char> {
    match value {
        Some(value) => attr(name, value),
        None => Seq::empty(),
    }
}

/// A reference to a definition.
pub open spec fn url(id: Seq<char>) -> Seq<char> {
    "url(#"@ + id + ")"@
}

// An attribute up to its value.
spec fn lead(name: Seq<char>) -> Seq<char> {
    " "@ + name + "=\""@
}

// One attribute more: `text` ends where the value of an attribute begins, `glue` leads
// from behind that value to the next one.
proof fn lemma_more(
    text: Seq<char>,
    parts: Seq<char>,
    name: Seq<char>,
    value: Seq<char>,
    glue: Seq<char>,
    between: Seq<char>,
)
    requires
        text == parts + lead(name),
        glue == "\""@ + between,
    ensures
        text + value + glue == parts + attr(name, value) + between,
{
    assert(parts + lead(name) + value + ("\""@ + between) =~= parts + (lead(name) + value + "\""@)
        + between);
}

// The same, where the text adds something to the value.
proof fn lemma_more_with(
    text: Seq<char>,
    parts: Seq<char>,
    name: Seq<char>,
    value: Seq<char>,
    unit: Seq<char>,
    glue: Seq<char>,
    between: Seq<char>,
)
    requires
        text == parts + lead(name),
        glue == unit + "\""@ + between,
    ensures
        text + value + glue == parts + attr(name, value + unit) + between,
{
    assert(parts + lead(name) + value + (unit + "\""@ + between) =~= parts + (lead(name) + (value
        + unit) + "\""@) + between);
}

/// A morphology primitive dilates its input.
pub proof fn dilation_is_written(input: Seq<char>, radius: Seq<char>, result: Seq<char>)
    ensures
        fe_dilate(input, radius, result) == "<feMorphology"@ + attr("in"@, input)
            + attr("operator"@, "dilate"@) + attr("radius"@, radius) + attr("result"@, result)
            + "/>"@,
{
    reveal_strlit(" ");
    reveal_strlit("=\"");
    reveal_strlit("\"");
    reveal_strlit("<feMorphology");
    reveal_strlit("in");
    reveal_strlit("operator");
    reveal_strlit("dilate");
    reveal_strlit("radius");
    reveal_strlit("result");
    reveal_strlit("/>");
    reveal_strlit("<feMorphology in=\"");
    reveal_strlit("\" operator=\"dilate\" radius=\"");
    reveal_strlit("\" result=\"");
    reveal_strlit("\"/>");
    let t0 = "<feMorphology"@;
    let s0 = "<feMorphology in=\""@;
    assert(s0 =~= t0 + lead("in"@));
    let g1 = "\" operator=\"dilate\" radius=\""@;
    let b1 = attr("operator"@, "dilate"@) + lead("radius"@);
    assert(g1 =~= "\""@ + b1);
    lemma_more(s0, t0, "in"@, input, g1, b1);
    let s1 = s0 + input + g1;
    let u1 = t0 + attr("in"@, input);
    let t2 = u1 + attr("operator"@, "dilate"@);
    assert(u1 + (attr("operator"@, "dilate"@) + lead("radius"@)) =~= t2 + lead("radius"@));
    let g2 = "\" result=\""@;
    let b2 = lead("result"@);
    assert(g2 =~= "\""@ + b2);
    lemma_more(s1, t2, "radius"@, radius, g2, b2);
    let s2 = s1 + radius + g2;
    let u2 = t2 + attr("radius"@, radius);
    let g3 = "\"/>"@;
    let b3 = "/>"@;
    assert(g3 =~= "\""@ + b3);
    lemma_more(s2, u2, "result"@, result, g3, b3);
}

/// A blur primitive has an input, a standard deviation and a result.
pub proof fn blur_is_written(input: Seq<char>, sigma: Seq<char>, result: Seq<char>)
    ensures
        fe_gaussian_blur(input, sigma, result) == "<feGaussianBlur"@ + attr("in"@, input)
            + attr("stdDeviation"@, sigma) + attr("result"@, result) + "/>"@,
{
    reveal_strlit(" ");
    reveal_strlit("=\"");
    reveal_strlit("\"");
    reveal_strlit("<feGaussianBlur");
    reveal_strlit("in");
    reveal_strlit("stdDeviation");
    reveal_strlit("result");
    reveal_strlit("/>");
    reveal_strlit("<feGaussianBlur in=\"");
    reveal_strlit("\" stdDeviation=\"");
    reveal_strlit("\" result=\"");
    reveal_strlit("\"/>");
    let t0 = "<feGaussianBlur"@;
    let s0 = "<feGaussianBlur in=\""@;
    assert(s0 =~= t0 + lead("in"@));
    let g1 = "\" stdDeviation=\""@;
    let b1 = lead("stdDeviation"@);
    assert(g1 =~= "\""@ + b1);
    lemma_more(s0, t0, "in"@, input, g1, b1);
    let s1 = s0 + input + g1;
    let u1 = t0 + attr("in"@, input);
    let g2 = "\" result=\""@;
    let b2 = lead("result"@);
    assert(g2 =~= "\""@ + b2);
    lemma_more(s1, u1, "stdDeviation"@, sigma, g2, b2);
    let s2 = s1 + sigma + g2;
    let u2 = u1 + attr("stdDeviation"@, sigma);
    let g3 = "\"/>"@;
    let b3 = "/>"@;
    assert(g3 =~= "\""@ + b3);
    lemma_more(s2, u2, "result"@, result, g3, b3);
}

/// An offset primitive moves its input along both axes.
pub proof fn offset_is_written(input: Seq<char>, dx: Seq<char>, dy: Seq<char>, result: Seq<char>)
    ensures
        fe_offset(input, dx, dy, result) == "<feOffset"@ + attr("in"@, input) + attr("dx"@, dx)
            + attr("dy"@, dy) + attr("result"@, result) + "/>"@,
{
    reveal_strlit(" ");
    reveal_strlit("=\"");
    reveal_strlit("\"");
    reveal_strlit("<feOffset");
    reveal_strlit("in");
    reveal_strlit("dx");
    reveal_strlit("dy");
    reveal_strlit("result");
    reveal_strlit("/>");
    reveal_strlit("<feOffset in=\"");
    reveal_strlit("\" dx=\"");
    reveal_strlit("\" dy=\"");
    reveal_strlit("\" result=\"");
    reveal_strlit("\"/>");
    let t0 = "<feOffset"@;
    let s0 = "<feOffset in=\""@;
    assert(s0 =~= t0 + lead("in"@));
    let g1 = "\" dx=\""@;
    let b1 = lead("dx"@);
    assert(g1 =~= "\""@ + b1);
    lemma_more(s0, t0, "in"@, input, g1, b1);
    let s1 = s0 + input + g1;
    let u1 = t0 + attr("in"@, input);
    let g2 = "\" dy=\""@;
    let b2 = lead("dy"@);
    assert(g2 =~= "\""@ + b2);
    lemma_more(s1, u1, "dx"@, dx, g2, b2);
    let s2 = s1 + dx + g2;
    let u2 = u1 + attr("dx"@, dx);
    let g3 = "\" result=\""@;
    let b3 = lead("result"@);
    assert(g3 =~= "\""@ + b3);
    lemma_more(s2, u2, "dy"@, dy, g3, b3);
    let s3 = s2 + dy + g3;
    let u3 = u2 + attr("dy"@, dy);
    let g4 = "\"/>"@;
    let b4 = "/>"@;
    assert(g4 =~= "\""@ + b4);
    lemma_more(s3, u3, "result"@, result, g4, b4);
}

/// A flood primitive has a color and an opacity.
pub proof fn flood_is_written(color: Rgb, opacity: Seq<char>, result: Seq<char>)
    ensures
        fe_flood(color, opacity, result) == "<feFlood"@ + attr("flood-color"@, hex_color(color))
            + attr("flood-opacity"@, opacity) + attr("result"@, result) + "/>"@,
{
    reveal_strlit(" ");
    reveal_strlit("=\"");
    reveal_strlit("\"");
    reveal_strlit("<feFlood");
    reveal_strlit("flood-color");
    reveal_strlit("flood-opacity");
    reveal_strlit("result");
    reveal_strlit("/>");
    reveal_strlit("<feFlood flood-color=\"");
    reveal_strlit("\" flood-opacity=\"");
    reveal_strlit("\" result=\"");
    reveal_strlit("\"/>");
    let t0 = "<feFlood"@;
    let s0 = "<feFlood flood-color=\""@;
    assert(s0 =~= t0 + lead("flood-color"@));
    let g1 = "\" flood-opacity=\""@;
    let b1 = lead("flood-opacity"@);
    assert(g1 =~= "\""@ + b1);
    lemma_more(s0, t0, "flood-color"@, hex_color(color), g1, b1);
    let s1 = s0 + hex_color(color) + g1;
    let u1 = t0 + attr("flood-color"@, hex_color(color));
    let g2 = "\" result=\""@;
    let b2 = lead("result"@);
    assert(g2 =~= "\""@ + b2);
    lemma_more(s1, u1, "flood-opacity"@, opacity, g2, b2);
    let s2 = s1 + opacity + g2;
    let u2 = u1 + attr("flood-opacity"@, opacity);
    let g3 = "\"/>"@;
    let b3 = "/>"@;
    assert(g3 =~= "\""@ + b3);
    lemma_more(s2, u2, "result"@, result, g3, b3);
}

/// A composite primitive combines two inputs.
pub proof fn composite_is_written(input: Seq<char>, input2: Seq<char>, operator: Seq<char>,
    result: Seq<char>)
    ensures
        fe_composite(input, input2, operator, result) == "<feComposite"@ + attr("in"@, input)
            + attr("in2"@, input2) + attr("operator"@, operator) + attr("result"@, result) + "/>"@,
{
    reveal_strlit(" ");
    reveal_strlit("=\"");
    reveal_strlit("\"");
    reveal_strlit("<feComposite");
    reveal_strlit("in");
    reveal_strlit("in2");
    reveal_strlit("operator");
    reveal_strlit("result");
    reveal_strlit("/>");
    reveal_strlit("<feComposite in=\"");
    reveal_strlit("\" in2=\"");
    reveal_strlit("\" operator=\"");
    reveal_strlit("\" result=\"");
    reveal_strlit("\"/>");
    let t0 = "<feComposite"@;
    let s0 = "<feComposite in=\""@;
    assert(s0 =~= t0 + lead("in"@));
    let g1 = "\" in2=\""@;
    let b1 = lead("in2"@);
    assert(g1 =~= "\""@ + b1);
    lemma_more(s0, t0, "in"@, input, g1, b1);
    let s1 = s0 + input + g1;
    let u1 = t0 + attr("in"@, input);
    let g2 = "\" operator=\""@;
    let b2 = lead("operator"@);
    assert(g2 =~= "\""@ + b2);
    lemma_more(s1, u1, "in2"@, input2, g2, b2);
    let s2 = s1 + input2 + g2;
    let u2 = u1 + attr("in2"@, input2);
    let g3 = "\" result=\""@;
    let b3 = lead("result"@);
    assert(g3 =~= "\""@ + b3);
    lemma_more(s2, u2, "operator"@, operator, g3, b3);
    let s3 = s2 + operator + g3;
    let u3 = u2 + attr("operator"@, operator);
    let g4 = "\"/>"@;
    let b4 = "/>"@;
    assert(g4 =~= "\""@ + b4);
    lemma_more(s3, u3, "result"@, result, g4, b4);
}

/// A merge node names what is merged.
pub proof fn merge_node_is_written(input: Seq<char>)
    ensures
        fe_merge_node(input) == "<feMergeNode"@ + attr("in"@, input) + "/>"@,
{
    reveal_strlit(" ");
    reveal_strlit("=\"");
    reveal_strlit("\"");
    reveal_strlit("<feMergeNode");
    reveal_strlit("in");
    reveal_strlit("/>");
    reveal_strlit("<feMergeNode in=\"");
    reveal_strlit("\"/>");
    let t0 = "<feMergeNode"@;
    let s0 = "<feMergeNode in=\""@;
    assert(s0 =~= t0 + lead("in"@));
    let g1 = "\"/>"@;
    let b1 = "/>"@;
    assert(g1 =~= "\""@ + b1);
    lemma_more(s0, t0, "in"@, input, g1, b1);
}

/// A layer blur is a filter with one blur, whose region reaches half the size of the shape
/// beyond it on every side.
pub proof fn layer_blur_is_written(id: Seq<char>, sigma: Seq<char>)
    ensures
        blur_def(id, sigma) == "<filter"@ + attr("id"@, id) + attr("x"@, "-50%"@)
            + attr("y"@, "-50%"@) + attr("width"@, "200%"@) + attr("height"@, "200%"@) + ">"@
            + "<feGaussianBlur"@ + attr("stdDeviation"@, sigma) + "/></filter>"@,
{
    reveal_strlit(" ");
    reveal_strlit("=\"");
    reveal_strlit("\"");
    reveal_strlit("<filter");
    reveal_strlit("id");
    reveal_strlit("x");
    reveal_strlit("-50%");
    reveal_strlit("y");
    reveal_strlit("width");
    reveal_strlit("200%");
    reveal_strlit("height");
    reveal_strlit(">");
    reveal_strlit("<feGaussianBlur");
    reveal_strlit("stdDeviation");
    reveal_strlit("/></filter>");
    reveal_strlit("<filter id=\"");
    reveal_strlit("\" x=\"-50%\" y=\"-50%\" width=\"200%\" height=\"200%\"><feGaussianBlur stdDeviation=\"");
    reveal_strlit("\"/></filter>");
    let t0 = "<filter"@;
    let s0 = "<filter id=\""@;
    assert(s0 =~= t0 + lead("id"@));
    let g1 = "\" x=\"-50%\" y=\"-50%\" width=\"200%\" height=\"200%\"><feGaussianBlur stdDeviation=\""@;
    let b1 = attr("x"@, "-50%"@) + attr("y"@, "-50%"@) + attr("width"@, "200%"@)
        + attr("height"@, "200%"@) + ">"@ + "<feGaussianBlur"@ + lead("stdDeviation"@);
    assert(g1 =~= "\""@ + b1);
    lemma_more(s0, t0, "id"@, id, g1, b1);
    let s1 = s0 + id + g1;
    let u1 = t0 + attr("id"@, id);
    let t2 = u1 + attr("x"@, "-50%"@) + attr("y"@, "-50%"@) + attr("width"@, "200%"@)
        + attr("height"@, "200%"@) + ">"@ + "<feGaussianBlur"@;
    assert(u1 + (attr("x"@, "-50%"@) + attr("y"@, "-50%"@) + attr("width"@, "200%"@)
        + attr("height"@, "200%"@) + ">"@ + "<feGaussianBlur"@ + lead("stdDeviation"@)) =~= t2
        + lead("stdDeviation"@));
    let g2 = "\"/></filter>"@;
    let b2 = "/></filter>"@;
    assert(g2 =~= "\""@ + b2);
    lemma_more(s1, t2, "stdDeviation"@, sigma, g2, b2);
}

/// A clip is a clip path around the geometry, in the units of the drawing.
pub proof fn clip_is_written(id: Seq<char>, geometry: Seq<char>)
    ensures
        confinement_def(Confinement::ClipPath, id, geometry) == "<clipPath"@ + attr("id"@, id)
            + attr("clipPathUnits"@, "userSpaceOnUse"@) + ">"@ + geometry + "</clipPath>"@,
{
    reveal_strlit(" ");
    reveal_strlit("=\"");
    reveal_strlit("\"");
    reveal_strlit("<clipPath");
    reveal_strlit("id");
    reveal_strlit("clipPathUnits");
    reveal_strlit("userSpaceOnUse");
    reveal_strlit(">");
    reveal_strlit("<clipPath id=\"");
    reveal_strlit("\" clipPathUnits=\"userSpaceOnUse\">");
    let t0 = "<clipPath"@;
    let s0 = "<clipPath id=\""@;
    assert(s0 =~= t0 + lead("id"@));
    let g1 = "\" clipPathUnits=\"userSpaceOnUse\">"@;
    let b1 = attr("clipPathUnits"@, "userSpaceOnUse"@) + ">"@;
    assert(g1 =~= "\""@ + b1);
    lemma_more(s0, t0, "id"@, id, g1, b1);
    let u1 = t0 + attr("id"@, id);
    let t2 = u1 + attr("clipPathUnits"@, "userSpaceOnUse"@);
    assert(u1 + (attr("clipPathUnits"@, "userSpaceOnUse"@) + ">"@) =~= t2 + ">"@);
}

/// A mask is a mask around what is drawn for it, in the units of the drawing; it masks by
/// luminance.
pub proof fn mask_is_written(id: Seq<char>, geometry: Seq<char>)
    ensures
        confinement_def(Confinement::Mask, id, geometry) == "<mask"@ + attr("id"@, id)
            + attr("maskUnits"@, "userSpaceOnUse"@) + ">"@ + geometry + "</mask>"@,
{
    reveal_strlit(" ");
    reveal_strlit("=\"");
    reveal_strlit("\"");
    reveal_strlit("<mask");
    reveal_strlit("id");
    reveal_strlit("maskUnits");
    reveal_strlit("userSpaceOnUse");
    reveal_strlit(">");
    reveal_strlit("<mask id=\"");
    reveal_strlit("\" maskUnits=\"userSpaceOnUse\">");
    let t0 = "<mask"@;
    let s0 = "<mask id=\""@;
    assert(s0 =~= t0 + lead("id"@));
    let g1 = "\" maskUnits=\"userSpaceOnUse\">"@;
    let b1 = attr("maskUnits"@, "userSpaceOnUse"@) + ">"@;
    assert(g1 =~= "\""@ + b1);
    lemma_more(s0, t0, "id"@, id, g1, b1);
    let u1 = t0 + attr("id"@, id);
    let t2 = u1 + attr("maskUnits"@, "userSpaceOnUse"@);
    assert(u1 + (attr("maskUnits"@, "userSpaceOnUse"@) + ">"@) =~= t2 + ">"@);
}

/// An alpha mask is a mask around what is drawn for it, in the units of the drawing; it
/// masks by alpha.
pub proof fn alpha_mask_is_written(id: Seq<char>, geometry: Seq<char>)
    ensures
        confinement_def(Confinement::AlphaMask, id, geometry) == "<mask"@ + attr("id"@, id)
            + attr("maskUnits"@, "userSpaceOnUse"@) + attr("mask-type"@, "alpha"@) + ">"@ + geometry
            + "</mask>"@,
{
    reveal_strlit(" ");
    reveal_strlit("=\"");
    reveal_strlit("\"");
    reveal_strlit("<mask");
    reveal_strlit("id");
    reveal_strlit("maskUnits");
    reveal_strlit("userSpaceOnUse");
    reveal_strlit("mask-type");
    reveal_strlit("alpha");
    reveal_strlit(">");
    reveal_strlit("<mask id=\"");
    reveal_strlit("\" maskUnits=\"userSpaceOnUse\" mask-type=\"alpha\">");
    let t0 = "<mask"@;
    let s0 = "<mask id=\""@;
    assert(s0 =~= t0 + lead("id"@));
    let g1 = "\" maskUnits=\"userSpaceOnUse\" mask-type=\"alpha\">"@;
    let b1 = attr("maskUnits"@, "userSpaceOnUse"@) + attr("mask-type"@, "alpha"@) + ">"@;
    assert(g1 =~= "\""@ + b1);
    lemma_more(s0, t0, "id"@, id, g1, b1);
    let u1 = t0 + attr("id"@, id);
    let t2 = u1 + attr("maskUnits"@, "userSpaceOnUse"@) + attr("mask-type"@, "alpha"@);
    assert(u1 + (attr("maskUnits"@, "userSpaceOnUse"@) + attr("mask-type"@, "alpha"@) + ">"@) =~= t2
        + ">"@);
}

proof fn lemma_filter_head(id: Seq<char>, region: Region)
    ensures
        "<filter id=\""@ + id + "\" x=\""@ + region.x@ + "%\" y=\""@ + region.y@ + "%\" width=\""@
            + region.width@ + "%\" height=\""@ + region.height@
            + "%\" primitiveUnits=\"userSpaceOnUse\" color-interpolation-filters=\"sRGB\">"@
            == "<filter"@ + attr("id"@, id) + attr("x"@, region.x@ + "%"@) + attr("y"@, region.y@
            + "%"@) + attr("width"@, region.width@ + "%"@) + attr("height"@, region.height@ + "%"@)
            + attr("primitiveUnits"@, "userSpaceOnUse"@)
                + attr("color-interpolation-filters"@, "sRGB"@) + ">"@,
{
    reveal_strlit(" ");
    reveal_strlit("=\"");
    reveal_strlit("\"");
    reveal_strlit("<filter");
    reveal_strlit("id");
    reveal_strlit("x");
    reveal_strlit("%");
    reveal_strlit("y");
    reveal_strlit("width");
    reveal_strlit("height");
    reveal_strlit("primitiveUnits");
    reveal_strlit("userSpaceOnUse");
    reveal_strlit("color-interpolation-filters");
    reveal_strlit("sRGB");
    reveal_strlit(">");
    reveal_strlit("<filter id=\"");
    reveal_strlit("\" x=\"");
    reveal_strlit("%\" y=\"");
    reveal_strlit("%\" width=\"");
    reveal_strlit("%\" height=\"");
    reveal_strlit("%\" primitiveUnits=\"userSpaceOnUse\" color-interpolation-filters=\"sRGB\">");
    let t0 = "<filter"@;
    let s0 = "<filter id=\""@;
    assert(s0 =~= t0 + lead("id"@));
    let g1 = "\" x=\""@;
    let b1 = lead("x"@);
    assert(g1 =~= "\""@ + b1);
    lemma_more(s0, t0, "id"@, id, g1, b1);
    let s1 = s0 + id + g1;
    let u1 = t0 + attr("id"@, id);
    let g2 = "%\" y=\""@;
    let b2 = lead("y"@);
    assert(g2 =~= "%"@ + "\""@ + b2);
    lemma_more_with(s1, u1, "x"@, region.x@, "%"@, g2, b2);
    let s2 = s1 + region.x@ + g2;
    let u2 = u1 + attr("x"@, region.x@ + "%"@);
    let g3 = "%\" width=\""@;
    let b3 = lead("width"@);
    assert(g3 =~= "%"@ + "\""@ + b3);
    lemma_more_with(s2, u2, "y"@, region.y@, "%"@, g3, b3);
    let s3 = s2 + region.y@ + g3;
    let u3 = u2 + attr("y"@, region.y@ + "%"@);
    let g4 = "%\" height=\""@;
    let b4 = lead("height"@);
    assert(g4 =~= "%"@ + "\""@ + b4);
    lemma_more_with(s3, u3, "width"@, region.width@, "%"@, g4, b4);
    let s4 = s3 + region.width@ + g4;
    let u4 = u3 + attr("width"@, region.width@ + "%"@);
    let g5 = "%\" primitiveUnits=\"userSpaceOnUse\" color-interpolation-filters=\"sRGB\">"@;
    let b5 = attr("primitiveUnits"@, "userSpaceOnUse"@)
        + attr("color-interpolation-filters"@, "sRGB"@) + ">"@;
    assert(g5 =~= "%"@ + "\""@ + b5);
    lemma_more_with(s4, u4, "height"@, region.height@, "%"@, g5, b5);
    let u5 = u4 + attr("height"@, region.height@ + "%"@);
    let t6 = u5 + attr("primitiveUnits"@, "userSpaceOnUse"@)
        + attr("color-interpolation-filters"@, "sRGB"@);
    assert(u5 + (attr("primitiveUnits"@, "userSpaceOnUse"@)
        + attr("color-interpolation-filters"@, "sRGB"@) + ">"@) =~= t6 + ">"@);
}

/// A filter stands in its element, with its region in percent of the bounds of the shape:
/// its primitives, then the merge of what it shows. Its lengths are those of the drawing,
/// and its colors are not linearised.
pub proof fn filter_is_written(
    id: Seq<char>,
    region: Region,
    prims: Seq<char>,
    merges: Seq<char>,
)
    ensures
        filter_def(id, filter_body(region, prims, merges)) == "<filter"@ + attr("id"@, id)
            + attr("x"@, region.x@ + "%"@) + attr(
            "y"@,
            region.y@ + "%"@,
        ) + attr("width"@, region.width@ + "%"@) + attr("height"@, region.height@ + "%"@) + attr(
            "primitiveUnits"@,
            "userSpaceOnUse"@,
        ) + attr("color-interpolation-filters"@, "sRGB"@) + ">"@ + prims
            + "<feMerge>"@ + merges + "</feMerge>"@ + "</filter>"@,
{
    lemma_filter_head(id, region);
    reveal_strlit("\" ");
    reveal_strlit("x=\"");
    reveal_strlit("\" x=\"");
    let a = "<filter id=\""@ + id;
    let x = region.x@;
    let gy = "%\" y=\""@;
    let y = region.y@;
    let gw = "%\" width=\""@;
    let w = region.width@;
    let gh = "%\" height=\""@;
    let h = region.height@;
    let e = "%\" primitiveUnits=\"userSpaceOnUse\" color-interpolation-filters=\"sRGB\">"@;
    assert("\" x=\""@ =~= "\" "@ + "x=\""@);
    lemma_attached(a, "\" "@, "x=\""@, x + gy + y + gw + w + gh + h + e);
    assert("x=\""@ + x + gy + y + gw + w + gh + h + e =~= "x=\""@ + (x + gy + y + gw + w + gh + h
        + e));
    assert(a + "\" x=\""@ + (x + gy + y + gw + w + gh + h + e) =~= a + "\" x=\""@ + x + gy + y + gw
        + w + gh + h + e);
    let head = "x=\""@ + x + gy + y + gw + w + gh + h + e;
    let f = a + "\" "@;
    let m = "<feMerge>"@;
    let n = "</feMerge>"@;
    assert(filter_body(region, prims, merges) == head + prims + m + merges + n);
    assert(f + (head + prims + m + merges + n) =~= f + head + prims + m + merges + n);
}

proof fn lemma_attached(a: Seq<char>, b: Seq<char>, c: Seq<char>, d: Seq<char>)
    ensures
        a + b + (c + d) == a + (b + c) + d,
{
    assert(a + b + (c + d) =~= a + (b + c) + d);
}

/// A drop shadow is the silhouette of the shape, dilated where the shadow spreads, blurred,
/// moved, and filled with the color.
pub proof fn drop_shadow_is_written(shadow: Shadow, i: nat)
    ensures
        ({
            let spread = "shsp"@ + decimal(i);
            let blurred = "shbl"@ + decimal(i);
            let moved = "shof"@ + decimal(i);
            let color = "shfl"@ + decimal(i);
            let shown = "shad"@ + decimal(i);
            let dilation = "<feMorphology"@ + attr("in"@, "SourceAlpha"@) + attr("operator"@,
                "dilate"@)
                + attr("radius"@, shadow.spread.text@) + attr("result"@, spread) + "/>"@;
            let blur = "<feGaussianBlur"@ + attr(
                "in"@,
                if shadow.spread.positive {
                    spread
                } else {
                    "SourceAlpha"@
                },
            ) + attr("stdDeviation"@, shadow.sigma@) + attr("result"@, blurred) + "/>"@;
            let offset = "<feOffset"@ + attr("in"@, blurred) + attr("dx"@, shadow.dx@) + attr(
                "dy"@,
                shadow.dy@,
            ) + attr("result"@, moved) + "/>"@;
            let flood = "<feFlood"@ + attr("flood-color"@, hex_color(shadow.color)) + attr(
                "flood-opacity"@,
                shadow.opacity@,
            ) + attr("result"@, color) + "/>"@;
            let filled = "<feComposite"@ + attr("in"@, color) + attr("in2"@, moved) + attr(
                "operator"@,
                "in"@,
            ) + attr("result"@, shown) + "/>"@;
            drop_primitives(shadow, i) == (if shadow.spread.positive {
                dilation + blur + offset + flood + filled
            } else {
                blur + offset + flood + filled
            })
        }),
{
    let spread = numbered("shsp"@, i);
    let blurred = numbered("shbl"@, i);
    let moved = numbered("shof"@, i);
    let color = numbered("shfl"@, i);
    let shown = numbered("shad"@, i);
    let input = if shadow.spread.positive {
        spread
    } else {
        "SourceAlpha"@
    };
    dilation_is_written("SourceAlpha"@, shadow.spread.text@, spread);
    blur_is_written(input, shadow.sigma@, blurred);
    offset_is_written(blurred, shadow.dx@, shadow.dy@, moved);
    flood_is_written(shadow.color, shadow.opacity@, color);
    composite_is_written(color, moved, "in"@, shown);
    let blur = fe_gaussian_blur(input, shadow.sigma@, blurred);
    assert(Seq::<char>::empty() + blur =~= blur);
}

/// An inner shadow is what lies in the shape but not in its blurred and moved silhouette,
/// filled with the color, dilated where the shadow spreads, and cut to the shape.
pub proof fn inner_shadow_is_written(shadow: Shadow, i: nat)
    ensures
        ({
            let blurred = "isbl"@ + decimal(i);
            let moved = "isof"@ + decimal(i);
            let edge = "isbd"@ + decimal(i);
            let color = "isfl"@ + decimal(i);
            let filled = "istn"@ + decimal(i);
            let spread = "issp"@ + decimal(i);
            let shown = "issh"@ + decimal(i);
            let blur = "<feGaussianBlur"@ + attr("in"@, "SourceAlpha"@) + attr(
                "stdDeviation"@,
                shadow.sigma@,
            ) + attr("result"@, blurred) + "/>"@;
            let offset = "<feOffset"@ + attr("in"@, blurred) + attr("dx"@, shadow.dx@) + attr(
                "dy"@,
                shadow.dy@,
            ) + attr("result"@, moved) + "/>"@;
            let rest = "<feComposite"@ + attr("in"@, "SourceAlpha"@) + attr("in2"@, moved) + attr(
                "operator"@,
                "out"@,
            ) + attr("result"@, edge) + "/>"@;
            let flood = "<feFlood"@ + attr("flood-color"@, hex_color(shadow.color)) + attr(
                "flood-opacity"@,
                shadow.opacity@,
            ) + attr("result"@, color) + "/>"@;
            let fill = "<feComposite"@ + attr("in"@, color) + attr("in2"@, edge) + attr(
                "operator"@,
                "in"@,
            ) + attr("result"@, filled) + "/>"@;
            let dilation = "<feMorphology"@ + attr("in"@, filled) + attr("operator"@, "dilate"@)
                + attr(
                "radius"@,
                shadow.spread.text@,
            ) + attr("result"@, spread) + "/>"@;
            let cut = "<feComposite"@ + attr(
                "in"@,
                if shadow.spread.positive {
                    spread
                } else {
                    filled
                },
            ) + attr("in2"@, "SourceAlpha"@) + attr("operator"@, "in"@) + attr("result"@, shown)
                + "/>"@;
            inner_primitives(shadow, i) == (if shadow.spread.positive {
                blur + offset + rest + flood + fill + dilation + cut
            } else {
                blur + offset + rest + flood + fill + cut
            })
        }),
{
    let blurred = numbered("isbl"@, i);
    let moved = numbered("isof"@, i);
    let edge = numbered("isbd"@, i);
    let color = numbered("isfl"@, i);
    let filled = numbered("istn"@, i);
    let spread = numbered("issp"@, i);
    let shown = numbered("issh"@, i);
    let input = if shadow.spread.positive {
        spread
    } else {
        filled
    };
    blur_is_written("SourceAlpha"@, shadow.sigma@, blurred);
    offset_is_written(blurred, shadow.dx@, shadow.dy@, moved);
    composite_is_written("SourceAlpha"@, moved, "out"@, edge);
    flood_is_written(shadow.color, shadow.opacity@, color);
    composite_is_written(color, edge, "in"@, filled);
    dilation_is_written(filled, shadow.spread.text@, spread);
    composite_is_written(input, "SourceAlpha"@, "in"@, shown);
    let before = fe_gaussian_blur("SourceAlpha"@, shadow.sigma@, blurred) + fe_offset(
        blurred,
        shadow.dx@,
        shadow.dy@,
        moved,
    ) + fe_composite("SourceAlpha"@, moved, "out"@, edge) + fe_flood(
        shadow.color,
        shadow.opacity@,
        color,
    ) + fe_composite(color, edge, "in"@, filled);
    assert(before + Seq::<char>::empty() =~= before);
}

/// Texts one behind the other.
pub open spec fn joined(parts: Seq<Seq<char>>) -> Seq<char>
    decreases parts.len(),
{
    if parts.len() == 0 {
        Seq::empty()
    } else {
        joined(parts.drop_last()) + parts.last()
    }
}

proof fn lemma_joined_push(parts: Seq<Seq<char>>, part: Seq<char>)
    ensures
        joined(parts.push(part)) == joined(parts) + part,
{
    assert(parts.push(part).drop_last() =~= parts);
}

proof fn lemma_drop_parts(shadows: Seq<Shadow>, n: nat) -> (parts: Seq<Seq<char>>)
    ensures
        parts.len() == n,
        forall|i: int| 0 <= i < n ==> #[trigger] parts[i] == drop_primitives(shadows[i], i as nat),
        joined(parts) == all_drop_primitives(shadows, n),
    decreases n,
{
    if n == 0 {
        Seq::empty()
    } else {
        let parts = lemma_drop_parts(shadows, (n - 1) as nat);
        let part = drop_primitives(shadows[n - 1], (n - 1) as nat);
        lemma_joined_push(parts, part);
        parts.push(part)
    }
}

proof fn lemma_inner_parts(shadows: Seq<Shadow>, n: nat) -> (parts: Seq<Seq<char>>)
    ensures
        parts.len() == n,
        forall|i: int| 0 <= i < n ==> #[trigger] parts[i] == inner_primitives(shadows[i], i as nat),
        joined(parts) == all_inner_primitives(shadows, n),
    decreases n,
{
    if n == 0 {
        Seq::empty()
    } else {
        let parts = lemma_inner_parts(shadows, (n - 1) as nat);
        let part = inner_primitives(shadows[n - 1], (n - 1) as nat);
        lemma_joined_push(parts, part);
        parts.push(part)
    }
}

proof fn lemma_nodes(name: Seq<char>, n: nat) -> (nodes: Seq<Seq<char>>)
    ensures
        nodes.len() == n,
        forall|i: int| 0 <= i < n ==> #[trigger] nodes[i] == fe_merge_node(name
            + decimal(i as nat)),
        joined(nodes) == all_merge_nodes(name, n),
    decreases n,
{
    if n == 0 {
        Seq::empty()
    } else {
        let nodes = lemma_nodes(name, (n - 1) as nat);
        let node = fe_merge_node(numbered(name, (n - 1) as nat));
        lemma_joined_push(nodes, node);
        nodes.push(node)
    }
}

/// The filter of drop shadows holds the primitives of every shadow, numbered in their
/// order, and merges what they show in that order; the shape itself lies on top where it
/// is shown too.
pub proof fn drop_shadows_are_merged(shadows: Seq<Shadow>, region: Region, source: bool) -> (r: (
    Seq<Seq<char>>,
    Seq<Seq<char>>,
))
    ensures
        ({
            let (parts, nodes) = r;
            let n = shadows.len() as int;
            &&& parts.len() == n
            &&& forall|i: int|
                0 <= i < n ==> #[trigger] parts[i] == drop_primitives(shadows[i], i as nat)
            &&& forall|i: int|
                0 <= i < n ==> #[trigger] nodes[i] == fe_merge_node("shad"@ + decimal(i as nat))
            &&& source ==> nodes.len() == n + 1 && nodes[n] == fe_merge_node("SourceGraphic"@)
            &&& !source ==> nodes.len() == n
            &&& drop_shadow_body(shadows, region, source) == filter_body(
                region,
                joined(parts),
                joined(nodes),
            )
        }),
{
    let n = shadows.len();
    let parts = lemma_drop_parts(shadows, n);
    let nodes = lemma_nodes("shad"@, n);
    if source {
        let top = fe_merge_node("SourceGraphic"@);
        lemma_joined_push(nodes, top);
        (parts, nodes.push(top))
    } else {
        assert(joined(nodes) + Seq::<char>::empty() =~= joined(nodes));
        (parts, nodes)
    }
}

/// The filter of inner shadows holds the primitives of every shadow, numbered in their
/// order, and merges what they show in that order, without the shape itself.
pub proof fn inner_shadows_are_merged(shadows: Seq<Shadow>, region: Region) -> (r: (
    Seq<Seq<char>>,
    Seq<Seq<char>>,
))
    ensures
        ({
            let (parts, nodes) = r;
            let n = shadows.len() as int;
            &&& parts.len() == n
            &&& forall|i: int|
                0 <= i < n ==> #[trigger] parts[i] == inner_primitives(shadows[i], i as nat)
            &&& nodes.len() == n
            &&& forall|i: int|
                0 <= i < n ==> #[trigger] nodes[i] == fe_merge_node("issh"@ + decimal(i as nat))
            &&& inner_shadow_body(shadows, region) == filter_body(
                region,
                joined(parts),
                joined(nodes),
            )
        }),
{
    let n = shadows.len();
    let parts = lemma_inner_parts(shadows, n);
    let nodes = lemma_nodes("issh"@, n);
    (parts, nodes)
}

// An attribute list, with the space before it.
spec fn after_space(attrs: Seq<char>) -> Seq<char> {
    if attrs.len() == 0 {
        Seq::empty()
    } else {
        " "@ + attrs
    }
}

proof fn lemma_spaced(a: Seq<char>, b: Seq<char>)
    ensures
        after_space(spaced(a, b)) == after_space(a) + after_space(b),
        spaced(a, b).len() > 0 <==> a.len() > 0 || b.len() > 0,
{
    reveal_strlit(" ");
    assert(after_space(spaced(a, b)) =~= after_space(a) + after_space(b));
}

proof fn lemma_reference(name: Seq<char>, id: Seq<char>)
    ensures
        " "@ + reference(name, id) == attr(name, url(id)),
        reference(name, id).len() > 0,
{
    reveal_strlit("=\"url(#");
    reveal_strlit("=\"");
    reveal_strlit("url(#");
    reveal_strlit(")\"");
    reveal_strlit(")");
    reveal_strlit("\"");
    assert("=\"url(#"@ =~= "=\""@ + "url(#"@);
    assert(")\""@ =~= ")"@ + "\""@);
    let a = "=\""@;
    let u = "url(#"@;
    let b = ")"@;
    let q = "\""@;
    assert(" "@ + (name + (a + u) + id + (b + q)) =~= " "@ + name + a + (u + id + b) + q);
}

proof fn lemma_opacity(opacity: Seq<char>)
    ensures
        " "@ + opacity_attr(opacity) == attr("opacity"@, opacity),
        opacity_attr(opacity).len() > 0,
{
    reveal_strlit("opacity=\"");
    reveal_strlit("opacity");
    reveal_strlit("=\"");
    assert("opacity=\""@ =~= "opacity"@ + "=\""@);
    let o = "opacity"@;
    let a = "=\""@;
    let q = "\""@;
    assert(" "@ + ((o + a) + opacity + q) =~= " "@ + o + a + opacity + q);
}

proof fn lemma_blend(css: Seq<char>)
    ensures
        " "@ + ("style=\"mix-blend-mode:"@ + css + "\""@) == attr(
            "style"@,
            "mix-blend-mode:"@ + css,
        ),
        ("style=\"mix-blend-mode:"@ + css + "\""@).len() > 0,
{
    reveal_strlit("style=\"mix-blend-mode:");
    reveal_strlit("style");
    reveal_strlit("=\"");
    reveal_strlit("mix-blend-mode:");
    assert("style=\"mix-blend-mode:"@ =~= "style"@ + "=\""@ + "mix-blend-mode:"@);
    let s = "style"@;
    let a = "=\""@;
    let m = "mix-blend-mode:"@;
    let q = "\""@;
    assert(" "@ + ((s + a + m) + css + q) =~= " "@ + s + a + (m + css) + q);
}

proof fn lemma_group_tag(attrs: Seq<char>, spaced_attrs: Seq<char>)
    requires
        " "@ + attrs == spaced_attrs,
    ensures
        "<g "@ + attrs + ">"@ == "<g"@ + spaced_attrs + ">"@,
{
    reveal_strlit("<g ");
    reveal_strlit("<g");
    reveal_strlit(" ");
    assert("<g "@ =~= "<g"@ + " "@);
    let g = "<g"@;
    assert((g + " "@) + attrs =~= g + (" "@ + attrs));
}

/// A group with effects has an attribute for each effect that is asked for, and none for
/// the others.
pub proof fn effects_are_written(
    opacity: Option<Seq<char>>,
    blend: Option<Seq<char>>,
    filter: Option<Seq<char>>,
)
    requires
        opacity is Some || blend is Some || filter is Some,
    ensures
        "<g "@ + effects_attrs(opacity, blend, filter) + ">"@ == "<g"@ + (attr_if(
            "opacity"@,
            opacity,
        ) + attr_if(
            "style"@,
            match blend {
                Some(css) => Some("mix-blend-mode:"@ + css),
                None => None,
            },
        ) + attr_if(
            "filter"@,
            match filter {
                Some(id) => Some(url(id)),
                None => None,
            },
        )) + ">"@,
{
    let none = Seq::<char>::empty();
    let a = match opacity {
        Some(opacity) => opacity_attr(opacity),
        None => none,
    };
    let b = match blend {
        Some(css) => "style=\"mix-blend-mode:"@ + css + "\""@,
        None => none,
    };
    let c = match filter {
        Some(id) => reference("filter"@, id),
        None => none,
    };
    if let Some(opacity) = opacity {
        lemma_opacity(opacity);
    }
    if let Some(css) = blend {
        lemma_blend(css);
    }
    if let Some(id) = filter {
        lemma_reference("filter"@, id);
    }
    lemma_spaced(a, b);
    lemma_spaced(spaced(a, b), c);
    let attrs = effects_attrs(opacity, blend, filter);
    assert(attrs == spaced(spaced(a, b), c));
    assert(attrs.len() > 0);
    lemma_group_tag(attrs, after_space(a) + after_space(b) + after_space(c));
}

/// A confined group refers to what confines it, as a clip path or as a mask, and has an
/// opacity where one is asked for.
pub proof fn confinement_is_written(
    kind: Confinement,
    id: Seq<char>,
    opacity: Option<Seq<char>>,
)
    ensures
        "<g "@ + confinement_attrs(kind, id, opacity) + ">"@ == "<g"@ + (attr(
            if kind is ClipPath {
                "clip-path"@
            } else {
                "mask"@
            },
            url(id),
        ) + attr_if("opacity"@, opacity)) + ">"@,
{
    let name = if kind is ClipPath {
        "clip-path"@
    } else {
        "mask"@
    };
    let none = Seq::<char>::empty();
    let confined = reference(name, id);
    lemma_reference(name, id);
    match opacity {
        Some(opacity) => {
            lemma_opacity(opacity);
            let o = opacity_attr(opacity);
            assert(" "@ + (confined + " "@ + o) =~= (" "@ + confined) + (" "@ + o));
        },
        None => {
            assert(attr(name, url(id)) + none =~= attr(name, url(id)));
        },
    }
    lemma_group_tag(
        confinement_attrs(kind, id, opacity),
        attr(name, url(id)) + attr_if("opacity"@, opacity),
    );
}

/// A group that refers to a definition.
pub proof fn reference_is_written(name: Seq<char>, id: Seq<char>)
    ensures
        "<g "@ + reference(name, id) + ">"@ == "<g"@ + attr(name, url(id)) + ">"@,
{
    lemma_reference(name, id);
    lemma_group_tag(reference(name, id), attr(name, url(id)));
}

/// A translucent group.
pub proof fn opacity_is_written(opacity: Seq<char>)
    ensures
        "<g "@ + opacity_attr(opacity) + ">"@ == "<g"@ + attr("opacity"@, opacity) + ">"@,
{
    lemma_opacity(opacity);
    lemma_group_tag(opacity_attr(opacity), attr("opacity"@, opacity));
}

proof fn lemma_root_tag(width: Seq<char>, height: Seq<char>)
    ensures
        "<svg xmlns=\"http://www.w3.org/2000/svg\" xmlns:xlink=\"http://www.w3.org/1999/xlink\" width=\""@
            + width + "\" height=\""@ + height + "\">"@ == "<svg"@
            + attr("xmlns"@, "http://www.w3.org/2000/svg"@)
            + attr("xmlns:xlink"@, "http://www.w3.org/1999/xlink"@) + attr("width"@, width)
            + attr("height"@, height) + ">"@,
{
    reveal_strlit(" ");
    reveal_strlit("=\"");
    reveal_strlit("\"");
    reveal_strlit("<svg");
    reveal_strlit("xmlns");
    reveal_strlit("http://www.w3.org/2000/svg");
    reveal_strlit("xmlns:xlink");
    reveal_strlit("http://www.w3.org/1999/xlink");
    reveal_strlit("width");
    reveal_strlit("height");
    reveal_strlit(">");
    reveal_strlit("<svg xmlns=\"http://www.w3.org/2000/svg\" xmlns:xlink=\"http://www.w3.org/1999/xlink\" width=\"");
    reveal_strlit("\" height=\"");
    reveal_strlit("\">");
    let t0 = "<svg"@;
    let s0 = "<svg xmlns=\"http://www.w3.org/2000/svg\" xmlns:xlink=\"http://www.w3.org/1999/xlink\" width=\""@;
    assert(s0 =~= t0 + (attr("xmlns"@, "http://www.w3.org/2000/svg"@)
        + attr("xmlns:xlink"@, "http://www.w3.org/1999/xlink"@) + lead("width"@)));
    let t1 = t0 + attr("xmlns"@, "http://www.w3.org/2000/svg"@)
        + attr("xmlns:xlink"@, "http://www.w3.org/1999/xlink"@);
    assert(t0 + (attr("xmlns"@, "http://www.w3.org/2000/svg"@)
        + attr("xmlns:xlink"@, "http://www.w3.org/1999/xlink"@) + lead("width"@)) =~= t1
        + lead("width"@));
    let g1 = "\" height=\""@;
    let b1 = lead("height"@);
    assert(g1 =~= "\""@ + b1);
    lemma_more(s0, t1, "width"@, width, g1, b1);
    let s1 = s0 + width + g1;
    let u1 = t1 + attr("width"@, width);
    let g2 = "\">"@;
    let b2 = ">"@;
    assert(g2 =~= "\""@ + b2);
    lemma_more(s1, u1, "height"@, height, g2, b2);
}

/// The opening tag of the root of a document, with the size of the page.
pub open spec fn root_tag(width: Seq<char>, height: Seq<char>) -> Seq<char> {
    "<svg"@ + attr("xmlns"@, "http://www.w3.org/2000/svg"@) + attr(
        "xmlns:xlink"@,
        "http://www.w3.org/1999/xlink"@,
    ) + attr("width"@, width) + attr("height"@, height) + ">"@
}

/// What stands in the root of a document before its body: the rules for the fonts and the
/// definitions, as far as there are any.
pub open spec fn preamble(font_css: Seq<char>, defs: Seq<char>) -> Seq<char> {
    if font_css.len() > 0 {
        "<defs>"@ + "<style type=\"text/css\"><![CDATA["@ + font_css + "]]></style>"@ + defs
            + "</defs>"@
    } else if defs.len() > 0 {
        "<defs>"@ + defs + "</defs>"@
    } else {
        Seq::empty()
    }
}

/// A document is an XML declaration and a root of the size of the page, with the rules for
/// the fonts and the definitions, as far as there are any, before the body.
pub proof fn document_is_written(
    width: Seq<char>,
    height: Seq<char>,
    font_css: Seq<char>,
    defs: Seq<char>,
    body: Seq<char>,
)
    ensures
        document(width, height, font_css, defs, body)
            == "<?xml version=\"1.0\" encoding=\"utf-8\" ?>\n"@ + ("<svg"@ + attr(
            "xmlns"@,
            "http://www.w3.org/2000/svg"@,
        ) + attr("xmlns:xlink"@, "http://www.w3.org/1999/xlink"@) + attr("width"@, width) + attr(
            "height"@,
            height,
        ) + ">"@) + (if font_css.len() > 0 {
            "<defs>"@ + "<style type=\"text/css\"><![CDATA["@ + font_css + "]]></style>"@ + defs
                + "</defs>"@
        } else if defs.len() > 0 {
            "<defs>"@ + defs + "</defs>"@
        } else {
            Seq::empty()
        }) + body + "</svg>"@,
        document(width, height, font_css, defs, body)
            == "<?xml version=\"1.0\" encoding=\"utf-8\" ?>\n"@ + root_tag(width, height)
                + preamble(
            font_css,
            defs,
        ) + body + "</svg>"@,
{
    lemma_root_tag(width, height);
    let x = "<?xml version=\"1.0\" encoding=\"utf-8\" ?>\n"@;
    let s =
        "<svg xmlns=\"http://www.w3.org/2000/svg\" xmlns:xlink=\"http://www.w3.org/1999/xlink\" width=\""@;
    let h = "\" height=\""@;
    let e = "\">"@;
    assert(x + s + width + h + height + e =~= x + (s + width + h + height + e));
    assert(defs_element(font_css, defs) =~= preamble(font_css, defs)) by {
        let d = "<defs>"@;
        let style = "<style type=\"text/css\"><![CDATA["@;
        let css = "]]></style>"@;
        if font_css.len() > 0 {
            assert(d + (style + font_css + css) =~= d + style + font_css + css);
        } else {
            assert(d + Seq::<char>::empty() =~= d);
        }
    }
}

/// What is read back from a document, as from a fragment, is what stands in its root: the
/// rules for the fonts, the definitions and the body.
pub proof fn document_reads_back(
    width: Seq<char>,
    height: Seq<char>,
    font_css: Seq<char>,
    defs: Seq<char>,
    body: Seq<char>,
)
    requires
        !width.contains('>'),
        !height.contains('>'),
    ensures
        inner_svg(document(width, height, font_css, defs, body)) == preamble(font_css, defs)
            + body,
{
    document_is_written(width, height, font_css, defs, body);
    reveal_strlit("<?xml version=\"1.0\" encoding=\"utf-8\" ?>\n");
    reveal_strlit("<svg");
    reveal_strlit(" ");
    reveal_strlit("=\"");
    reveal_strlit("\"");
    reveal_strlit(">");
    reveal_strlit("xmlns");
    reveal_strlit("http://www.w3.org/2000/svg");
    reveal_strlit("xmlns:xlink");
    reveal_strlit("http://www.w3.org/1999/xlink");
    reveal_strlit("width");
    reveal_strlit("height");
    let head = "<?xml version=\"1.0\" encoding=\"utf-8\" ?>\n"@;
    let a = attr("xmlns"@, "http://www.w3.org/2000/svg"@);
    let b = attr("xmlns:xlink"@, "http://www.w3.org/1999/xlink"@);
    let c = attr("width"@, width);
    let d = attr("height"@, height);
    let attrs = a + b + c + d;
    let inside = preamble(font_css, defs) + body;
    lemma_no_bracket(a, b, c, d, width, height);
    let none = Seq::<char>::empty();
    assert forall|i: int| 0 <= i < head.len() implies !occurs_at(head + "<svg"@, "<svg"@, i) by {
        if occurs_at(head + "<svg"@, "<svg"@, i) {
            let w = (head + "<svg"@).subrange(i, i + 4);
            assert(w[0] == (head + "<svg"@)[i]);
            assert(w[1] == (head + "<svg"@)[i + 1]);
            assert(w[0] == '<' && w[1] == 's');
            assert(head[i] == '<');
        }
    }
    assert forall|i: int| 0 <= i implies !occurs_at(none, "</svg>"@, i) by {
        reveal_strlit("</svg>");
    }
    inner_of_document(head, attrs, inside, none);
    assert("<svg"@ + a + b + c + d + ">"@ =~= "<svg"@ + attrs + ">"@);
    let r = "<svg"@;
    let g = ">"@;
    let end = "</svg>"@;
    let p = preamble(font_css, defs);
    assert(head + (r + attrs + g) + p + body + end =~= head + r + attrs + g + (p + body) + end
        + none);
}

proof fn lemma_no_bracket(
    a: Seq<char>,
    b: Seq<char>,
    c: Seq<char>,
    d: Seq<char>,
    width: Seq<char>,
    height: Seq<char>,
)
    requires
        a == attr("xmlns"@, "http://www.w3.org/2000/svg"@),
        b == attr("xmlns:xlink"@, "http://www.w3.org/1999/xlink"@),
        c == attr("width"@, width),
        d == attr("height"@, height),
        !width.contains('>'),
        !height.contains('>'),
    ensures
        !(a + b + c + d).contains('>'),
{
    reveal_strlit(" ");
    reveal_strlit("=\"");
    reveal_strlit("\"");
    reveal_strlit("xmlns");
    reveal_strlit("http://www.w3.org/2000/svg");
    reveal_strlit("xmlns:xlink");
    reveal_strlit("http://www.w3.org/1999/xlink");
    reveal_strlit("width");
    reveal_strlit("height");
    assert(!"xmlns"@.contains('>'));
    assert(!"http://www.w3.org/2000/svg"@.contains('>'));
    assert(!"xmlns:xlink"@.contains('>'));
    assert(!"http://www.w3.org/1999/xlink"@.contains('>'));
    assert(!"width"@.contains('>'));
    assert(!"height"@.contains('>'));
    lemma_attr_bracket("xmlns"@, "http://www.w3.org/2000/svg"@);
    lemma_attr_bracket("xmlns:xlink"@, "http://www.w3.org/1999/xlink"@);
    lemma_attr_bracket("width"@, width);
    lemma_attr_bracket("height"@, height);
    lemma_joined_bracket(a, b);
    lemma_joined_bracket(a + b, c);
    lemma_joined_bracket(a + b + c, d);
}

proof fn lemma_joined_bracket(a: Seq<char>, b: Seq<char>)
    requires
        !a.contains('>'),
        !b.contains('>'),
    ensures
        !(a + b).contains('>'),
{
    let s = a + b;
    assert forall|i: int| 0 <= i < s.len() implies #[trigger] s[i] != '>' by {
        if i < a.len() {
            assert(s[i] == a[i]);
        } else {
            assert(s[i] == b[i - a.len()]);
        }
    }
}

proof fn lemma_attr_bracket(name: Seq<char>, value: Seq<char>)
    requires
        !name.contains('>'),
        !value.contains('>'),
    ensures
        !attr(name, value).contains('>'),
{
    reveal_strlit(" ");
    reveal_strlit("=\"");
    reveal_strlit("\"");
    lemma_joined_bracket(" "@, name);
    lemma_joined_bracket(" "@ + name, "=\""@);
    lemma_joined_bracket(" "@ + name + "=\""@, value);
    lemma_joined_bracket(" "@ + name + "=\""@ + value, "\""@);
}

} // verus!
