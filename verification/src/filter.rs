//! SVG filters for shadows.
use vstd::prelude::*;
use vstd::string::*;

use crate::shape::{Region, Rgb, Shadow};
use crate::text::{decimal, decimal_text, hex_pair, push_hex};

verus! {

/// A name with a number behind it.
pub open spec fn numbered(name: Seq<char>, n: nat) -> Seq<char> {
    name + decimal(n)
}

/// A name with a number behind it.
pub fn numbered_text(name: &str, n: usize) -> (r: String)
    ensures
        r@ == numbered(name@, n as nat),
{
    let number = decimal_text(n);
    name.to_owned().concat(number.as_str())
}

/// A color as `#RRGGBB`.
pub open spec fn hex_color(color: Rgb) -> Seq<char> {
    "#"@ + hex_pair(color.r) + hex_pair(color.g) + hex_pair(color.b)
}

fn hex_color_text(color: Rgb) -> (r: String)
    ensures
        r@ == hex_color(color),
{
    let mut r = "#".to_owned();
    push_hex(&mut r, color.r);
    push_hex(&mut r, color.g);
    push_hex(&mut r, color.b);
    r
}

pub open spec fn fe_dilate(input: Seq<char>, radius: Seq<char>, result: Seq<char>) -> Seq<char> {
    "<feMorphology in=\""@ + input + "\" operator=\"dilate\" radius=\""@ + radius + "\" result=\""@
        + result + "\"/>"@
}

fn fe_dilate_text(input: &str, radius: &str, result: &str) -> (r: String)
    ensures
        r@ == fe_dilate(input@, radius@, result@),
{
    "<feMorphology in=\"".to_owned().concat(input).concat(
        "\" operator=\"dilate\" radius=\"",
    ).concat(radius).concat("\" result=\"").concat(result).concat("\"/>")
}

pub open spec fn fe_gaussian_blur(
    input: Seq<char>,
    sigma: Seq<char>,
    result: Seq<char>,
) -> Seq<char> {
    "<feGaussianBlur in=\""@ + input + "\" stdDeviation=\""@ + sigma + "\" result=\""@ + result
        + "\"/>"@
}

fn fe_gaussian_blur_text(input: &str, sigma: &str, result: &str) -> (r: String)
    ensures
        r@ == fe_gaussian_blur(input@, sigma@, result@),
{
    "<feGaussianBlur in=\"".to_owned().concat(input).concat("\" stdDeviation=\"").concat(
        sigma,
    ).concat("\" result=\"").concat(result).concat("\"/>")
}

pub open spec fn fe_offset(
    input: Seq<char>,
    dx: Seq<char>,
    dy: Seq<char>,
    result: Seq<char>,
) -> Seq<char> {
    "<feOffset in=\""@ + input + "\" dx=\""@ + dx + "\" dy=\""@ + dy + "\" result=\""@ + result
        + "\"/>"@
}

fn fe_offset_text(input: &str, dx: &str, dy: &str, result: &str) -> (r: String)
    ensures
        r@ == fe_offset(input@, dx@, dy@, result@),
{
    "<feOffset in=\"".to_owned().concat(input).concat("\" dx=\"").concat(dx).concat(
        "\" dy=\"",
    ).concat(dy).concat("\" result=\"").concat(result).concat("\"/>")
}

pub open spec fn fe_flood(color: Rgb, opacity: Seq<char>, result: Seq<char>) -> Seq<char> {
    "<feFlood flood-color=\""@ + hex_color(color) + "\" flood-opacity=\""@ + opacity
        + "\" result=\""@ + result + "\"/>"@
}

fn fe_flood_text(color: Rgb, opacity: &str, result: &str) -> (r: String)
    ensures
        r@ == fe_flood(color, opacity@, result@),
{
    let hex = hex_color_text(color);
    "<feFlood flood-color=\"".to_owned().concat(hex.as_str()).concat(
        "\" flood-opacity=\"",
    ).concat(opacity).concat("\" result=\"").concat(result).concat("\"/>")
}

pub open spec fn fe_composite(
    input: Seq<char>,
    input2: Seq<char>,
    operator: Seq<char>,
    result: Seq<char>,
) -> Seq<char> {
    "<feComposite in=\""@ + input + "\" in2=\""@ + input2 + "\" operator=\""@ + operator
        + "\" result=\""@ + result + "\"/>"@
}

fn fe_composite_text(input: &str, input2: &str, operator: &str, result: &str) -> (r: String)
    ensures
        r@ == fe_composite(input@, input2@, operator@, result@),
{
    "<feComposite in=\"".to_owned().concat(input).concat("\" in2=\"").concat(input2).concat(
        "\" operator=\"",
    ).concat(operator).concat("\" result=\"").concat(result).concat("\"/>")
}

pub open spec fn fe_merge_node(input: Seq<char>) -> Seq<char> {
    "<feMergeNode in=\""@ + input + "\"/>"@
}

fn fe_merge_node_text(input: &str) -> (r: String)
    ensures
        r@ == fe_merge_node(input@),
{
    "<feMergeNode in=\"".to_owned().concat(input).concat("\"/>")
}

/// A filter without its opening and its id: primitives in a region, then a merge.
pub open spec fn filter_body(region: Region, prims: Seq<char>, merges: Seq<char>) -> Seq<char> {
    "x=\""@ + region.x@ + "%\" y=\""@ + region.y@ + "%\" width=\""@ + region.width@
        + "%\" height=\""@ + region.height@
        + "%\" primitiveUnits=\"userSpaceOnUse\" color-interpolation-filters=\"sRGB\">"@ + prims
        + "<feMerge>"@ + merges + "</feMerge>"@
}

fn filter_body_text(region: &Region, prims: &str, merges: &str) -> (r: String)
    ensures
        r@ == filter_body(*region, prims@, merges@),
{
    "x=\"".to_owned().concat(region.x.as_str()).concat("%\" y=\"").concat(
        region.y.as_str(),
    ).concat("%\" width=\"").concat(region.width.as_str()).concat("%\" height=\"").concat(
        region.height.as_str(),
    ).concat(
        "%\" primitiveUnits=\"userSpaceOnUse\" color-interpolation-filters=\"sRGB\">",
    ).concat(prims).concat("<feMerge>").concat(merges).concat("</feMerge>")
}

/// The primitives of the drop shadow with number `i`: the alpha of the source, dilated
/// where the shadow spreads, blurred, offset and tinted.
pub open spec fn drop_primitives(shadow: Shadow, i: nat) -> Seq<char> {
    let dilated = numbered("shsp"@, i);
    let blurred = numbered("shbl"@, i);
    let offset = numbered("shof"@, i);
    let flood = numbered("shfl"@, i);
    let tinted = numbered("shad"@, i);
    let input = if shadow.spread.positive {
        dilated
    } else {
        "SourceAlpha"@
    };
    (if shadow.spread.positive {
        fe_dilate("SourceAlpha"@, shadow.spread.text@, dilated)
    } else {
        Seq::empty()
    }) + fe_gaussian_blur(input, shadow.sigma@, blurred) + fe_offset(
        blurred,
        shadow.dx@,
        shadow.dy@,
        offset,
    ) + fe_flood(shadow.color, shadow.opacity@, flood) + fe_composite(
        flood,
        offset,
        "in"@,
        tinted,
    )
}

fn drop_primitives_text(shadow: &Shadow, i: usize) -> (r: String)
    ensures
        r@ == drop_primitives(*shadow, i as nat),
{
    let dilated = numbered_text("shsp", i);
    let blurred = numbered_text("shbl", i);
    let offset = numbered_text("shof", i);
    let flood = numbered_text("shfl", i);
    let tinted = numbered_text("shad", i);
    let mut r = String::new();
    let mut input = "SourceAlpha";
    if shadow.spread.positive {
        r = fe_dilate_text(input, shadow.spread.text.as_str(), dilated.as_str());
        input = dilated.as_str();
    }
    let blur = fe_gaussian_blur_text(input, shadow.sigma.as_str(), blurred.as_str());
    let shift = fe_offset_text(
        blurred.as_str(),
        shadow.dx.as_str(),
        shadow.dy.as_str(),
        offset.as_str(),
    );
    let tint = fe_flood_text(shadow.color, shadow.opacity.as_str(), flood.as_str());
    let composite = fe_composite_text(flood.as_str(), offset.as_str(), "in", tinted.as_str());
    r.concat(blur.as_str()).concat(shift.as_str()).concat(tint.as_str()).concat(composite.as_str())
}

/// The primitives of the first `n` drop shadows.
pub open spec fn all_drop_primitives(shadows: Seq<Shadow>, n: nat) -> Seq<char>
    decreases n,
{
    if n == 0 {
        Seq::empty()
    } else {
        all_drop_primitives(shadows, (n - 1) as nat) + drop_primitives(
            shadows[n - 1],
            (n - 1) as nat,
        )
    }
}

/// The merge nodes of the results `name0`, `name1` and so on.
pub open spec fn all_merge_nodes(name: Seq<char>, n: nat) -> Seq<char>
    decreases n,
{
    if n == 0 {
        Seq::empty()
    } else {
        all_merge_nodes(name, (n - 1) as nat) + fe_merge_node(numbered(name, (n - 1) as nat))
    }
}

/// The filter of drop shadows. The source lies on top of them where it is included.
pub open spec fn drop_shadow_body(
    shadows: Seq<Shadow>,
    region: Region,
    include_source: bool,
) -> Seq<char> {
    filter_body(
        region,
        all_drop_primitives(shadows, shadows.len()),
        all_merge_nodes("shad"@, shadows.len()) + (if include_source {
            fe_merge_node("SourceGraphic"@)
        } else {
            Seq::empty()
        }),
    )
}

pub fn drop_shadow_body_text(shadows: &Vec<Shadow>, region: &Region, include_source: bool) -> (r:
    String)
    ensures
        r@ == drop_shadow_body(shadows@, *region, include_source),
{
    let mut prims = String::new();
    let mut merges = String::new();
    let mut i: usize = 0;
    while i < shadows.len()
        invariant
            0 <= i <= shadows.len(),
            prims@ == all_drop_primitives(shadows@, i as nat),
            merges@ == all_merge_nodes("shad"@, i as nat),
        decreases shadows.len() - i,
    {
        let part = drop_primitives_text(&shadows[i], i);
        prims.append(part.as_str());
        let tinted = numbered_text("shad", i);
        let node = fe_merge_node_text(tinted.as_str());
        merges.append(node.as_str());
        i = i + 1;
    }
    if include_source {
        let node = fe_merge_node_text("SourceGraphic");
        merges.append(node.as_str());
    } else {
        proof {
            assert(merges@ + Seq::<char>::empty() =~= merges@);
        }
    }
    filter_body_text(region, prims.as_str(), merges.as_str())
}

/// The primitives of the inner shadow with number `i`: the shape without its blurred
/// and offset silhouette, tinted, dilated where the shadow spreads, and clipped back
/// into the shape.
pub open spec fn inner_primitives(shadow: Shadow, i: nat) -> Seq<char> {
    let blurred = numbered("isbl"@, i);
    let occluder = numbered("isof"@, i);
    let band = numbered("isbd"@, i);
    let flood = numbered("isfl"@, i);
    let tinted = numbered("istn"@, i);
    let dilated = numbered("issp"@, i);
    let shade = numbered("issh"@, i);
    fe_gaussian_blur("SourceAlpha"@, shadow.sigma@, blurred) + fe_offset(
        blurred,
        shadow.dx@,
        shadow.dy@,
        occluder,
    ) + fe_composite("SourceAlpha"@, occluder, "out"@, band) + fe_flood(
        shadow.color,
        shadow.opacity@,
        flood,
    ) + fe_composite(flood, band, "in"@, tinted) + (if shadow.spread.positive {
        fe_dilate(tinted, shadow.spread.text@, dilated)
    } else {
        Seq::empty()
    }) + fe_composite(
        if shadow.spread.positive {
            dilated
        } else {
            tinted
        },
        "SourceAlpha"@,
        "in"@,
        shade,
    )
}

fn inner_primitives_text(shadow: &Shadow, i: usize) -> (r: String)
    ensures
        r@ == inner_primitives(*shadow, i as nat),
{
    let blurred = numbered_text("isbl", i);
    let occluder = numbered_text("isof", i);
    let band = numbered_text("isbd", i);
    let flood = numbered_text("isfl", i);
    let tinted = numbered_text("istn", i);
    let dilated = numbered_text("issp", i);
    let shade = numbered_text("issh", i);
    let mut r = fe_gaussian_blur_text("SourceAlpha", shadow.sigma.as_str(), blurred.as_str());
    let shift = fe_offset_text(
        blurred.as_str(),
        shadow.dx.as_str(),
        shadow.dy.as_str(),
        occluder.as_str(),
    );
    r.append(shift.as_str());
    let outside = fe_composite_text("SourceAlpha", occluder.as_str(), "out", band.as_str());
    r.append(outside.as_str());
    let tint = fe_flood_text(shadow.color, shadow.opacity.as_str(), flood.as_str());
    r.append(tint.as_str());
    let tinting = fe_composite_text(flood.as_str(), band.as_str(), "in", tinted.as_str());
    r.append(tinting.as_str());
    let mut clip_input = tinted.as_str();
    if shadow.spread.positive {
        let dilate = fe_dilate_text(clip_input, shadow.spread.text.as_str(), dilated.as_str());
        r.append(dilate.as_str());
        clip_input = dilated.as_str();
    } else {
        proof {
            assert(r@ + Seq::<char>::empty() =~= r@);
        }
    }
    let clip = fe_composite_text(clip_input, "SourceAlpha", "in", shade.as_str());
    r.append(clip.as_str());
    r
}

/// The primitives of the first `n` inner shadows.
pub open spec fn all_inner_primitives(shadows: Seq<Shadow>, n: nat) -> Seq<char>
    decreases n,
{
    if n == 0 {
        Seq::empty()
    } else {
        all_inner_primitives(shadows, (n - 1) as nat) + inner_primitives(
            shadows[n - 1],
            (n - 1) as nat,
        )
    }
}

/// The filter of inner shadows: the shadows alone, without the source.
pub open spec fn inner_shadow_body(shadows: Seq<Shadow>, region: Region) -> Seq<char> {
    filter_body(
        region,
        all_inner_primitives(shadows, shadows.len()),
        all_merge_nodes("issh"@, shadows.len()),
    )
}

pub fn inner_shadow_body_text(shadows: &Vec<Shadow>, region: &Region) -> (r: String)
    ensures
        r@ == inner_shadow_body(shadows@, *region),
{
    let mut prims = String::new();
    let mut merges = String::new();
    let mut i: usize = 0;
    while i < shadows.len()
        invariant
            0 <= i <= shadows.len(),
            prims@ == all_inner_primitives(shadows@, i as nat),
            merges@ == all_merge_nodes("issh"@, i as nat),
        decreases shadows.len() - i,
    {
        let part = inner_primitives_text(&shadows[i], i);
        prims.append(part.as_str());
        let shade = numbered_text("issh", i);
        let node = fe_merge_node_text(shade.as_str());
        merges.append(node.as_str());
        i = i + 1;
    }
    filter_body_text(region, prims.as_str(), merges.as_str())
}

} // verus!
