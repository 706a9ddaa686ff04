//! Composite effects of a shape.
use vstd::prelude::*;
use vstd::string::*;

use crate::shape::{BlendMode, BlurType, Shape};

verus! {

/// The CSS `mix-blend-mode` keyword of a blend mode, where it has one.
pub open spec fn blend_keyword(mode: BlendMode) -> Option<Seq<char>> {
    match mode {
        BlendMode::Multiply => Some("multiply"@),
        BlendMode::Screen => Some("screen"@),
        BlendMode::Overlay => Some("overlay"@),
        BlendMode::Darken => Some("darken"@),
        BlendMode::Lighten => Some("lighten"@),
        BlendMode::ColorDodge => Some("color-dodge"@),
        BlendMode::ColorBurn => Some("color-burn"@),
        BlendMode::HardLight => Some("hard-light"@),
        BlendMode::SoftLight => Some("soft-light"@),
        BlendMode::Difference => Some("difference"@),
        BlendMode::Exclusion => Some("exclusion"@),
        BlendMode::Hue => Some("hue"@),
        BlendMode::Saturation => Some("saturation"@),
        BlendMode::Color => Some("color"@),
        BlendMode::Luminosity => Some("luminosity"@),
        _ => None,
    }
}

/// Maps a blend mode to its CSS `mix-blend-mode` keyword. Returns `None` for `SrcOver`
/// (normal) and modes without a CSS equivalent.
pub fn blend_css(mode: BlendMode) -> (css: Option<&'static str>)
    ensures
        match css {
            Some(keyword) => blend_keyword(mode) == Some(keyword@),
            None => blend_keyword(mode) is None,
        },
{
    match mode {
        BlendMode::Multiply => Some("multiply"),
        BlendMode::Screen => Some("screen"),
        BlendMode::Overlay => Some("overlay"),
        BlendMode::Darken => Some("darken"),
        BlendMode::Lighten => Some("lighten"),
        BlendMode::ColorDodge => Some("color-dodge"),
        BlendMode::ColorBurn => Some("color-burn"),
        BlendMode::HardLight => Some("hard-light"),
        BlendMode::SoftLight => Some("soft-light"),
        BlendMode::Difference => Some("difference"),
        BlendMode::Exclusion => Some("exclusion"),
        BlendMode::Hue => Some("hue"),
        BlendMode::Saturation => Some("saturation"),
        BlendMode::Color => Some("color"),
        BlendMode::Luminosity => Some("luminosity"),
        _ => None,
    }
}

/// The layer blur of a shape, if it has a visible one.
pub open spec fn layer_blur(shape: Shape) -> Option<Seq<char>> {
    match shape.blur {
        Some(b) => if !b.hidden && b.blur_type == BlurType::LayerBlur && b.value.positive {
            Some(b.value.text@)
        } else {
            None
        },
        None => None,
    }
}

/// Layer-blur value of a shape, if it has a visible layer blur.
pub fn layer_blur_value(element: &Shape) -> (value: Option<String>)
    ensures
        match value {
            Some(text) => layer_blur(*element) == Some(text@),
            None => layer_blur(*element) is None,
        },
{
    match &element.blur {
        Some(b) => if !b.hidden && b.blur_type == BlurType::LayerBlur && b.value.positive {
            Some(b.value.text.clone())
        } else {
            None
        },
        None => None,
    }
}

} // verus!
