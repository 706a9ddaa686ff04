//! Composes SVG documents from short-lived fragments.
//!
//! A vector canvas that writes SVG keeps what is drawn on it, but drops what is drawn
//! inside a layer: opacity, blend modes, blurs, masks and shadows of whole groups. So the
//! document is composed here. Leaf content is drawn on canvases of its own, one for each
//! run of drawings, and the composite effects become native SVG groups around the markup
//! of these fragments.
//!
//! - [`shape`] and [`tree`]: the shapes, and the links between them.
//! - [`render`] and [`strokes`]: the steps that render a shape tree, with their parts in
//!   [`style`], [`filter`] and [`ops`].
//! - [`fragments`]: what the steps draw on which fragment.
//! - [`compose`]: the canvas that runs the steps, over [`body`], [`ids`] and [`text`].
//! - [`document`] and [`fonts`]: the export as a whole.
//! - [`leaves`] and [`containers`]: what each shape shows, over [`placement`] and
//!   [`appearance`].
//! - [`writing`], [`markup`] and [`reading`]: what the canvas writes for each step, which
//!   elements and attributes that is, and what the texts say.
//! - [`renaming`], [`naming`], [`structure`], [`nesting`], [`consistency`] and
//!   [`uniqueness`]: laws of exports, over [`pieces`] and [`clean`]; that no id is defined
//!   twice holds where the fragments define theirs once, and numbers and font rules none.
pub mod appearance;
pub mod body;
pub mod clean;
pub mod compose;
pub mod consistency;
pub mod containers;
pub mod document;
pub mod filter;
pub mod fonts;
pub mod fragments;
pub mod ids;
pub mod leaves;
pub mod markup;
pub mod naming;
pub mod nesting;
pub mod ops;
pub mod pieces;
pub mod placement;
pub mod reading;
pub mod renaming;
pub mod render;
pub mod shape;
pub mod strokes;
pub mod structure;
pub mod style;
pub mod text;
pub mod tree;
pub mod uniqueness;
pub mod writing;
