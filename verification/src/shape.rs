//! Shapes, as far as the exporter reads them, and the pool that holds them.
use std::collections::HashMap;
use vstd::prelude::*;

verus! {

/// The id of a shape.
pub type Uuid = u128;

/// A number: how it is written, and how it compares with the two bounds that decide
/// anything.
pub struct Scalar {
    pub text: String,
    pub positive: bool,
    pub below_one: bool,
}

/// A group; a masked one is clipped to the alpha of its mask.
#[derive(Clone, Copy, PartialEq, Eq, Structural, Debug)]
pub struct Group {
    pub masked: bool,
}

/// A run of text in one font.
pub struct TextSpan {
    pub font_family: String,
}

pub struct Paragraph {
    pub children: Vec<TextSpan>,
}

pub struct TextContent {
    pub paragraphs: Vec<Paragraph>,
}

pub enum Type {
    Group(Group),
    Frame,
    Rect,
    Circle,
    Path,
    Bool,
    Text(TextContent),
    SVGRaw,
}

#[derive(Clone, Copy, PartialEq, Eq, Structural, Debug)]
pub enum Fill {
    Solid,
    LinearGradient,
    RadialGradient,
    Image,
}

/// Where a stroke lies with respect to the outline.
#[derive(Clone, Copy, PartialEq, Eq, Structural, Debug)]
pub enum StrokeKind {
    Inner,
    Center,
    Outer,
}

/// Which side of the outline a dotted stroke is restricted to.
#[derive(Clone, Copy, PartialEq, Eq, Structural, Debug)]
pub enum ClipOp {
    Difference,
    Intersect,
}

/// A visible stroke.
pub struct Stroke {
    /// The kind that the stroke renders with on a closed outline.
    pub kind: StrokeKind,
    /// The restriction of a dotted inner or outer stroke.
    pub clip_op: Option<ClipOp>,
    pub fill: Fill,
    /// The opacity of the fill.
    pub opacity: Scalar,
}

#[derive(Clone, Copy, PartialEq, Eq, Structural, Debug)]
pub enum BlendMode {
    Clear,
    Src,
    Dst,
    SrcOver,
    DstOver,
    SrcIn,
    DstIn,
    SrcOut,
    DstOut,
    SrcATop,
    DstATop,
    Xor,
    Plus,
    Modulate,
    Screen,
    Overlay,
    Darken,
    Lighten,
    ColorDodge,
    ColorBurn,
    HardLight,
    SoftLight,
    Difference,
    Exclusion,
    Multiply,
    Hue,
    Saturation,
    Color,
    Luminosity,
}

#[derive(Clone, Copy, PartialEq, Eq, Structural, Debug)]
pub enum BlurType {
    LayerBlur,
    BackgroundBlur,
}

pub struct Blur {
    pub blur_type: BlurType,
    pub hidden: bool,
    /// The radius; it is written as the standard deviation at the export scale.
    pub value: Scalar,
}

/// A color without its alpha.
#[derive(Clone, Copy, PartialEq, Eq, Structural, Debug)]
pub struct Rgb {
    pub r: u8,
    pub g: u8,
    pub b: u8,
}

/// A visible shadow, at the export scale.
pub struct Shadow {
    /// The standard deviation of the blur.
    pub sigma: String,
    pub dx: String,
    pub dy: String,
    pub spread: Scalar,
    pub color: Rgb,
    /// The alpha of the color.
    pub opacity: String,
}

/// A filter region, in percent of the bounds of a shape.
pub struct Region {
    pub x: String,
    pub y: String,
    pub width: String,
    pub height: String,
}

/// A shape.
pub struct Shape {
    pub id: Uuid,
    pub hidden: bool,
    pub shape_type: Type,
    /// All children, in document order.
    pub children: Vec<Uuid>,
    /// The children that are painted, in the order of painting.
    pub paint_order: Vec<Uuid>,
    /// The mask of a masked group.
    pub mask_id: Option<Uuid>,
    pub clip_content: bool,
    /// Whether the outline is an open path.
    pub open: bool,
    pub fills: Vec<Fill>,
    /// The visible strokes.
    pub strokes: Vec<Stroke>,
    pub opacity: Scalar,
    pub blend_mode: BlendMode,
    pub blur: Option<Blur>,
    /// The visible drop shadows.
    pub drop_shadows: Vec<Shadow>,
    /// The region that holds every drop shadow.
    pub drop_region: Region,
    /// The visible inner shadows.
    pub inner_shadows: Vec<Shadow>,
    /// The region that holds every inner shadow.
    pub inner_region: Region,
}

impl Shape {
    pub open spec fn spec_has_fills(&self) -> bool {
        self.fills@.len() > 0
    }

    /// Whether the shape has a fill.
    #[verifier::when_used_as_spec(spec_has_fills)]
    pub fn has_fills(&self) -> (r: bool)
        ensures
            r == self.spec_has_fills(),
    {
        self.fills.len() > 0
    }
}

/// The shapes of a document, by id.
pub struct ShapesPool {
    shapes: HashMap<Uuid, Shape>,
    /// The ids of the shapes, in the order in which they came.
    ids: Vec<Uuid>,
}

impl View for ShapesPool {
    type V = Map<Uuid, Shape>;

    closed spec fn view(&self) -> Map<Uuid, Shape> {
        self.shapes@
    }
}

impl ShapesPool {
    #[verifier::type_invariant]
    spec fn keyed_by_id(self) -> bool {
        &&& forall|id: Uuid| #[trigger] self.shapes@.contains_key(id) ==> self.shapes@[id].id == id
        &&& forall|id: Uuid| #[trigger] self.ids@.contains(id) <==> self.shapes@.contains_key(id)
    }

    /// A pool without shapes.
    pub fn new() -> (pool: ShapesPool)
        ensures
            pool@ == Map::<Uuid, Shape>::empty(),
    {
        broadcast use vstd::std_specs::hash::group_hash_axioms;

        ShapesPool { shapes: HashMap::new(), ids: Vec::new() }
    }

    /// Puts a shape into the pool, in place of one with the same id.
    pub fn insert(&mut self, shape: Shape)
        ensures
            final(self)@ == old(self)@.insert(shape.id, shape),
    {
        broadcast use vstd::std_specs::hash::group_hash_axioms;

        proof {
            use_type_invariant(&*self);
        }
        let mut pool = ShapesPool::new();
        std::mem::swap(&mut pool, self);
        let ShapesPool { mut shapes, mut ids } = pool;
        let id = shape.id;
        if !shapes.contains_key(&id) {
            let ghost before = ids@;
            ids.push(id);
            proof {
                assert forall|k: Uuid| #[trigger] ids@.contains(k) <==> before.contains(k) || k
                    == id by {
                    assert(ids@[before.len() as int] == id);
                    if before.contains(k) {
                        let i = choose|i: int| 0 <= i < before.len() && before[i] == k;
                        assert(ids@[i] == k);
                    }
                }
            }
        }
        shapes.insert(id, shape);
        *self = ShapesPool { shapes, ids };
    }

    /// The shape with the given id.
    pub fn get(&self, id: &Uuid) -> (shape: Option<&Shape>)
        ensures
            match shape {
                Some(s) => self@.contains_key(*id) && *s == self@[*id] && s.id == *id,
                None => !self@.contains_key(*id),
            },
    {
        broadcast use vstd::std_specs::hash::group_hash_axioms;

        proof {
            use_type_invariant(self);
        }
        self.shapes.get(id)
    }

    /// The ids of the shapes.
    pub(crate) fn ids(&self) -> (ids: &Vec<Uuid>)
        ensures
            forall|id: Uuid| #[trigger] ids@.contains(id) <==> self@.contains_key(id),
    {
        proof {
            use_type_invariant(self);
        }
        &self.ids
    }

    pub(crate) proof fn lemma_finite(&self)
        ensures
            self@.dom().finite(),
    {
        broadcast use vstd::std_specs::hash::group_hash_axioms;

    }
}

} // verus!
