//! What the exporter does with a document, step by step.
use vstd::prelude::*;

use crate::shape::Uuid;

verus! {

/// One drawing on the canvas of a fragment, under the transform of its shape.
#[derive(Clone, Copy, PartialEq, Eq, Structural, Debug)]
pub enum Draw {
    /// The whole page, in opaque white; it is under no shape's transform.
    Page,
    /// The content of a leaf.
    Leaf(Uuid),
    /// The fills of a shape.
    Fills(Uuid),
    /// The visible strokes of a shape.
    Strokes(Uuid),
    /// The geometry of a shape, in opaque black.
    Silhouette(Uuid),
    /// The glyphs of a text, in opaque black.
    Glyphs(Uuid),
    /// The geometry stroked at double width with the paint of a stroke.
    DoubledStroke(Uuid, usize),
    /// The geometry stroked with the dotted paint of a stroke.
    DottedStroke(Uuid, usize),
    /// The geometry stroked with the dots of a stroke, in opaque black.
    DottedRing(Uuid, usize),
    /// The region that a stroke covers, opaque.
    StrokeSilhouette(Uuid, usize),
    /// The image that fills a stroke, over its whole rectangle.
    StrokeImage(Uuid, usize),
    /// A stroke of a text, opaque.
    TextStroke(Uuid, usize),
}

/// What a group is confined by.
#[derive(Clone, Copy, PartialEq, Eq, Structural, Debug)]
pub enum Confinement {
    /// The geometry drawn.
    ClipPath,
    /// What is drawn in white and not in black.
    Mask,
    /// The alpha of what is drawn.
    AlphaMask,
}

/// A step of the export. All but `Draw` and `Close` open a group.
pub enum Op {
    Draw(Draw),
    /// A group with composite effects; `blur` is the deviation of a blur filter.
    Effects { opacity: Option<String>, blend: Option<String>, blur: Option<String> },
    /// A group with a filter, which groups with an equal one share.
    Filter { prefix: &'static str, body: String },
    /// A group confined by drawings of its own, translucent where `opacity` is given.
    Confine {
        kind: Confinement,
        prefix: &'static str,
        draws: Vec<Draw>,
        opacity: Option<String>,
    },
    /// A translucent group.
    Opacity(String),
    /// A group masked by the alpha of what further steps draw.
    AlphaMask(Vec<Op>),
    Close,
}

/// The model of a step.
#[verifier::ext_equal]
pub enum OpView {
    Draw(Draw),
    Effects { opacity: Option<Seq<char>>, blend: Option<Seq<char>>, blur: Option<Seq<char>> },
    Filter { prefix: Seq<char>, body: Seq<char> },
    Confine {
        kind: Confinement,
        prefix: Seq<char>,
        draws: Seq<Draw>,
        opacity: Option<Seq<char>>,
    },
    Opacity(Seq<char>),
    AlphaMask(Seq<OpView>),
    Close,
}

/// The text of an optional string.
pub open spec fn text_view(text: Option<String>) -> Option<Seq<char>> {
    match text {
        Some(s) => Some(s@),
        None => None,
    }
}

impl View for Op {
    type V = OpView;

    open spec fn view(&self) -> OpView
        decreases self,
    {
        match self {
            Op::Draw(draw) => OpView::Draw(*draw),
            Op::Effects { opacity, blend, blur } => OpView::Effects {
                opacity: text_view(*opacity),
                blend: text_view(*blend),
                blur: text_view(*blur),
            },
            Op::Filter { prefix, body } => OpView::Filter { prefix: prefix@, body: body@ },
            Op::Confine { kind, prefix, draws, opacity } => OpView::Confine {
                kind: *kind,
                prefix: prefix@,
                draws: draws@,
                opacity: text_view(*opacity),
            },
            Op::Opacity(opacity) => OpView::Opacity(opacity@),
            Op::AlphaMask(steps) => OpView::AlphaMask(ops_view(steps@)),
            Op::Close => OpView::Close,
        }
    }
}

/// The models of a sequence of steps.
pub open spec fn ops_view(ops: Seq<Op>) -> Seq<OpView>
    decreases ops,
{
    if ops.len() == 0 {
        Seq::empty()
    } else {
        ops_view(ops.drop_last()).push(ops.last().view())
    }
}

pub proof fn lemma_ops_view_push(ops: Seq<Op>, op: Op)
    ensures
        ops_view(ops.push(op)) == ops_view(ops).push(op@),
{
    assert(ops.push(op).drop_last() =~= ops);
}

pub proof fn lemma_ops_view_take(ops: Seq<Op>, i: int)
    requires
        0 <= i < ops.len(),
    ensures
        ops_view(ops.take(i + 1)) == ops_view(ops.take(i)).push(ops[i]@),
{
    assert(ops.take(i + 1).drop_last() =~= ops.take(i));
}

/// The model of an optional step.
pub open spec fn op_view(op: Option<Op>) -> Option<OpView> {
    match op {
        Some(op) => Some(op@),
        None => None,
    }
}

/// An optional step.
pub open spec fn if_any(op: Option<OpView>) -> Seq<OpView> {
    match op {
        Some(op) => seq![op],
        None => Seq::empty(),
    }
}

/// A step that is taken under a condition.
pub open spec fn only_if(condition: bool, op: OpView) -> Seq<OpView> {
    if condition {
        seq![op]
    } else {
        Seq::empty()
    }
}

/// Adds a step.
pub(crate) fn push_op(ops: &mut Vec<Op>, op: Op)
    ensures
        ops_view(final(ops)@) == ops_view(old(ops)@) + seq![op@],
{
    proof {
        lemma_ops_view_push(ops@, op);
        assert(ops_view(ops@).push(op@) =~= ops_view(ops@) + seq![op@]);
    }
    ops.push(op);
}

/// Adds a step if there is one.
pub(crate) fn push_any(ops: &mut Vec<Op>, op: Option<Op>) -> (any: bool)
    ensures
        ops_view(final(ops)@) == ops_view(old(ops)@) + if_any(op_view(op)),
        any == (op is Some),
{
    match op {
        Some(op) => {
            push_op(ops, op);
            true
        },
        None => {
            proof {
                assert(ops_view(ops@) + Seq::<OpView>::empty() =~= ops_view(ops@));
            }
            false
        },
    }
}

/// Adds a step under a condition.
pub(crate) fn push_when(ops: &mut Vec<Op>, condition: bool, op: Op)
    ensures
        ops_view(final(ops)@) == ops_view(old(ops)@) + only_if(condition, op@),
{
    if condition {
        push_op(ops, op);
    } else {
        proof {
            assert(ops_view(ops@) + Seq::<OpView>::empty() =~= ops_view(ops@));
        }
    }
}

} // verus!
