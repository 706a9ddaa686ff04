//! How the shapes without children look: which drawings they are made of, in which order,
//! and in which groups each stands.
use vstd::prelude::*;
use vstd::string::*;

use crate::appearance::{
    asked_effects, asked_inner_shadow, asked_shadow, clipped_to, css_blend_mode, enclosed_by,
    inside_effects, kept_out_of, lemma_inside_effects, lemma_shadow,
};
use crate::filter::{drop_shadow_body, inner_shadow_body};
use crate::ops::{if_any, only_if, Confinement, Draw, OpView};
use crate::placement::{
    drawings, lemma_any_closing, lemma_any_opening, lemma_behind, lemma_drawing, lemma_framed,
    lemma_framed_twice, lemma_nothing, lemma_within_twice, openings, shows, within, Placed,
};
use crate::render::{leaf_ops, leaf_shadow_group, text_stroke_ops, tree_ops};
use crate::shape::{BlurType, ClipOp, Fill, Shape, StrokeKind, Uuid};
use crate::strokes::{
    concat, dotted_ops, dotted_stroke, effects_group, image_stroke, image_stroke_ops,
    inner_shadow_ops, path_outer_ops, path_outer_stroke, text_alpha_stroke, text_inner_stroke,
    text_outer_stroke,
};
use crate::tree::acyclic;

verus! {

/// A group that shows one side of the outline of a shape: the inside for strokes that are
/// intersected with it, the outside for those that it is taken from.
pub open spec fn side_of(clip_op: ClipOp, id: Uuid) -> OpView {
    match clip_op {
        ClipOp::Intersect => clipped_to("dclip"@, id),
        ClipOp::Difference => kept_out_of("dmask"@, id),
    }
}

/// A group that shows what lies where something is drawn.
pub open spec fn shown_where(prefix: Seq<char>, draw: Draw) -> OpView {
    OpView::Confine {
        kind: Confinement::AlphaMask,
        prefix,
        draws: seq![draw],
        opacity: None,
    }
}

/// The groups around the image of a stroke: they show it where the stroke runs.
pub open spec fn around_image(e: Shape, i: usize) -> Seq<OpView> {
    match e.strokes@[i as int].clip_op {
        None => seq![shown_where("simask"@, Draw::StrokeSilhouette(e.id, i))],
        Some(clip_op) => seq![
            side_of(clip_op, e.id),
            shown_where("dimask"@, Draw::DottedRing(e.id, i)),
        ],
    }
}

/// The groups around a stroke of a text that is drawn by itself, if it is: one that lies
/// on the outline where it is translucent, one inside the glyphs, one outside of them.
pub open spec fn around_text_stroke(e: Shape, i: usize) -> Option<Seq<OpView>> {
    let stroke = e.strokes@[i as int];
    let opacity = if stroke.opacity.below_one {
        Some(stroke.opacity.text@)
    } else {
        None
    };
    match stroke.kind {
        StrokeKind::Center => match opacity {
            Some(opacity) => Some(seq![OpView::Opacity(opacity)]),
            None => None,
        },
        StrokeKind::Inner => Some(
            seq![
                OpView::Confine {
                    kind: Confinement::ClipPath,
                    prefix: "tclip"@,
                    draws: seq![Draw::Glyphs(e.id)],
                    opacity,
                },
            ],
        ),
        StrokeKind::Outer => Some(
            seq![
                OpView::Confine {
                    kind: Confinement::Mask,
                    prefix: "tmask"@,
                    draws: seq![Draw::Page, Draw::Glyphs(e.id)],
                    opacity,
                },
            ],
        ),
    }
}

/// Where a shape without children makes a drawing, inside of the groups around the whole
/// shape; or none where the drawing is not part of it.
pub open spec fn place_in_leaf(e: Shape, images: bool, draw: Draw) -> Option<Seq<OpView>> {
    match draw {
        Draw::Leaf(id) => if id == e.id {
            Some(Seq::empty())
        } else {
            None
        },
        Draw::Glyphs(id) => if id == e.id && e.shape_type is Text && e.inner_shadows@.len() > 0 {
            Some(seq![asked_inner_shadow(e)])
        } else {
            None
        },
        Draw::Silhouette(id) => if id == e.id && !(e.shape_type is Text) && e.fills@.len() > 0
            && e.inner_shadows@.len() > 0 {
            Some(seq![asked_inner_shadow(e)])
        } else {
            None
        },
        Draw::DoubledStroke(id, i) => if id == e.id && (e.shape_type is Path
            || e.shape_type is Bool) && !e.open && i < e.strokes@.len() && e.strokes@[i as int].kind
            == StrokeKind::Outer && e.strokes@[i as int].fill != Fill::Image {
            Some(seq![kept_out_of("smask"@, e.id)])
        } else {
            None
        },
        Draw::DottedStroke(id, i) => if id == e.id && (e.shape_type is Rect
            || e.shape_type is Circle) && i < e.strokes@.len() && e.strokes@[i as int].fill
            != Fill::Image {
            match e.strokes@[i as int].clip_op {
                Some(clip_op) => Some(seq![side_of(clip_op, e.id)]),
                None => None,
            }
        } else {
            None
        },
        Draw::StrokeImage(id, i) => if id == e.id && images && i < e.strokes@.len()
            && e.strokes@[i as int].fill == Fill::Image {
            Some(around_image(e, i))
        } else {
            None
        },
        Draw::TextStroke(id, i) => if id == e.id && e.shape_type is Text && i < e.strokes@.len() {
            around_text_stroke(e, i)
        } else {
            None
        },
        _ => None,
    }
}

/// When a shape without children makes a drawing: the shape itself, then its inner
/// shadows, then the strokes that are drawn by themselves, of one sort after the other.
pub open spec fn turn(e: Shape, draw: Draw) -> int {
    match draw {
        Draw::Leaf(_) => 0,
        Draw::Glyphs(_) => 1,
        Draw::Silhouette(_) => 1,
        Draw::DoubledStroke(..) => 2,
        Draw::DottedStroke(..) => 3,
        Draw::StrokeImage(..) => 4,
        Draw::TextStroke(_, i) => match e.strokes@[i as int].kind {
            StrokeKind::Center => 5,
            StrokeKind::Inner => 6,
            StrokeKind::Outer => 7,
        },
        _ => 8,
    }
}

/// The number of the stroke that is drawn.
pub open spec fn stroke_number(draw: Draw) -> int {
    match draw {
        Draw::DoubledStroke(_, i) => i as int,
        Draw::DottedStroke(_, i) => i as int,
        Draw::StrokeImage(_, i) => i as int,
        Draw::TextStroke(_, i) => i as int,
        _ => 0,
    }
}

/// Whether a shape makes one drawing before another.
pub open spec fn earlier(e: Shape, a: Draw, b: Draw) -> bool {
    turn(e, a) < turn(e, b) || turn(e, a) == turn(e, b) && stroke_number(a) < stroke_number(b)
}

/// The groups around drawings from a depth on, one drawing after the other.
pub open spec fn groups_from(drawn: Seq<Placed>, depth: int) -> Seq<OpView>
    decreases drawn.len(),
{
    if drawn.len() == 0 {
        Seq::empty()
    } else {
        groups_from(drawn.drop_last(), depth) + drawn.last().groups.skip(depth)
    }
}

/// The groups around a whole shape without children.
pub open spec fn around_leaf(e: Shape, render_shadows: bool) -> Seq<OpView> {
    if render_shadows {
        asked_effects(e) + asked_shadow(e, true)
    } else {
        asked_effects(e)
    }
}

/// Steps that make drawings, each in groups of its own.
pub open spec fn plain(ops: Seq<OpView>, l: Seq<Placed>) -> bool {
    shows(ops, Seq::empty(), l, groups_from(l, 0))
}

proof fn lemma_groups_concat(a: Seq<Placed>, b: Seq<Placed>, depth: int)
    ensures
        groups_from(a + b, depth) == groups_from(a, depth) + groups_from(b, depth),
    decreases b.len(),
{
    if b.len() == 0 {
        assert(a + b =~= a);
        assert(groups_from(a, depth) + groups_from(b, depth) =~= groups_from(a, depth));
    } else {
        lemma_groups_concat(a, b.drop_last(), depth);
        assert((a + b).drop_last() =~= a + b.drop_last());
        assert((a + b).last() == b.last());
        let x = b.last().groups.skip(depth);
        assert(groups_from(a, depth) + groups_from(b.drop_last(), depth) + x =~= groups_from(
            a,
            depth,
        ) + (groups_from(b.drop_last(), depth) + x));
    }
}

proof fn lemma_groups_within(g: Seq<OpView>, l: Seq<Placed>)
    ensures
        groups_from(within(g, l), g.len() as int) == groups_from(l, 0),
    decreases l.len(),
{
    if l.len() > 0 {
        lemma_groups_within(g, l.drop_last());
        assert(within(g, l).drop_last() =~= within(g, l.drop_last()));
        let p = l.last();
        assert(within(g, l).last().groups == g + p.groups);
        assert((g + p.groups).skip(g.len() as int) =~= p.groups);
        assert(p.groups.skip(0) =~= p.groups);
    }
}

proof fn lemma_plain_nothing()
    ensures
        plain(Seq::empty(), Seq::empty()),
{
    lemma_nothing();
}

proof fn lemma_plain_behind(a: Seq<OpView>, l: Seq<Placed>, b: Seq<OpView>, m: Seq<Placed>)
    requires
        plain(a, l),
        plain(b, m),
    ensures
        plain(a + b, l + m),
{
    lemma_groups_concat(l, m, 0);
    lemma_behind(a, Seq::empty(), l, groups_from(l, 0), b, m, groups_from(m, 0));
    lemma_within_twice(Seq::empty(), Seq::empty(), m);
}

proof fn lemma_plain_one(p: Placed)
    ensures
        groups_from(seq![p], 0) == p.groups,
{
    let s = seq![p];
    assert(s.drop_last() =~= Seq::empty());
    assert(groups_from(s.drop_last(), 0) == Seq::<OpView>::empty());
    assert(p.groups.skip(0) =~= p.groups);
    assert(Seq::<OpView>::empty() + p.groups =~= p.groups);
}

pub proof fn lemma_plain_framed(op: OpView, draw: Draw)
    requires
        !(op is Draw || op is Close),
    ensures
        plain(
            seq![op, OpView::Draw(draw), OpView::Close],
            seq![Placed { draw, groups: seq![op] }],
        ),
{
    lemma_framed(op, draw);
    lemma_plain_one(Placed { draw, groups: seq![op] });
}

/// A drawing that may be there.
pub open spec fn listed(p: Option<Placed>) -> Seq<Placed> {
    match p {
        Some(p) => seq![p],
        None => Seq::empty(),
    }
}

/// The drawings that a pass over `n` strokes makes.
pub open spec fn picked(n: nat, g: spec_fn(int) -> Option<Placed>) -> Seq<Placed>
    decreases n,
{
    if n == 0 {
        Seq::empty()
    } else {
        picked((n - 1) as nat, g) + listed(g(n - 1))
    }
}

proof fn lemma_pass(
    n: nat,
    f: spec_fn(int) -> Seq<OpView>,
    g: spec_fn(int) -> Option<Placed>,
)
    requires
        forall|i: int| 0 <= i < n ==> plain(#[trigger] f(i), listed(g(i))),
    ensures
        plain(concat(n, f), picked(n, g)),
    decreases n,
{
    if n == 0 {
        lemma_plain_nothing();
    } else {
        let k = (n - 1) as nat;
        lemma_pass(k, f, g);
        assert(plain(f(n - 1), listed(g(n - 1))));
        lemma_plain_behind(concat(k, f), picked(k, g), f(n - 1), listed(g(n - 1)));
    }
}

proof fn lemma_none_picked(n: nat, g: spec_fn(int) -> Option<Placed>)
    requires
        forall|i: int| 0 <= i < n ==> #[trigger] g(i) is None,
    ensures
        picked(n, g) == Seq::<Placed>::empty(),
    decreases n,
{
    if n > 0 {
        lemma_none_picked((n - 1) as nat, g);
        assert(g(n - 1) is None);
    }
}

/// A drawing of a shape, where it is part of it, with the groups around it.
pub open spec fn at(e: Shape, images: bool, draw: Draw) -> Option<Placed> {
    match place_in_leaf(e, images, draw) {
        Some(groups) => Some(Placed { draw, groups }),
        None => None,
    }
}

spec fn text_at(e: Shape, i: int, kind: StrokeKind) -> Option<Placed> {
    if e.strokes@[i].kind == kind {
        at(e, false, Draw::TextStroke(e.id, i as usize))
    } else {
        None
    }
}

spec fn outer_list(e: Shape) -> Seq<Placed> {
    picked(e.strokes@.len(), |i: int| at(e, false, Draw::DoubledStroke(e.id, i as usize)))
}

spec fn dotted_list(e: Shape) -> Seq<Placed> {
    picked(e.strokes@.len(), |i: int| at(e, false, Draw::DottedStroke(e.id, i as usize)))
}

/// The images of the strokes of a shape.
pub open spec fn stroke_images(e: Shape, images: bool) -> Seq<Placed> {
    picked(e.strokes@.len(), |i: int| at(e, images, Draw::StrokeImage(e.id, i as usize)))
}

spec fn text_list(e: Shape, kind: StrokeKind) -> Seq<Placed> {
    picked(e.strokes@.len(), |i: int| text_at(e, i, kind))
}

spec fn inner_list(e: Shape) -> Seq<Placed> {
    if e.shape_type is Text {
        listed(at(e, false, Draw::Glyphs(e.id)))
    } else {
        listed(at(e, false, Draw::Silhouette(e.id)))
    }
}

proof fn lemma_inner(e: Shape)
    ensures
        plain(inner_shadow_ops(e), inner_list(e)),
{
    lemma_plain_nothing();
    lemma_plain_framed(asked_inner_shadow(e), Draw::Glyphs(e.id));
    lemma_plain_framed(asked_inner_shadow(e), Draw::Silhouette(e.id));
}

proof fn lemma_outer(e: Shape)
    ensures
        plain(path_outer_ops(e), outer_list(e)),
{
    let n = e.strokes@.len();
    let f = |i: int| path_outer_stroke(e, i);
    let g = |i: int| at(e, false, Draw::DoubledStroke(e.id, i as usize));
    assert(n == e.strokes.len());
    lemma_plain_nothing();
    if (e.shape_type is Path || e.shape_type is Bool) && !e.open {
        assert forall|i: int| 0 <= i < n implies plain(#[trigger] f(i), listed(g(i))) by {
            lemma_plain_framed(kept_out_of("smask"@, e.id), Draw::DoubledStroke(e.id, i as usize));
        }
        lemma_pass(n, f, g);
    } else {
        lemma_none_picked(n, g);
    }
}

proof fn lemma_dotted(e: Shape)
    ensures
        plain(dotted_ops(e), dotted_list(e)),
{
    let n = e.strokes@.len();
    let f = |i: int| dotted_stroke(e, i);
    let g = |i: int| at(e, false, Draw::DottedStroke(e.id, i as usize));
    assert(n == e.strokes.len());
    lemma_plain_nothing();
    if e.shape_type is Rect || e.shape_type is Circle {
        assert forall|i: int| 0 <= i < n implies plain(#[trigger] f(i), listed(g(i))) by {
            if let Some(clip_op) = e.strokes@[i].clip_op {
                lemma_plain_framed(side_of(clip_op, e.id), Draw::DottedStroke(e.id, i as usize));
            }
        }
        lemma_pass(n, f, g);
    } else {
        lemma_none_picked(n, g);
    }
}

pub proof fn lemma_images(e: Shape, images: bool)
    ensures
        plain(image_stroke_ops(e, images), stroke_images(e, images)),
{
    let n = e.strokes@.len();
    let f = |i: int| image_stroke(e, i);
    let g = |i: int| at(e, images, Draw::StrokeImage(e.id, i as usize));
    assert(n == e.strokes.len());
    lemma_plain_nothing();
    if images {
        assert forall|i: int| 0 <= i < n implies plain(#[trigger] f(i), listed(g(i))) by {
            let draw = Draw::StrokeImage(e.id, i as usize);
            let groups = around_image(e, i as usize);
            match e.strokes@[i].clip_op {
                Some(clip_op) => {
                    lemma_framed_twice(groups[0], groups[1], draw);
                    assert(groups =~= seq![groups[0], groups[1]]);
                    lemma_plain_one(Placed { draw, groups });
                },
                None => {
                    lemma_plain_framed(groups[0], draw);
                    assert(groups =~= seq![groups[0]]);
                },
            }
        }
        lemma_pass(n, f, g);
    } else {
        lemma_none_picked(n, g);
    }
}

proof fn lemma_texts(e: Shape)
    ensures
        plain(
            text_stroke_ops(e),
            text_list(e, StrokeKind::Center) + text_list(e, StrokeKind::Inner) + text_list(
                e,
                StrokeKind::Outer,
            ),
        ),
{
    let n = e.strokes@.len();
    let fc = |i: int| text_alpha_stroke(e, i);
    let fi = |i: int| text_inner_stroke(e, i);
    let fo = |i: int| text_outer_stroke(e, i);
    let gc = |i: int| text_at(e, i, StrokeKind::Center);
    let gi = |i: int| text_at(e, i, StrokeKind::Inner);
    let go = |i: int| text_at(e, i, StrokeKind::Outer);
    assert(n == e.strokes.len());
    lemma_plain_nothing();
    if e.shape_type is Text {
        assert forall|i: int| 0 <= i < n implies plain(#[trigger] fc(i), listed(gc(i))) by {
            if let Some(groups) = around_text_stroke(e, i as usize) {
                lemma_plain_framed(groups[0], Draw::TextStroke(e.id, i as usize));
            }
        }
        assert forall|i: int| 0 <= i < n implies plain(#[trigger] fi(i), listed(gi(i))) by {
            if let Some(groups) = around_text_stroke(e, i as usize) {
                lemma_plain_framed(groups[0], Draw::TextStroke(e.id, i as usize));
            }
        }
        assert forall|i: int| 0 <= i < n implies plain(#[trigger] fo(i), listed(go(i))) by {
            if let Some(groups) = around_text_stroke(e, i as usize) {
                lemma_plain_framed(groups[0], Draw::TextStroke(e.id, i as usize));
            }
        }
        lemma_pass(n, fc, gc);
        lemma_pass(n, fi, gi);
        lemma_pass(n, fo, go);
        lemma_plain_behind(concat(n, fc), picked(n, gc), concat(n, fi), picked(n, gi));
        lemma_plain_behind(
            concat(n, fc) + concat(n, fi),
            picked(n, gc) + picked(n, gi),
            concat(n, fo),
            picked(n, go),
        );
    } else {
        lemma_none_picked(n, gc);
        lemma_none_picked(n, gi);
        lemma_none_picked(n, go);
        let none = Seq::<Placed>::empty();
        assert(none + none + none =~= none);
    }
}

// Whether drawings are those of a shape that come at one turn, in order.
#[verifier::opaque]
spec fn of_turn(e: Shape, images: bool, l: Seq<Placed>, t: int) -> bool {
    &&& forall|k: int|
        0 <= k < l.len() ==> at(e, images, (#[trigger] l[k]).draw) == Some(l[k]) && turn(
            e,
            l[k].draw,
        ) == t
    &&& forall|draw: Draw|
        turn(e, draw) == t && #[trigger] place_in_leaf(e, images, draw) is Some ==> l.contains(
            Placed { draw, groups: place_in_leaf(e, images, draw)->0 },
        )
    &&& forall|j: int, k: int|
        0 <= j < k < l.len() ==> stroke_number((#[trigger] l[j]).draw) < stroke_number(
            (#[trigger] l[k]).draw,
        )
}

// Whether drawings are those of a shape that come up to a turn, in order.
#[verifier::opaque]
spec fn up_to_turn(e: Shape, images: bool, l: Seq<Placed>, t: int) -> bool {
    &&& forall|k: int|
        0 <= k < l.len() ==> at(e, images, (#[trigger] l[k]).draw) == Some(l[k]) && turn(
            e,
            l[k].draw,
        ) <= t
    &&& forall|draw: Draw|
        turn(e, draw) <= t && #[trigger] place_in_leaf(e, images, draw) is Some ==> l.contains(
            Placed { draw, groups: place_in_leaf(e, images, draw)->0 },
        )
    &&& forall|j: int, k: int|
        0 <= j < k < l.len() ==> earlier(e, (#[trigger] l[j]).draw, (#[trigger] l[k]).draw)
}

proof fn lemma_next_turn(e: Shape, images: bool, l: Seq<Placed>, m: Seq<Placed>, t: int)
    requires
        up_to_turn(e, images, l, t - 1),
        of_turn(e, images, m, t),
    ensures
        up_to_turn(e, images, l + m, t),
{
    reveal(of_turn);
    reveal(up_to_turn);
    let all = l + m;
    assert forall|draw: Draw|
        turn(e, draw) <= t && #[trigger] place_in_leaf(
            e,
            images,
            draw,
        ) is Some implies all.contains(
        Placed { draw, groups: place_in_leaf(e, images, draw)->0 },
    ) by {
        let p = Placed { draw, groups: place_in_leaf(e, images, draw)->0 };
        if turn(e, draw) == t {
            assert(m.contains(p));
            let k = choose|k: int| 0 <= k < m.len() && m[k] == p;
            assert(all[l.len() + k] == p);
        } else {
            assert(l.contains(p));
            let k = choose|k: int| 0 <= k < l.len() && l[k] == p;
            assert(all[k] == p);
        }
    }
    assert forall|j: int, k: int| 0 <= j < k < all.len() implies earlier(
        e,
        (#[trigger] all[j]).draw,
        (#[trigger] all[k]).draw,
    ) by {
        if k < l.len() {
            assert(all[j] == l[j] && all[k] == l[k]);
        } else if j < l.len() {
            assert(all[j] == l[j] && all[k] == m[k - l.len()]);
        } else {
            assert(all[j] == m[j - l.len()] && all[k] == m[k - l.len()]);
        }
    }
}

// What a pass makes: what it makes of each stroke, in the order of the strokes.
proof fn lemma_picked(n: nat, g: spec_fn(int) -> Option<Placed>)
    requires
        forall|i: int|
            0 <= i < n ==> (#[trigger] g(i) matches Some(p) ==> stroke_number(p.draw) == i),
    ensures
        forall|k: int|
            0 <= k < picked(n, g).len() ==> {
                let i = stroke_number((#[trigger] picked(n, g)[k]).draw);
                0 <= i < n && g(i) == Some(picked(n, g)[k])
            },
        forall|i: int|
            0 <= i < n ==> (#[trigger] g(i) matches Some(p) ==> picked(n, g).contains(p)),
        forall|j: int, k: int|
            0 <= j < k < picked(n, g).len() ==> stroke_number((#[trigger] picked(n, g)[j]).draw)
                < stroke_number((#[trigger] picked(n, g)[k]).draw),
    decreases n,
{
    if n > 0 {
        let m = (n - 1) as nat;
        lemma_picked(m, g);
        let l = picked(m, g);
        let all = picked(n, g);
        assert(all == l + listed(g(n - 1)));
        assert forall|k: int| 0 <= k < all.len() implies {
            let i = stroke_number((#[trigger] all[k]).draw);
            0 <= i < n && g(i) == Some(all[k])
        } by {
            if k < l.len() {
                assert(all[k] == l[k]);
            } else {
                assert(g(n - 1) == Some(all[k]));
            }
        }
        assert forall|i: int| 0 <= i < n implies (#[trigger] g(i) matches Some(p) ==> all.contains(
            p,
        )) by {
            if let Some(p) = g(i) {
                if i < m {
                    assert(l.contains(p));
                    let k = choose|k: int| 0 <= k < l.len() && l[k] == p;
                    assert(all[k] == p);
                } else {
                    assert(all[l.len() as int] == p);
                }
            }
        }
        assert forall|j: int, k: int| 0 <= j < k < all.len() implies stroke_number(
            (#[trigger] all[j]).draw,
        ) < stroke_number((#[trigger] all[k]).draw) by {
            assert(all[j] == l[j]);
            if k < l.len() {
                assert(all[k] == l[k]);
            } else {
                assert(g(n - 1) == Some(all[k]));
            }
        }
    }
}

proof fn lemma_pass_turn(
    e: Shape,
    images: bool,
    t: int,
    n: nat,
    g: spec_fn(int) -> Option<Placed>,
)
    requires
        forall|i: int|
            0 <= i < n ==> (#[trigger] g(i) matches Some(p) ==> stroke_number(p.draw) == i && turn(
                e,
                p.draw,
            ) == t && at(e, images, p.draw) == Some(p)),
        forall|draw: Draw|
            turn(e, draw) == t && #[trigger] place_in_leaf(e, images, draw) is Some ==> 0
                <= stroke_number(draw) < n && g(stroke_number(draw)) == at(e, images, draw),
    ensures
        of_turn(e, images, picked(n, g), t),
{
    reveal(of_turn);
    lemma_picked(n, g);
    let l = picked(n, g);
    assert forall|k: int| 0 <= k < l.len() implies at(e, images, (#[trigger] l[k]).draw) == Some(
        l[k],
    ) && turn(e, l[k].draw) == t by {
        let i = stroke_number(l[k].draw);
        assert(g(i) == Some(l[k]));
    }
}

proof fn lemma_image_turn(e: Shape, images: bool)
    ensures
        of_turn(e, images, stroke_images(e, images), 4),
{
    let n = e.strokes@.len();
    assert(n == e.strokes.len());
    lemma_pass_turn(
        e,
        images,
        4,
        n,
        |i: int| at(e, images, Draw::StrokeImage(e.id, i as usize)),
    );
}

spec fn leaf_list(e: Shape, images: bool) -> Seq<Placed> {
    listed(at(e, images, Draw::Leaf(e.id))) + inner_list(e) + outer_list(e) + dotted_list(e)
        + stroke_images(e, images) + text_list(e, StrokeKind::Center) + text_list(
        e,
        StrokeKind::Inner,
    ) + text_list(e, StrokeKind::Outer)
}

proof fn lemma_first_turn(e: Shape, images: bool)
    ensures
        up_to_turn(e, images, listed(at(e, images, Draw::Leaf(e.id))), 0),
{
    reveal(up_to_turn);
    let l = listed(at(e, images, Draw::Leaf(e.id)));
    let p = Placed { draw: Draw::Leaf(e.id), groups: Seq::empty() };
    assert(l == seq![p]);
    assert(l[0] == p);
}

proof fn lemma_inner_turn(e: Shape, images: bool)
    ensures
        of_turn(e, images, inner_list(e), 1),
{
    reveal(of_turn);
    let m = inner_list(e);
    assert(m.len() > 0 ==> m.contains(m[0]));
}

proof fn lemma_outer_turn(e: Shape, images: bool)
    ensures
        of_turn(e, images, outer_list(e), 2),
{
    let n = e.strokes@.len();
    assert(n == e.strokes.len());
    lemma_pass_turn(
        e,
        images,
        2,
        n,
        |i: int| at(e, false, Draw::DoubledStroke(e.id, i as usize)),
    );
}

proof fn lemma_dotted_turn(e: Shape, images: bool)
    ensures
        of_turn(e, images, dotted_list(e), 3),
{
    let n = e.strokes@.len();
    assert(n == e.strokes.len());
    lemma_pass_turn(
        e,
        images,
        3,
        n,
        |i: int| at(e, false, Draw::DottedStroke(e.id, i as usize)),
    );
}

proof fn lemma_text_turn(e: Shape, images: bool, kind: StrokeKind)
    ensures
        of_turn(
            e,
            images,
            text_list(e, kind),
            match kind {
                StrokeKind::Center => 5,
                StrokeKind::Inner => 6,
                StrokeKind::Outer => 7,
            },
        ),
{
    let n = e.strokes@.len();
    assert(n == e.strokes.len());
    let t = match kind {
        StrokeKind::Center => 5int,
        StrokeKind::Inner => 6int,
        StrokeKind::Outer => 7int,
    };
    lemma_pass_turn(e, images, t, n, |i: int| text_at(e, i, kind));
}

// No drawing of a shape comes later than the strokes of its text.
proof fn lemma_last_turn(e: Shape, images: bool, l: Seq<Placed>)
    requires
        up_to_turn(e, images, l, 7),
    ensures
        up_to_turn(e, images, l, 8),
{
    reveal(up_to_turn);
    assert forall|draw: Draw|
        turn(e, draw) <= 8 && #[trigger] place_in_leaf(
            e,
            images,
            draw,
        ) is Some implies turn(e, draw) <= 7 by {}
}

proof fn lemma_leaf_turns(e: Shape, images: bool)
    ensures
        up_to_turn(e, images, leaf_list(e, images), 8),
{
    let l = listed(at(e, images, Draw::Leaf(e.id)));
    lemma_first_turn(e, images);
    lemma_inner_turn(e, images);
    lemma_next_turn(e, images, l, inner_list(e), 1);
    let l = l + inner_list(e);
    lemma_outer_turn(e, images);
    lemma_next_turn(e, images, l, outer_list(e), 2);
    let l = l + outer_list(e);
    lemma_dotted_turn(e, images);
    lemma_next_turn(e, images, l, dotted_list(e), 3);
    let l = l + dotted_list(e);
    lemma_image_turn(e, images);
    lemma_next_turn(e, images, l, stroke_images(e, images), 4);
    let l = l + stroke_images(e, images);
    lemma_text_turn(e, images, StrokeKind::Center);
    lemma_next_turn(e, images, l, text_list(e, StrokeKind::Center), 5);
    let l = l + text_list(e, StrokeKind::Center);
    lemma_text_turn(e, images, StrokeKind::Inner);
    lemma_next_turn(e, images, l, text_list(e, StrokeKind::Inner), 6);
    let l = l + text_list(e, StrokeKind::Inner);
    lemma_text_turn(e, images, StrokeKind::Outer);
    lemma_next_turn(e, images, l, text_list(e, StrokeKind::Outer), 7);
    lemma_last_turn(e, images, leaf_list(e, images));
}

spec fn leaf_body(e: Shape, images: bool) -> Seq<OpView> {
    seq![OpView::Draw(Draw::Leaf(e.id))] + inner_shadow_ops(e) + path_outer_ops(e) + dotted_ops(e)
        + image_stroke_ops(e, images) + text_stroke_ops(e)
}

proof fn lemma_leaf_body(e: Shape, images: bool)
    ensures
        plain(leaf_body(e, images), leaf_list(e, images)),
{
    let none = Seq::<OpView>::empty();
    let blank = Seq::<Placed>::empty();
    let draw = Draw::Leaf(e.id);
    let p = Placed { draw, groups: none };
    lemma_nothing();
    lemma_drawing(none, none, blank, none, draw);
    assert(none + seq![OpView::Draw(draw)] =~= seq![OpView::Draw(draw)]);
    assert(blank.push(p) =~= seq![p]);
    lemma_plain_one(p);
    let a = seq![OpView::Draw(draw)];
    let l = listed(at(e, images, draw));
    lemma_inner(e);
    lemma_plain_behind(a, l, inner_shadow_ops(e), inner_list(e));
    let a = a + inner_shadow_ops(e);
    let l = l + inner_list(e);
    lemma_outer(e);
    lemma_plain_behind(a, l, path_outer_ops(e), outer_list(e));
    let a = a + path_outer_ops(e);
    let l = l + outer_list(e);
    lemma_dotted(e);
    lemma_plain_behind(a, l, dotted_ops(e), dotted_list(e));
    let a = a + dotted_ops(e);
    let l = l + dotted_list(e);
    lemma_images(e, images);
    lemma_plain_behind(a, l, image_stroke_ops(e, images), stroke_images(e, images));
    let a = a + image_stroke_ops(e, images);
    let l = l + stroke_images(e, images);
    lemma_texts(e);
    let c = text_list(e, StrokeKind::Center);
    let i = text_list(e, StrokeKind::Inner);
    let o = text_list(e, StrokeKind::Outer);
    lemma_plain_behind(a, l, text_stroke_ops(e), c + i + o);
    assert(l + (c + i + o) =~= l + c + i + o);
}

proof fn lemma_leaf_regrouped(
    first: Seq<OpView>,
    second: Seq<OpView>,
    a: Seq<OpView>,
    b: Seq<OpView>,
    c: Seq<OpView>,
    d: Seq<OpView>,
    e: Seq<OpView>,
    f: Seq<OpView>,
    third: Seq<OpView>,
    fourth: Seq<OpView>,
)
    ensures
        first + second + a + b + c + d + e + f + third + fourth == first + (second + (a + b + c + d
            + e + f) + third) + fourth,
{
    assert(second + (a + b + c + d + e + f) =~= second + a + b + c + d + e + f);
    assert(first + (second + a + b + c + d + e + f + third) =~= first + second + a + b + c + d + e
        + f + third);
}

spec fn leaf_rest(e: Shape, images: bool, shadows: bool) -> Seq<OpView> {
    let shadow = leaf_shadow_group(e, shadows);
    if_any(shadow) + leaf_body(e, images) + only_if(shadow is Some, OpView::Close)
}

spec fn leaf_shadow(e: Shape, shadows: bool) -> Seq<OpView> {
    if shadows {
        asked_shadow(e, true)
    } else {
        Seq::empty()
    }
}

// The steps of a shape without children, inside of the group for its effects.
#[verifier::spinoff_prover]
proof fn lemma_leaf_rest(e: Shape, images: bool, shadows: bool)
    ensures
        inside_effects(leaf_ops(e, images, shadows), e, leaf_rest(e, images, shadows)),
        shows(
            leaf_rest(e, images, shadows),
            Seq::empty(),
            within(leaf_shadow(e, shadows), leaf_list(e, images)),
            leaf_shadow(e, shadows) + groups_from(leaf_list(e, images), 0),
        ),
{
    let none = Seq::<OpView>::empty();
    let blank = Seq::<Placed>::empty();
    let effects = effects_group(e);
    let shadow = leaf_shadow_group(e, shadows);
    let g = leaf_shadow(e, shadows);
    let l = leaf_list(e, images);
    let o = groups_from(l, 0);
    lemma_shadow(e, true);
    assert(if_any(shadow) =~= g);
    lemma_nothing();
    lemma_any_opening(none, none, blank, none, shadow);
    assert(none + g =~= g);
    lemma_leaf_body(e, images);
    lemma_behind(g, g, blank, g, leaf_body(e, images), l, o);
    lemma_any_closing(g + leaf_body(e, images), none, shadow, blank + within(g, l), g + o);
    assert(blank + within(g, l) =~= within(g, l));
    lemma_leaf_regrouped(
        if_any(effects),
        if_any(shadow),
        seq![OpView::Draw(Draw::Leaf(e.id))],
        inner_shadow_ops(e),
        path_outer_ops(e),
        dotted_ops(e),
        image_stroke_ops(e, images),
        text_stroke_ops(e),
        only_if(shadow is Some, OpView::Close),
        only_if(effects is Some, OpView::Close),
    );
}

/// They stand in the group for its effects.
pub proof fn leaf_is_inside_effects(e: Shape, images: bool, shadows: bool)
    ensures
        asked_effects(e).len() > 0 ==> enclosed_by(
            leaf_ops(e, images, shadows),
            asked_effects(e)[0],
        ),
{
    let l = leaf_list(e, images);
    let s = leaf_shadow(e, shadows);
    lemma_leaf_rest(e, images, shadows);
    lemma_inside_effects(
        leaf_ops(e, images, shadows),
        e,
        leaf_rest(e, images, shadows),
        within(s, l),
        s + groups_from(l, 0),
    );
}

#[verifier::spinoff_prover]
proof fn lemma_leaf_parts(
    pool: Map<Uuid, Shape>,
    id: Uuid,
    images: bool,
    render_shadows: bool,
)
    requires
        acyclic(pool, id),
        pool.contains_key(id),
        !pool[id].hidden,
        !(pool[id].shape_type is Group || pool[id].shape_type is Frame),
    ensures
        ({
            let e = pool[id];
            let ops = tree_ops(pool, id, images, render_shadows);
            let drawn = drawings(ops);
            let around = around_leaf(e, render_shadows);
            &&& forall|draw: Draw, groups: Seq<OpView>| #[trigger]
                drawn.contains(Placed { draw, groups }) <==> (place_in_leaf(
                    e,
                    images,
                    draw,
                ) matches Some(inner) && groups == around + inner)
            &&& forall|j: int, k: int|
                0 <= j < k < drawn.len() ==> earlier(
                    e,
                    (#[trigger] drawn[j]).draw,
                    (#[trigger] drawn[k]).draw,
                )
            &&& openings(ops) == around + groups_from(drawn, around.len() as int)
        }),
{
    let e = pool[id];
    let ops = tree_ops(pool, id, images, render_shadows);
    let drawn = drawings(ops);
    let around = around_leaf(e, render_shadows);
    let l = leaf_list(e, images);
    let s = leaf_shadow(e, render_shadows);
    let o = groups_from(l, 0);
    assert(ops == leaf_ops(e, images, render_shadows));
    lemma_leaf_rest(e, images, render_shadows);
    lemma_inside_effects(ops, e, leaf_rest(e, images, render_shadows), within(s, l), s + o);
    lemma_within_twice(asked_effects(e), s, l);
    assert(asked_effects(e) + s =~= around);
    assert(drawn == within(around, l));
    lemma_groups_within(around, l);
    assert(asked_effects(e) + (s + o) =~= around + o);
    lemma_leaf_turns(e, images);
    reveal(up_to_turn);
    assert forall|k: int| 0 <= k < drawn.len() implies (#[trigger] drawn[k]) == (Placed {
        draw: l[k].draw,
        groups: around + l[k].groups,
    }) && at(e, images, l[k].draw) == Some(l[k]) by {}
    assert forall|draw: Draw, groups: Seq<OpView>| #[trigger]
        drawn.contains(Placed { draw, groups }) <==> (place_in_leaf(
            e,
            images,
            draw,
        ) matches Some(inner) && groups == around + inner) by {
        if drawn.contains(Placed { draw, groups }) {
            let k = choose|k: int| 0 <= k < drawn.len() && drawn[k] == (Placed { draw, groups });
            assert(l[k].draw == draw);
        }
        if let Some(inner) = place_in_leaf(e, images, draw) {
            if groups == around + inner {
                assert(turn(e, draw) <= 8);
                assert(l.contains(Placed { draw, groups: inner }));
                let k = choose|k: int|
                    0 <= k < l.len() && l[k] == (Placed { draw, groups: inner });
                assert(drawn[k] == (Placed { draw, groups }));
            }
        }
    }
    assert forall|j: int, k: int| 0 <= j < k < drawn.len() implies earlier(
        e,
        (#[trigger] drawn[j]).draw,
        (#[trigger] drawn[k]).draw,
    ) by {
        assert(drawn[j].draw == l[j].draw);
        assert(drawn[k].draw == l[k].draw);
    }
}

/// What a visible shape without children shows, in groups for its effects and, where
/// shadows are rendered, its drop shadows:
///
/// - the shape itself;
/// - its inner shadows, cast into its glyphs or, where it has fills, into its geometry;
/// - of a closed path, each outer stroke without an image, outside of the path;
/// - of a rectangle or a circle, each stroke that keeps to one side of the outline and has
///   no image, on that side;
/// - where there is an image store, the image of each stroke that has one, where the
///   stroke runs;
/// - of a text, each translucent stroke on the outline, each inner stroke, inside of the
///   glyphs, and each outer one, outside of them;
///
/// and nothing else.
#[verifier::spinoff_prover]
pub proof fn leaf_shows_its_parts(
    pool: Map<Uuid, Shape>,
    id: Uuid,
    images: bool,
    render_shadows: bool,
    draw: Draw,
    groups: Seq<OpView>,
)
    requires
        acyclic(pool, id),
        pool.contains_key(id),
        !pool[id].hidden,
        !(pool[id].shape_type is Group || pool[id].shape_type is Frame),
    ensures
        ({
            let e = pool[id];
            let n = e.strokes@.len();
            let opacity = if e.opacity.below_one {
                Some(e.opacity.text@)
            } else {
                None
            };
            let blend = css_blend_mode(e.blend_mode);
            let blur = match e.blur {
                Some(b) => if b.blur_type == BlurType::LayerBlur && !b.hidden && b.value.positive {
                    Some(b.value.text@)
                } else {
                    None
                },
                None => None,
            };
            let effects = if opacity is Some || blend is Some || blur is Some {
                seq![OpView::Effects { opacity, blend, blur }]
            } else {
                Seq::empty()
            };
            let shadow = if render_shadows && e.drop_shadows@.len() > 0 {
                seq![
                    OpView::Filter {
                        prefix: "shadow"@,
                        body: drop_shadow_body(e.drop_shadows@, e.drop_region, true),
                    },
                ]
            } else {
                Seq::empty()
            };
            let inner_shadow = OpView::Filter {
                prefix: "inshadow"@,
                body: inner_shadow_body(e.inner_shadows@, e.inner_region),
            };
            let inside = |prefix: Seq<char>, draw: Draw, opacity: Option<Seq<char>>|
                OpView::Confine {
                    kind: Confinement::ClipPath,
                    prefix,
                    draws: seq![draw],
                    opacity,
                };
            let outside = |prefix: Seq<char>, draw: Draw, opacity: Option<Seq<char>>|
                OpView::Confine {
                    kind: Confinement::Mask,
                    prefix,
                    draws: seq![Draw::Page, draw],
                    opacity,
                };
            let upon = |prefix: Seq<char>, draw: Draw|
                OpView::Confine {
                    kind: Confinement::AlphaMask,
                    prefix,
                    draws: seq![draw],
                    opacity: None,
                };
            let side = |clip_op: ClipOp|
                (match clip_op {
                    ClipOp::Intersect => inside("dclip"@, Draw::Silhouette(e.id), None),
                    ClipOp::Difference => outside("dmask"@, Draw::Silhouette(e.id), None),
                });
            let place = (match draw {
                    Draw::Leaf(id) => if id == e.id {
                        Some(Seq::<OpView>::empty())
                    } else {
                        None
                    },
                    Draw::Glyphs(id) => if id == e.id && e.shape_type is Text
                        && e.inner_shadows@.len() > 0 {
                        Some(seq![inner_shadow])
                    } else {
                        None
                    },
                    Draw::Silhouette(id) => if id == e.id && !(e.shape_type is Text)
                        && e.fills@.len() > 0 && e.inner_shadows@.len() > 0 {
                        Some(seq![inner_shadow])
                    } else {
                        None
                    },
                    Draw::DoubledStroke(id, i) => if id == e.id && i < n && (
                    e.shape_type is Path || e.shape_type is Bool) && !e.open
                        && e.strokes@[i as int].kind == StrokeKind::Outer
                        && e.strokes@[i as int].fill != Fill::Image {
                        Some(seq![outside("smask"@, Draw::Silhouette(e.id), None)])
                    } else {
                        None
                    },
                    Draw::DottedStroke(id, i) => if id == e.id && i < n && (
                    e.shape_type is Rect || e.shape_type is Circle)
                        && e.strokes@[i as int].clip_op is Some && e.strokes@[i as int].fill
                        != Fill::Image {
                        Some(seq![side(e.strokes@[i as int].clip_op->0)])
                    } else {
                        None
                    },
                    Draw::StrokeImage(id, i) => if id == e.id && i < n && images
                        && e.strokes@[i as int].fill == Fill::Image {
                        match e.strokes@[i as int].clip_op {
                            None => Some(seq![upon("simask"@, Draw::StrokeSilhouette(e.id, i))]),
                            Some(clip_op) => Some(
                                seq![side(clip_op), upon("dimask"@, Draw::DottedRing(e.id, i))],
                            ),
                        }
                    } else {
                        None
                    },
                    Draw::TextStroke(id, i) => if id == e.id && i < n && e.shape_type is Text {
                        let stroke = e.strokes@[i as int];
                        let opacity = if stroke.opacity.below_one {
                            Some(stroke.opacity.text@)
                        } else {
                            None
                        };
                        match stroke.kind {
                            StrokeKind::Center => if stroke.opacity.below_one {
                                Some(seq![OpView::Opacity(stroke.opacity.text@)])
                            } else {
                                None
                            },
                            StrokeKind::Inner => Some(
                                seq![inside("tclip"@, Draw::Glyphs(e.id), opacity)],
                            ),
                            StrokeKind::Outer => Some(
                                seq![outside("tmask"@, Draw::Glyphs(e.id), opacity)],
                            ),
                        }
                    } else {
                        None
                    },
                    _ => None,
                });
            drawings(tree_ops(pool, id, images, render_shadows)).contains(
                Placed { draw, groups },
            ) <==> (place matches Some(inner) && groups == effects + shadow + inner)
        }),
{
    let e = pool[id];
    let around = around_leaf(e, render_shadows);
    let drawn = drawings(tree_ops(pool, id, images, render_shadows));
    assert(drawn.contains(Placed { draw, groups }) <==> (place_in_leaf(
        e,
        images,
        draw,
    ) matches Some(inner) && groups == around + inner)) by {
        lemma_leaf_parts(pool, id, images, render_shadows);
    }
    if !render_shadows || e.drop_shadows@.len() == 0 {
        assert(asked_effects(e) + Seq::<OpView>::empty() =~= asked_effects(e));
    }
}

/// A visible shape without children makes its drawings in order, and none twice: the shape
/// itself, its inner shadows, the strokes that are drawn by themselves, the images of
/// strokes, and those of a text, first on the outline, then inside, then outside of it;
/// among these each in the order of the strokes.
#[verifier::spinoff_prover]
pub proof fn leaf_draws_in_order(
    pool: Map<Uuid, Shape>,
    id: Uuid,
    images: bool,
    render_shadows: bool,
)
    requires
        acyclic(pool, id),
        pool.contains_key(id),
        !pool[id].hidden,
        !(pool[id].shape_type is Group || pool[id].shape_type is Frame),
    ensures
        ({
            let e = pool[id];
            let turn = |draw: Draw|
                (match draw {
                    Draw::Leaf(_) => 0int,
                    Draw::Glyphs(_) | Draw::Silhouette(_) => 1,
                    Draw::DoubledStroke(..) | Draw::DottedStroke(..) => 2,
                    Draw::StrokeImage(..) => 3,
                    Draw::TextStroke(_, i) => match e.strokes@[i as int].kind {
                        StrokeKind::Center => 4,
                        StrokeKind::Inner => 5,
                        StrokeKind::Outer => 6,
                    },
                    _ => 7,
                });
            let drawn = drawings(tree_ops(pool, id, images, render_shadows));
            forall|j: int, k: int|
                #![trigger drawn[j], drawn[k]]
                0 <= j < k < drawn.len() ==> {
                    let a = drawn[j].draw;
                    let b = drawn[k].draw;
                    turn(a) < turn(b) || turn(a) == turn(b) && stroke_number(a) < stroke_number(b)
                }
        }),
{
    lemma_leaf_parts(pool, id, images, render_shadows);
    let e = pool[id];
    let drawn = drawings(tree_ops(pool, id, images, render_shadows));
    // A path has no dotted strokes of its own, a rectangle or a circle no doubled ones.
    assert forall|k: int| 0 <= k < drawn.len() implies place_in_leaf(
        e,
        images,
        (#[trigger] drawn[k]).draw,
    ) is Some by {
        let draw = drawn[k].draw;
        let groups = drawn[k].groups;
        assert(drawn[k] == (Placed { draw, groups }));
        assert(drawn.contains(Placed { draw, groups }));
    }
}

/// The groups of a visible shape without children are those for its effects and its drop
/// shadows, and those around each drawing by itself; no group is shared between drawings
/// otherwise, and none is empty.
#[verifier::spinoff_prover]
pub proof fn leaf_shares_no_other_groups(
    pool: Map<Uuid, Shape>,
    id: Uuid,
    images: bool,
    render_shadows: bool,
)
    requires
        acyclic(pool, id),
        pool.contains_key(id),
        !pool[id].hidden,
        !(pool[id].shape_type is Group || pool[id].shape_type is Frame),
    ensures
        ({
            let e = pool[id];
            let opacity = if e.opacity.below_one {
                Some(e.opacity.text@)
            } else {
                None
            };
            let blend = css_blend_mode(e.blend_mode);
            let blur = match e.blur {
                Some(b) => if b.blur_type == BlurType::LayerBlur && !b.hidden && b.value.positive {
                    Some(b.value.text@)
                } else {
                    None
                },
                None => None,
            };
            let effects = if opacity is Some || blend is Some || blur is Some {
                seq![OpView::Effects { opacity, blend, blur }]
            } else {
                Seq::empty()
            };
            let shadow = if render_shadows && e.drop_shadows@.len() > 0 {
                seq![
                    OpView::Filter {
                        prefix: "shadow"@,
                        body: drop_shadow_body(e.drop_shadows@, e.drop_region, true),
                    },
                ]
            } else {
                Seq::empty()
            };
            let around = effects + shadow;
            let ops = tree_ops(pool, id, images, render_shadows);
            openings(ops) == around + groups_from(drawings(ops), around.len() as int)
        }),
{
    lemma_leaf_parts(pool, id, images, render_shadows);
    let e = pool[id];
    if !render_shadows || e.drop_shadows@.len() == 0 {
        assert(asked_effects(e) + Seq::<OpView>::empty() =~= asked_effects(e));
    }
}

/// Whether a drawing stands in steps once, and there in the given groups.
pub open spec fn drawn_once_in(ops: Seq<OpView>, draw: Draw, groups: Seq<OpView>) -> bool {
    &&& drawings(ops).contains(Placed { draw, groups })
    &&& forall|j: int, k: int|
        0 <= j < drawings(ops).len() && 0 <= k < drawings(ops).len() && (#[trigger] drawings(
            ops,
        )[j]).draw == draw && (#[trigger] drawings(ops)[k]).draw == draw ==> j == k
}

/// Every drawing that is part of a visible shape without children is made once, in its
/// groups; one that is not part of it is not made.
#[verifier::spinoff_prover]
pub proof fn leaf_part_is_drawn_once(
    pool: Map<Uuid, Shape>,
    id: Uuid,
    images: bool,
    render_shadows: bool,
    draw: Draw,
)
    requires
        acyclic(pool, id),
        pool.contains_key(id),
        !pool[id].hidden,
        !(pool[id].shape_type is Group || pool[id].shape_type is Frame),
    ensures
        ({
            let e = pool[id];
            let ops = tree_ops(pool, id, images, render_shadows);
            match place_in_leaf(e, images, draw) {
                Some(inner) => drawn_once_in(ops, draw, around_leaf(e, render_shadows) + inner),
                None => forall|k: int|
                    0 <= k < drawings(ops).len() ==> (#[trigger] drawings(ops)[k]).draw != draw,
            }
        }),
{
    let e = pool[id];
    let ops = tree_ops(pool, id, images, render_shadows);
    let drawn = drawings(ops);
    lemma_leaf_parts(pool, id, images, render_shadows);
    match place_in_leaf(e, images, draw) {
        Some(inner) => {
            let groups = around_leaf(e, render_shadows) + inner;
            assert(drawn.contains(Placed { draw, groups }));
        },
        None => {
            assert forall|k: int| 0 <= k < drawn.len() implies (#[trigger] drawn[k]).draw
                != draw by {
                if drawn[k].draw == draw {
                    let groups = drawn[k].groups;
                    assert(drawn[k] == (Placed { draw, groups }));
                    assert(drawn.contains(Placed { draw, groups }));
                }
            }
        },
    }
}

/// Every visible rectangle, and every visible circle, draws each of its dotted and dashed
/// strokes that runs along one side of the outline and has no image exactly once: clipped
/// to the shape where the stroke is intersected with it, and masked to what lies outside
/// of the shape where the shape is taken from it.
#[verifier::spinoff_prover]
pub proof fn dotted_stroke_is_drawn_once(
    pool: Map<Uuid, Shape>,
    id: Uuid,
    images: bool,
    render_shadows: bool,
    i: usize,
)
    requires
        acyclic(pool, id),
        pool.contains_key(id),
        !pool[id].hidden,
        pool[id].shape_type is Rect || pool[id].shape_type is Circle,
        i < pool[id].strokes@.len(),
        pool[id].strokes@[i as int].clip_op is Some,
        pool[id].strokes@[i as int].fill != Fill::Image,
    ensures
        ({
            let e = pool[id];
            let confined = match e.strokes@[i as int].clip_op->0 {
                ClipOp::Intersect => OpView::Confine {
                    kind: Confinement::ClipPath,
                    prefix: "dclip"@,
                    draws: seq![Draw::Silhouette(e.id)],
                    opacity: None,
                },
                ClipOp::Difference => OpView::Confine {
                    kind: Confinement::Mask,
                    prefix: "dmask"@,
                    draws: seq![Draw::Page, Draw::Silhouette(e.id)],
                    opacity: None,
                },
            };
            drawn_once_in(
                tree_ops(pool, id, images, render_shadows),
                Draw::DottedStroke(e.id, i),
                around_leaf(e, render_shadows).push(confined),
            )
        }),
{
    let e = pool[id];
    leaf_part_is_drawn_once(pool, id, images, render_shadows, Draw::DottedStroke(e.id, i));
    let side = side_of(e.strokes@[i as int].clip_op->0, e.id);
    let around = around_leaf(e, render_shadows);
    assert(around + seq![side] =~= around.push(side));
}

/// Whether drawings are the images of the strokes of a shape that have one, where there is
/// an image store: each once, in the order of the strokes, and each where the stroke runs.
pub open spec fn strokes_show_images(e: Shape, images: bool, shown: Seq<Placed>) -> bool {
    &&& forall|draw: Draw, groups: Seq<OpView>| #[trigger]
        shown.contains(Placed { draw, groups }) <==> (draw matches Draw::StrokeImage(id, i) && id
            == e.id && images && i < e.strokes@.len() && e.strokes@[i as int].fill == Fill::Image
            && groups == around_image(e, i))
    &&& forall|j: int, k: int|
        0 <= j < k < shown.len() ==> stroke_number((#[trigger] shown[j]).draw) < stroke_number(
            (#[trigger] shown[k]).draw,
        )
}

/// Where the image of a stroke is shown: where the stroke runs; for a stroke that keeps to
/// one side of the outline, on that side and where its dots are.
pub proof fn image_runs_along_the_stroke(e: Shape, i: usize)
    ensures
        e.strokes@[i as int].clip_op is None ==> around_image(e, i) == seq![
            OpView::Confine {
                kind: Confinement::AlphaMask,
                prefix: "simask"@,
                draws: seq![Draw::StrokeSilhouette(e.id, i)],
                opacity: None,
            },
        ],
        e.strokes@[i as int].clip_op == Some(ClipOp::Intersect) ==> around_image(e, i) == seq![
            OpView::Confine {
                kind: Confinement::ClipPath,
                prefix: "dclip"@,
                draws: seq![Draw::Silhouette(e.id)],
                opacity: None,
            },
            OpView::Confine {
                kind: Confinement::AlphaMask,
                prefix: "dimask"@,
                draws: seq![Draw::DottedRing(e.id, i)],
                opacity: None,
            },
        ],
        e.strokes@[i as int].clip_op == Some(ClipOp::Difference) ==> around_image(e, i) == seq![
            OpView::Confine {
                kind: Confinement::Mask,
                prefix: "dmask"@,
                draws: seq![Draw::Page, Draw::Silhouette(e.id)],
                opacity: None,
            },
            OpView::Confine {
                kind: Confinement::AlphaMask,
                prefix: "dimask"@,
                draws: seq![Draw::DottedRing(e.id, i)],
                opacity: None,
            },
        ],
{
}

#[verifier::spinoff_prover]
pub proof fn stroke_images_are_shown(e: Shape, images: bool)
    ensures
        strokes_show_images(e, images, stroke_images(e, images)),
{
    let shown = stroke_images(e, images);
    lemma_image_turn(e, images);
    reveal(of_turn);
    assert forall|draw: Draw, groups: Seq<OpView>| #[trigger]
        shown.contains(Placed { draw, groups }) <==> (draw matches Draw::StrokeImage(id, i) && id
            == e.id && images && i < e.strokes@.len() && e.strokes@[i as int].fill == Fill::Image
            && groups == around_image(e, i)) by {
        if shown.contains(Placed { draw, groups }) {
            let k = choose|k: int| 0 <= k < shown.len() && shown[k] == (Placed { draw, groups });
            assert(at(e, images, shown[k].draw) == Some(shown[k]));
            assert(turn(e, shown[k].draw) == 4);
        }
        if let Draw::StrokeImage(id, i) = draw {
            if id == e.id && images && i < e.strokes@.len() && e.strokes@[i as int].fill
                == Fill::Image && groups == around_image(e, i) {
                assert(place_in_leaf(e, images, draw) == Some(groups));
            }
        }
    }
}

} // verus!
