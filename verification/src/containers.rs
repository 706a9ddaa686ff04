//! How groups and frames look: which drawings they are made of, in which order, and in
//! which groups each stands.
use vstd::prelude::*;
use vstd::string::*;

use crate::appearance::{
    asked_effects, asked_inner_shadow, asked_shadow, clipped_to, css_blend_mode, enclosed_by,
    inside_effects, lemma_inside_effects,
};
use crate::filter::{drop_shadow_body, inner_shadow_body};
use crate::leaves::{
    groups_from, leaf_is_inside_effects, lemma_images, lemma_plain_framed, plain, stroke_images,
    stroke_images_are_shown, strokes_show_images,
};
use crate::ops::{if_any, only_if, Confinement, Draw, OpView};
use crate::placement::{
    drawings, lemma_any_closing, lemma_any_opening, lemma_balanced_shows, lemma_behind,
    lemma_closing, lemma_drawing, lemma_nothing, lemma_opening, lemma_shown, lemma_within_concat,
    lemma_within_twice, openings, shows, within, Placed,
};
use crate::render::{
    children_clip_draws, children_ops, clip_draws, container_shadow_ops, content_clip, frame_ops,
    group_mask, group_ops, tree_ops,
};
use crate::shape::{BlurType, Shape, Type, Uuid};
use crate::strokes::{
    drop_shadow_group, effects_group, image_stroke_ops, inner_shadow_ops,
};
use crate::structure::export_is_balanced;
use crate::tree::{acyclic, lemma_height_of_link, links};

verus! {

/// The drawings of several shapes, one shape behind the other.
pub open spec fn all_drawings(
    pool: Map<Uuid, Shape>,
    ids: Seq<Uuid>,
    images: bool,
    render_shadows: bool,
) -> Seq<Placed>
    decreases ids.len(),
{
    if ids.len() == 0 {
        Seq::empty()
    } else {
        all_drawings(pool, ids.drop_last(), images, render_shadows) + drawings(
            tree_ops(pool, ids.last(), images, render_shadows),
        )
    }
}

/// The groups of several shapes, one shape behind the other.
pub open spec fn all_openings(
    pool: Map<Uuid, Shape>,
    ids: Seq<Uuid>,
    images: bool,
    render_shadows: bool,
) -> Seq<OpView>
    decreases ids.len(),
{
    if ids.len() == 0 {
        Seq::empty()
    } else {
        all_openings(pool, ids.drop_last(), images, render_shadows) + openings(
            tree_ops(pool, ids.last(), images, render_shadows),
        )
    }
}

/// One drawing without groups, where there is something to draw.
pub open spec fn if_drawn(condition: bool, draw: Draw) -> Seq<Placed> {
    if condition {
        seq![Placed { draw, groups: Seq::empty() }]
    } else {
        Seq::empty()
    }
}

/// The clip of the children in the silhouette of a container: that of a frame with
/// children.
pub open spec fn silhouette_clip(e: Shape) -> Seq<OpView> {
    if e.shape_type is Frame && e.paint_order@.len() > 0 {
        seq![clipped_to("clip"@, e.id)]
    } else {
        Seq::empty()
    }
}

/// The drawings that cast the shadow of a container: its fills, its children without
/// shadows of their own, and its strokes.
pub open spec fn cast_drawings(pool: Map<Uuid, Shape>, e: Shape, images: bool) -> Seq<Placed> {
    if e.drop_shadows@.len() > 0 {
        within(
            asked_shadow(e, false),
            if_drawn(e.fills@.len() > 0, Draw::Fills(e.id)) + within(
                silhouette_clip(e),
                all_drawings(pool, e.paint_order@, images, false),
            ) + if_drawn(e.strokes@.len() > 0, Draw::Strokes(e.id)),
        )
    } else {
        Seq::empty()
    }
}

/// The groups around them.
pub open spec fn cast_openings(pool: Map<Uuid, Shape>, e: Shape, images: bool) -> Seq<OpView> {
    if e.drop_shadows@.len() > 0 {
        asked_shadow(e, false) + silhouette_clip(e) + all_openings(
            pool,
            e.paint_order@,
            images,
            false,
        )
    } else {
        Seq::empty()
    }
}

// A drawing that may be there.
proof fn lemma_any_drawing(
    a: Seq<OpView>,
    g: Seq<OpView>,
    l: Seq<Placed>,
    o: Seq<OpView>,
    drawn: bool,
    draw: Draw,
)
    requires
        shows(a, g, l, o),
    ensures
        shows(a + only_if(drawn, OpView::Draw(draw)), g, l + within(g, if_drawn(drawn, draw)), o),
{
    if drawn {
        lemma_drawing(a, g, l, o, draw);
        assert(g + Seq::<OpView>::empty() =~= g);
        assert(l.push(Placed { draw, groups: g }) =~= l + within(g, if_drawn(drawn, draw)));
    } else {
        assert(a + Seq::<OpView>::empty() =~= a);
        assert(l + within(g, if_drawn(drawn, draw)) =~= l);
    }
}

proof fn lemma_children(
    pool: Map<Uuid, Shape>,
    id: Uuid,
    n: nat,
    images: bool,
    shadows: bool,
)
    requires
        acyclic(pool, id),
        pool.contains_key(id),
        n <= pool[id].paint_order@.len(),
    ensures
        ({
            let ids = pool[id].paint_order@.take(n as int);
            shows(
                children_ops(pool, id, n, images, shadows),
                Seq::empty(),
                all_drawings(pool, ids, images, shadows),
                all_openings(pool, ids, images, shadows),
            )
        }),
    decreases n,
{
    let order = pool[id].paint_order@;
    let ids = order.take(n as int);
    if n == 0 {
        lemma_nothing();
    } else {
        let child = order[n - 1];
        let init = order.take(n - 1);
        assert(ids.drop_last() =~= init);
        assert(ids.last() == child);
        assert(order.contains(child));
        lemma_height_of_link(pool, id, child);
        lemma_children(pool, id, (n - 1) as nat, images, shadows);
        let t = tree_ops(pool, child, images, shadows);
        export_is_balanced(pool, child, images, shadows);
        lemma_balanced_shows(t);
        lemma_behind(
            children_ops(pool, id, (n - 1) as nat, images, shadows),
            Seq::empty(),
            all_drawings(pool, init, images, shadows),
            all_openings(pool, init, images, shadows),
            t,
            drawings(t),
            openings(t),
        );
        lemma_within_twice(Seq::empty(), Seq::empty(), drawings(t));
    }
}

// All painted children of a shape.
proof fn lemma_all_children(pool: Map<Uuid, Shape>, id: Uuid, images: bool, shadows: bool)
    requires
        acyclic(pool, id),
        pool.contains_key(id),
    ensures
        shows(
            children_ops(pool, id, pool[id].paint_order@.len(), images, shadows),
            Seq::empty(),
            all_drawings(pool, pool[id].paint_order@, images, shadows),
            all_openings(pool, pool[id].paint_order@, images, shadows),
        ),
{
    let order = pool[id].paint_order@;
    lemma_children(pool, id, order.len(), images, shadows);
    assert(order.take(order.len() as int) =~= order);
}

proof fn lemma_content_clip(pool: Map<Uuid, Shape>, id: Uuid)
    requires
        acyclic(pool, id),
        pool.contains_key(id),
        !(pool[id].shape_type is Group),
    ensures
        content_clip(pool, id) == clipped_to("clip"@, pool[id].id),
{
    assert(clip_draws(pool, id) == seq![Draw::Silhouette(pool[id].id)]);
}

#[verifier::spinoff_prover]
proof fn lemma_cast(pool: Map<Uuid, Shape>, id: Uuid, images: bool)
    requires
        acyclic(pool, id),
        pool.contains_key(id),
    ensures
        shows(
            container_shadow_ops(pool, id, images),
            Seq::empty(),
            cast_drawings(pool, pool[id], images),
            cast_openings(pool, pool[id], images),
        ),
{
    let e = pool[id];
    let none = Seq::<OpView>::empty();
    let blank = Seq::<Placed>::empty();
    lemma_nothing();
    match drop_shadow_group(e, false) {
        None => {},
        Some(group) => {
            let g = seq![group];
            assert(asked_shadow(e, false) =~= g);
            let clipped = e.paint_order@.len() > 0 && e.shape_type is Frame;
            let clip = if clipped {
                Some(content_clip(pool, id))
            } else {
                None
            };
            if clipped {
                lemma_content_clip(pool, id);
            }
            assert(if_any(clip) =~= silhouette_clip(e));
            let n = e.paint_order@.len();
            let children = children_ops(pool, id, n, images, false);
            let dc = all_drawings(pool, e.paint_order@, images, false);
            let oc = all_openings(pool, e.paint_order@, images, false);
            let fills = if_drawn(e.fills@.len() > 0, Draw::Fills(e.id));
            let strokes = if_drawn(e.strokes@.len() > 0, Draw::Strokes(e.id));
            lemma_all_children(pool, id, images, false);
            lemma_opening(none, none, blank, none, group);
            assert(none.push(group) =~= g);
            let a = seq![group];
            assert(none + seq![group] =~= a);
            lemma_any_drawing(a, g, blank, g, e.has_fills(), Draw::Fills(e.id));
            let a = a + only_if(e.has_fills(), OpView::Draw(Draw::Fills(e.id)));
            let l = blank + within(g, fills);
            lemma_any_opening(a, g, l, g, clip);
            let a = a + only_if(clipped, content_clip(pool, id));
            let h = g + if_any(clip);
            let o = g + if_any(clip);
            lemma_behind(a, h, l, o, children, dc, oc);
            let a = a + children;
            let l = l + within(h, dc);
            let o = o + oc;
            lemma_any_closing(a, g, clip, l, o);
            let a = a + only_if(clipped, OpView::Close);
            lemma_any_drawing(a, g, l, o, e.strokes@.len() > 0, Draw::Strokes(e.id));
            let a = a + only_if(e.strokes@.len() > 0, OpView::Draw(Draw::Strokes(e.id)));
            let l = l + within(g, strokes);
            lemma_closing(a, g, l, o);
            assert(g.drop_last() =~= none);
            let c = within(silhouette_clip(e), dc);
            lemma_within_twice(g, silhouette_clip(e), dc);
            lemma_within_concat(g, fills, c);
            lemma_within_concat(g, fills + c, strokes);
            assert(l =~= within(g, fills + c + strokes));
        },
    }
}

/// The drop shadow of a container is cast by its fills, by its painted children without
/// shadows of their own, clipped to it where it is a frame, and by its strokes; in that
/// order, inside one group with its shadow filter, and by nothing else.
#[verifier::spinoff_prover]
pub proof fn container_shadow_is_cast_by_all_of_it(
    pool: Map<Uuid, Shape>,
    id: Uuid,
    images: bool,
)
    requires
        acyclic(pool, id),
        pool.contains_key(id),
        pool[id].drop_shadows@.len() > 0,
    ensures
        ({
            let e = pool[id];
            let ops = container_shadow_ops(pool, id, images);
            let shadow = OpView::Filter {
                prefix: "shadow"@,
                body: drop_shadow_body(e.drop_shadows@, e.drop_region, false),
            };
            let clip = if e.shape_type is Frame && e.paint_order@.len() > 0 {
                seq![
                    OpView::Confine {
                        kind: Confinement::ClipPath,
                        prefix: "clip"@,
                        draws: seq![Draw::Silhouette(e.id)],
                        opacity: None,
                    },
                ]
            } else {
                Seq::empty()
            };
            let fills = if e.fills@.len() > 0 {
                seq![Placed { draw: Draw::Fills(e.id), groups: Seq::empty() }]
            } else {
                Seq::empty()
            };
            let strokes = if e.strokes@.len() > 0 {
                seq![Placed { draw: Draw::Strokes(e.id), groups: Seq::empty() }]
            } else {
                Seq::empty()
            };
            let children = all_drawings(pool, e.paint_order@, images, false);
            &&& drawings(ops) == within(seq![shadow], fills + within(clip, children) + strokes)
            &&& openings(ops) == seq![shadow] + clip + all_openings(
                pool,
                e.paint_order@,
                images,
                false,
            )
        }),
{
    lemma_cast_shown(pool, id, images);
}

proof fn lemma_cast_shown(pool: Map<Uuid, Shape>, id: Uuid, images: bool)
    requires
        acyclic(pool, id),
        pool.contains_key(id),
    ensures
        drawings(container_shadow_ops(pool, id, images)) == cast_drawings(pool, pool[id], images),
        openings(container_shadow_ops(pool, id, images)) == cast_openings(pool, pool[id], images),
{
    lemma_cast(pool, id, images);
    lemma_shown(
        container_shadow_ops(pool, id, images),
        Seq::empty(),
        cast_drawings(pool, pool[id], images),
        cast_openings(pool, pool[id], images),
    );
}

/// The mask of a shape: of a masked group whose mask is in the pool, what the mask shows,
/// with its own shadows and effects.
pub open spec fn asked_mask(pool: Map<Uuid, Shape>, e: Shape, images: bool) -> Seq<OpView> {
    match (e.shape_type, e.mask_id) {
        (Type::Group(group), Some(mask)) => if group.masked && pool.contains_key(mask) {
            seq![OpView::AlphaMask(tree_ops(pool, mask, images, true))]
        } else {
            Seq::empty()
        },
        _ => Seq::empty(),
    }
}

// What the shadow of a container adds, where shadows are rendered.
spec fn if_cast(pool: Map<Uuid, Shape>, e: Shape, images: bool, shadows: bool) -> Seq<Placed> {
    if shadows {
        cast_drawings(pool, e, images)
    } else {
        Seq::empty()
    }
}

spec fn if_cast_openings(
    pool: Map<Uuid, Shape>,
    e: Shape,
    images: bool,
    shadows: bool,
) -> Seq<OpView> {
    if shadows {
        cast_openings(pool, e, images)
    } else {
        Seq::empty()
    }
}

spec fn if_cast_ops(pool: Map<Uuid, Shape>, id: Uuid, images: bool, shadows: bool) -> Seq<OpView> {
    if shadows {
        container_shadow_ops(pool, id, images)
    } else {
        Seq::empty()
    }
}

proof fn lemma_if_cast(pool: Map<Uuid, Shape>, id: Uuid, images: bool, shadows: bool)
    requires
        acyclic(pool, id),
        pool.contains_key(id),
    ensures
        shows(
            if_cast_ops(pool, id, images, shadows),
            Seq::empty(),
            if_cast(pool, pool[id], images, shadows),
            if_cast_openings(pool, pool[id], images, shadows),
        ),
{
    lemma_nothing();
    lemma_cast(pool, id, images);
}

proof fn lemma_regrouped(
    first: Seq<OpView>,
    a: Seq<OpView>,
    b: Seq<OpView>,
    c: Seq<OpView>,
    d: Seq<OpView>,
    last: Seq<OpView>,
)
    ensures
        first + a + b + c + d + last == first + (a + b + c + d) + last,
{
    assert(first + a + b + c + d + last =~= first + (a + b + c + d) + last);
}

spec fn mask_group(pool: Map<Uuid, Shape>, e: Shape, images: bool) -> Option<OpView> {
    match group_mask(pool, e, e.shape_type->Group_0.masked) {
        Some(mask) => Some(OpView::AlphaMask(tree_ops(pool, mask, images, true))),
        None => None,
    }
}

spec fn group_rest(pool: Map<Uuid, Shape>, id: Uuid, images: bool, shadows: bool) -> Seq<OpView> {
    let mask = mask_group(pool, pool[id], images);
    if_cast_ops(pool, id, images, shadows) + if_any(mask) + children_ops(
        pool,
        id,
        pool[id].paint_order@.len(),
        images,
        shadows,
    ) + only_if(mask is Some, OpView::Close)
}

#[verifier::spinoff_prover]
proof fn lemma_group_rest(pool: Map<Uuid, Shape>, id: Uuid, images: bool, shadows: bool)
    requires
        acyclic(pool, id),
        pool.contains_key(id),
        !pool[id].hidden,
        pool[id].shape_type is Group,
    ensures
        ({
            let e = pool[id];
            let mask = asked_mask(pool, e, images);
            let rest = group_rest(pool, id, images, shadows);
            &&& inside_effects(tree_ops(pool, id, images, shadows), e, rest)
            &&& shows(
                rest,
                Seq::empty(),
                if_cast(pool, e, images, shadows) + within(
                    mask,
                    all_drawings(pool, e.paint_order@, images, shadows),
                ),
                if_cast_openings(pool, e, images, shadows) + mask + all_openings(
                    pool,
                    e.paint_order@,
                    images,
                    shadows,
                ),
            )
        }),
{
    let e = pool[id];
    let none = Seq::<OpView>::empty();
    let masked = e.shape_type->Group_0.masked;
    let mask = mask_group(pool, e, images);
    let children = children_ops(pool, id, e.paint_order@.len(), images, shadows);
    let dc = all_drawings(pool, e.paint_order@, images, shadows);
    let oc = all_openings(pool, e.paint_order@, images, shadows);
    assert(if_any(mask) =~= asked_mask(pool, e, images));
    lemma_if_cast(pool, id, images, shadows);
    lemma_all_children(pool, id, images, shadows);
    let a = if_cast_ops(pool, id, images, shadows);
    let l = if_cast(pool, e, images, shadows);
    let o = if_cast_openings(pool, e, images, shadows);
    lemma_any_opening(a, none, l, o, mask);
    let g = if_any(mask);
    assert(none + g =~= g);
    lemma_behind(a + g, g, l, o + g, children, dc, oc);
    lemma_any_closing(a + g + children, none, mask, l + within(g, dc), o + g + oc);
    let effects = effects_group(e);
    let rest = group_rest(pool, id, images, shadows);
    let close = only_if(effects is Some, OpView::Close);
    assert(group_ops(pool, id, masked, images, shadows) == if_any(effects) + a + g + children
        + only_if(mask is Some, OpView::Close) + close) by {
        if let Some(m) = group_mask(pool, e, masked) {
            assert(links(e, m));
            lemma_height_of_link(pool, id, m);
        }
    }
    lemma_regrouped(
        if_any(effects),
        a,
        g,
        children,
        only_if(mask is Some, OpView::Close),
        close,
    );
}

#[verifier::spinoff_prover]
proof fn lemma_group_shows(
    pool: Map<Uuid, Shape>,
    id: Uuid,
    images: bool,
    render_shadows: bool,
)
    requires
        acyclic(pool, id),
        pool.contains_key(id),
        !pool[id].hidden,
        pool[id].shape_type is Group,
    ensures
        ({
            let e = pool[id];
            let ops = tree_ops(pool, id, images, render_shadows);
            let effects = asked_effects(e);
            let mask = asked_mask(pool, e, images);
            let children = all_drawings(pool, e.paint_order@, images, render_shadows);
            let groups = all_openings(pool, e.paint_order@, images, render_shadows);
            if render_shadows {
                &&& drawings(ops) == within(
                    effects,
                    cast_drawings(pool, e, images) + within(mask, children),
                )
                &&& openings(ops) == effects + (cast_openings(pool, e, images) + mask + groups)
            } else {
                &&& drawings(ops) == within(effects, within(mask, children))
                &&& openings(ops) == effects + (mask + groups)
            }
        }),
{
    let e = pool[id];
    let shadows = render_shadows;
    let mask = asked_mask(pool, e, images);
    let dc = all_drawings(pool, e.paint_order@, images, shadows);
    let oc = all_openings(pool, e.paint_order@, images, shadows);
    lemma_group_rest(pool, id, images, shadows);
    lemma_inside_effects(
        tree_ops(pool, id, images, shadows),
        e,
        group_rest(pool, id, images, shadows),
        if_cast(pool, e, images, shadows) + within(mask, dc),
        if_cast_openings(pool, e, images, shadows) + mask + oc,
    );
    if !shadows {
        assert(Seq::<Placed>::empty() + within(mask, dc) =~= within(mask, dc));
        assert(Seq::<OpView>::empty() + mask + oc =~= mask + oc);
    }
}

/// A visible group shows its painted children, in their order, and nothing else. It shows
/// them:
///
/// - in a group for its opacity, its blend mode and its layer blur, as far as it has
///   these;
/// - in a group with what its mask shows as mask, where it is masked and the mask is in
///   the pool, and only then, whatever its other style;
/// - where shadows are rendered and it has drop shadows, with the shadow behind them: in a
///   group with the shadow filter its fills, its children again, without shadows of
///   their own, and its strokes.
#[verifier::spinoff_prover]
pub proof fn group_shows_its_children(
    pool: Map<Uuid, Shape>,
    id: Uuid,
    images: bool,
    render_shadows: bool,
)
    requires
        acyclic(pool, id),
        pool.contains_key(id),
        !pool[id].hidden,
        pool[id].shape_type is Group,
    ensures
        ({
            let e = pool[id];
            let opacity = if e.opacity.below_one {
                Some(e.opacity.text@)
            } else {
                None
            };
            let blend = css_blend_mode(e.blend_mode);
            let blur = match e.blur {
                Some(b) => if b.blur_type == BlurType::LayerBlur && !b.hidden && b.value.positive {
                    Some(b.value.text@)
                } else {
                    None
                },
                None => None,
            };
            let effects = if opacity is Some || blend is Some || blur is Some {
                seq![OpView::Effects { opacity, blend, blur }]
            } else {
                Seq::empty()
            };
            let shadow = seq![
                OpView::Filter {
                    prefix: "shadow"@,
                    body: drop_shadow_body(e.drop_shadows@, e.drop_region, false),
                },
            ];
            let cast = render_shadows && e.drop_shadows@.len() > 0;
            let fills = if e.fills@.len() > 0 {
                seq![Placed { draw: Draw::Fills(e.id), groups: Seq::empty() }]
            } else {
                Seq::empty()
            };
            let strokes = if e.strokes@.len() > 0 {
                seq![Placed { draw: Draw::Strokes(e.id), groups: Seq::empty() }]
            } else {
                Seq::empty()
            };
            let silhouettes = all_drawings(pool, e.paint_order@, images, false);
            let silhouette_groups = all_openings(pool, e.paint_order@, images, false);
            let children = all_drawings(pool, e.paint_order@, images, render_shadows);
            let children_groups = all_openings(pool, e.paint_order@, images, render_shadows);
            let ops = tree_ops(pool, id, images, render_shadows);
            let mask = match (e.shape_type, e.mask_id) {
                (Type::Group(group), Some(mask)) => if group.masked && pool.contains_key(mask) {
                    seq![OpView::AlphaMask(tree_ops(pool, mask, images, true))]
                } else {
                    Seq::empty()
                },
                _ => Seq::empty(),
            };
            let behind = if cast {
                within(shadow, fills + silhouettes + strokes)
            } else {
                Seq::empty()
            };
            let behind_groups = if cast {
                shadow + silhouette_groups
            } else {
                Seq::empty()
            };
            &&& drawings(ops) == within(effects, behind + within(mask, children))
            &&& openings(ops) == effects + (behind_groups + mask + children_groups)
        }),
{
    let e = pool[id];
    lemma_group_shows(pool, id, images, render_shadows);
    let none = Seq::<OpView>::empty();
    let silhouettes = all_drawings(pool, e.paint_order@, images, false);
    lemma_within_twice(none, none, silhouettes);
    let shadow = asked_shadow(e, false);
    let mask = asked_mask(pool, e, images);
    let children = all_drawings(pool, e.paint_order@, images, render_shadows);
    let groups = all_openings(pool, e.paint_order@, images, render_shadows);
    assert(shadow + none =~= shadow);
    assert(Seq::<Placed>::empty() + within(mask, children) =~= within(mask, children));
    assert(none + mask + groups =~= mask + groups);
}

/// The clip of a frame that clips its content.
pub open spec fn asked_clip(e: Shape) -> Seq<OpView> {
    if e.clip_content {
        seq![clipped_to("clip"@, e.id)]
    } else {
        Seq::empty()
    }
}

/// The inner shadows of a frame: its geometry in a group with their filter, where it has
/// fills.
pub open spec fn frame_inner_shadow(e: Shape) -> Seq<Placed> {
    if e.fills@.len() > 0 && e.inner_shadows@.len() > 0 {
        seq![Placed { draw: Draw::Silhouette(e.id), groups: seq![asked_inner_shadow(e)] }]
    } else {
        Seq::empty()
    }
}

/// What a frame shows inside of its clip: its fills, its inner shadows, its painted
/// children, its strokes, and the images of those.
pub open spec fn frame_content(
    pool: Map<Uuid, Shape>,
    e: Shape,
    images: bool,
    render_shadows: bool,
) -> Seq<Placed> {
    if_drawn(e.fills@.len() > 0, Draw::Fills(e.id)) + frame_inner_shadow(e) + all_drawings(
        pool,
        e.paint_order@,
        images,
        render_shadows,
    ) + if_drawn(e.strokes@.len() > 0, Draw::Strokes(e.id)) + stroke_images(e, images)
}

/// The groups in it.
pub open spec fn frame_content_openings(
    pool: Map<Uuid, Shape>,
    e: Shape,
    images: bool,
    render_shadows: bool,
) -> Seq<OpView> {
    groups_from(frame_inner_shadow(e), 0) + all_openings(
        pool,
        e.paint_order@,
        images,
        render_shadows,
    ) + groups_from(stroke_images(e, images), 0)
}

spec fn stroke_tail(e: Shape, images: bool) -> Seq<OpView> {
    if e.strokes@.len() > 0 {
        seq![OpView::Draw(Draw::Strokes(e.id))] + image_stroke_ops(e, images)
    } else {
        Seq::empty()
    }
}

proof fn lemma_stroke_tail(e: Shape, images: bool)
    ensures
        shows(
            stroke_tail(e, images),
            Seq::empty(),
            if_drawn(e.strokes@.len() > 0, Draw::Strokes(e.id)) + stroke_images(e, images),
            groups_from(stroke_images(e, images), 0),
        ),
{
    let none = Seq::<OpView>::empty();
    let blank = Seq::<Placed>::empty();
    let draw = Draw::Strokes(e.id);
    let drawn = if_drawn(e.strokes@.len() > 0, draw);
    let m = stroke_images(e, images);
    let o = groups_from(m, 0);
    lemma_nothing();
    if e.strokes@.len() > 0 {
        lemma_any_drawing(none, none, blank, none, true, draw);
        lemma_within_twice(none, none, drawn);
        assert(blank + drawn =~= drawn);
        assert(none + only_if(true, OpView::Draw(draw)) =~= seq![OpView::Draw(draw)]);
        lemma_images(e, images);
        lemma_behind(
            seq![OpView::Draw(draw)],
            none,
            drawn,
            none,
            image_stroke_ops(e, images),
            m,
            o,
        );
        lemma_within_twice(none, none, m);
        assert(none + o =~= o);
    } else {
        assert(m =~= blank);
        assert(blank + blank =~= blank);
    }
}

proof fn lemma_frame_inner(e: Shape)
    requires
        e.shape_type is Frame,
    ensures
        plain(inner_shadow_ops(e), frame_inner_shadow(e)),
{
    lemma_nothing();
    lemma_plain_framed(asked_inner_shadow(e), Draw::Silhouette(e.id));
}

spec fn frame_inside(pool: Map<Uuid, Shape>, id: Uuid, images: bool, shadows: bool) -> Seq<
    OpView,
> {
    let e = pool[id];
    only_if(e.has_fills(), OpView::Draw(Draw::Fills(e.id))) + inner_shadow_ops(e) + children_ops(
        pool,
        id,
        e.paint_order@.len(),
        images,
        shadows,
    ) + stroke_tail(e, images)
}

#[verifier::spinoff_prover]
proof fn lemma_frame_inside(pool: Map<Uuid, Shape>, id: Uuid, images: bool, shadows: bool)
    requires
        acyclic(pool, id),
        pool.contains_key(id),
        pool[id].shape_type is Frame,
    ensures
        shows(
            frame_inside(pool, id, images, shadows),
            Seq::empty(),
            frame_content(pool, pool[id], images, shadows),
            frame_content_openings(pool, pool[id], images, shadows),
        ),
{
    let e = pool[id];
    let none = Seq::<OpView>::empty();
    let blank = Seq::<Placed>::empty();
    let fills = if_drawn(e.fills@.len() > 0, Draw::Fills(e.id));
    let inner = frame_inner_shadow(e);
    let dc = all_drawings(pool, e.paint_order@, images, shadows);
    let oc = all_openings(pool, e.paint_order@, images, shadows);
    let strokes = if_drawn(e.strokes@.len() > 0, Draw::Strokes(e.id));
    let shown = stroke_images(e, images);
    let children = children_ops(pool, id, e.paint_order@.len(), images, shadows);
    lemma_nothing();
    lemma_any_drawing(none, none, blank, none, e.has_fills(), Draw::Fills(e.id));
    let a = only_if(e.has_fills(), OpView::Draw(Draw::Fills(e.id)));
    assert(none + a =~= a);
    lemma_within_twice(none, none, fills);
    assert(blank + fills =~= fills);
    lemma_frame_inner(e);
    lemma_behind(a, none, fills, none, inner_shadow_ops(e), inner, groups_from(inner, 0));
    lemma_within_twice(none, none, inner);
    assert(none + groups_from(inner, 0) =~= groups_from(inner, 0));
    let a = a + inner_shadow_ops(e);
    let l = fills + inner;
    let o = groups_from(inner, 0);
    lemma_all_children(pool, id, images, shadows);
    lemma_behind(a, none, l, o, children, dc, oc);
    lemma_within_twice(none, none, dc);
    let a = a + children;
    let l = l + dc;
    let o = o + oc;
    lemma_stroke_tail(e, images);
    lemma_behind(
        a,
        none,
        l,
        o,
        stroke_tail(e, images),
        strokes + shown,
        groups_from(shown, 0),
    );
    lemma_within_twice(none, none, strokes + shown);
    assert(l + (strokes + shown) =~= l + strokes + shown);
}

spec fn frame_rest(pool: Map<Uuid, Shape>, id: Uuid, images: bool, shadows: bool) -> Seq<OpView> {
    let e = pool[id];
    if_cast_ops(pool, id, images, shadows) + only_if(e.clip_content, content_clip(pool, id))
        + frame_inside(pool, id, images, shadows) + only_if(e.clip_content, OpView::Close)
}

proof fn lemma_frame_regrouped(
    first: Seq<OpView>,
    cast: Seq<OpView>,
    clip: Seq<OpView>,
    a: Seq<OpView>,
    b: Seq<OpView>,
    c: Seq<OpView>,
    d: Seq<OpView>,
    close: Seq<OpView>,
    last: Seq<OpView>,
)
    ensures
        first + cast + clip + a + b + c + d + close + last == first + (cast + clip + (a + b + c + d)
            + close) + last,
{
    assert(cast + clip + (a + b + c + d) =~= cast + clip + a + b + c + d);
    assert(first + (cast + clip + a + b + c + d + close) =~= first + cast + clip + a + b + c + d
        + close);
}

#[verifier::spinoff_prover]
proof fn lemma_frame_rest(pool: Map<Uuid, Shape>, id: Uuid, images: bool, shadows: bool)
    requires
        acyclic(pool, id),
        pool.contains_key(id),
        !pool[id].hidden,
        pool[id].shape_type is Frame,
    ensures
        ({
            let e = pool[id];
            let rest = frame_rest(pool, id, images, shadows);
            &&& inside_effects(tree_ops(pool, id, images, shadows), e, rest)
            &&& shows(
                rest,
                Seq::empty(),
                if_cast(pool, e, images, shadows) + within(
                    asked_clip(e),
                    frame_content(pool, e, images, shadows),
                ),
                if_cast_openings(pool, e, images, shadows) + asked_clip(e)
                    + frame_content_openings(pool, e, images, shadows),
            )
        }),
{
    let e = pool[id];
    let none = Seq::<OpView>::empty();
    let clip = if e.clip_content {
        Some(content_clip(pool, id))
    } else {
        None
    };
    let g = asked_clip(e);
    lemma_content_clip(pool, id);
    assert(if_any(clip) =~= g);
    let inside = frame_inside(pool, id, images, shadows);
    let dc = frame_content(pool, e, images, shadows);
    let oc = frame_content_openings(pool, e, images, shadows);
    lemma_if_cast(pool, id, images, shadows);
    lemma_frame_inside(pool, id, images, shadows);
    let a = if_cast_ops(pool, id, images, shadows);
    let l = if_cast(pool, e, images, shadows);
    let o = if_cast_openings(pool, e, images, shadows);
    lemma_any_opening(a, none, l, o, clip);
    assert(none + g =~= g);
    lemma_behind(a + g, g, l, o + g, inside, dc, oc);
    lemma_any_closing(a + g + inside, none, clip, l + within(g, dc), o + g + oc);
    let effects = effects_group(e);
    lemma_frame_regrouped(
        if_any(effects),
        a,
        only_if(e.clip_content, content_clip(pool, id)),
        only_if(e.has_fills(), OpView::Draw(Draw::Fills(e.id))),
        inner_shadow_ops(e),
        children_ops(pool, id, e.paint_order@.len(), images, shadows),
        stroke_tail(e, images),
        only_if(e.clip_content, OpView::Close),
        only_if(effects is Some, OpView::Close),
    );
    assert(tree_ops(pool, id, images, shadows) == frame_ops(pool, id, images, shadows));
}

#[verifier::spinoff_prover]
proof fn lemma_frame_shows(
    pool: Map<Uuid, Shape>,
    id: Uuid,
    images: bool,
    render_shadows: bool,
)
    requires
        acyclic(pool, id),
        pool.contains_key(id),
        !pool[id].hidden,
        pool[id].shape_type is Frame,
    ensures
        ({
            let e = pool[id];
            let ops = tree_ops(pool, id, images, render_shadows);
            let effects = asked_effects(e);
            let clip = asked_clip(e);
            let content = frame_content(pool, e, images, render_shadows);
            let groups = frame_content_openings(pool, e, images, render_shadows);
            if render_shadows {
                &&& drawings(ops) == within(
                    effects,
                    cast_drawings(pool, e, images) + within(clip, content),
                )
                &&& openings(ops) == effects + (cast_openings(pool, e, images) + clip + groups)
            } else {
                &&& drawings(ops) == within(effects, within(clip, content))
                &&& openings(ops) == effects + (clip + groups)
            }
        }),
{
    let e = pool[id];
    let shadows = render_shadows;
    let clip = asked_clip(e);
    let dc = frame_content(pool, e, images, shadows);
    let oc = frame_content_openings(pool, e, images, shadows);
    lemma_frame_rest(pool, id, images, shadows);
    lemma_inside_effects(
        tree_ops(pool, id, images, shadows),
        e,
        frame_rest(pool, id, images, shadows),
        if_cast(pool, e, images, shadows) + within(clip, dc),
        if_cast_openings(pool, e, images, shadows) + clip + oc,
    );
    if !shadows {
        assert(Seq::<Placed>::empty() + within(clip, dc) =~= within(clip, dc));
        assert(Seq::<OpView>::empty() + clip + oc =~= clip + oc);
    }
}

/// A visible frame shows its fills, its inner shadows, cast into its geometry where it has
/// fills, its painted children, in their order, its strokes and, where there is an image
/// store, the images of those; and nothing else. It shows them:
///
/// - in a group for its opacity, its blend mode and its layer blur, as far as it has
///   these;
/// - clipped to its geometry where it clips its content;
/// - where shadows are rendered and it has drop shadows, with the shadow behind them: in a
///   group with the shadow filter its fills, its children again, without shadows of
///   their own and clipped to the frame, and its strokes.
///
/// The images of the strokes are `shown`, with the groups that each of them stands in.
#[verifier::spinoff_prover]
pub proof fn frame_shows_its_content(
    pool: Map<Uuid, Shape>,
    id: Uuid,
    images: bool,
    render_shadows: bool,
) -> (shown: Seq<Placed>)
    requires
        acyclic(pool, id),
        pool.contains_key(id),
        !pool[id].hidden,
        pool[id].shape_type is Frame,
    ensures
        ({
            let e = pool[id];
            let opacity = if e.opacity.below_one {
                Some(e.opacity.text@)
            } else {
                None
            };
            let blend = css_blend_mode(e.blend_mode);
            let blur = match e.blur {
                Some(b) => if b.blur_type == BlurType::LayerBlur && !b.hidden && b.value.positive {
                    Some(b.value.text@)
                } else {
                    None
                },
                None => None,
            };
            let effects = if opacity is Some || blend is Some || blur is Some {
                seq![OpView::Effects { opacity, blend, blur }]
            } else {
                Seq::empty()
            };
            let shadow = seq![
                OpView::Filter {
                    prefix: "shadow"@,
                    body: drop_shadow_body(e.drop_shadows@, e.drop_region, false),
                },
            ];
            let cast = render_shadows && e.drop_shadows@.len() > 0;
            let fills = if e.fills@.len() > 0 {
                seq![Placed { draw: Draw::Fills(e.id), groups: Seq::empty() }]
            } else {
                Seq::empty()
            };
            let strokes = if e.strokes@.len() > 0 {
                seq![Placed { draw: Draw::Strokes(e.id), groups: Seq::empty() }]
            } else {
                Seq::empty()
            };
            let silhouettes = all_drawings(pool, e.paint_order@, images, false);
            let silhouette_groups = all_openings(pool, e.paint_order@, images, false);
            let children = all_drawings(pool, e.paint_order@, images, render_shadows);
            let children_groups = all_openings(pool, e.paint_order@, images, render_shadows);
            let ops = tree_ops(pool, id, images, render_shadows);
            let geometry = seq![
                OpView::Confine {
                    kind: Confinement::ClipPath,
                    prefix: "clip"@,
                    draws: seq![Draw::Silhouette(e.id)],
                    opacity: None,
                },
            ];
            let clip = if e.clip_content {
                geometry
            } else {
                Seq::empty()
            };
            let inner = seq![
                OpView::Filter {
                    prefix: "inshadow"@,
                    body: inner_shadow_body(e.inner_shadows@, e.inner_region),
                },
            ];
            let inner_cast = e.fills@.len() > 0 && e.inner_shadows@.len() > 0;
            let inner_shadows = if inner_cast {
                seq![Placed { draw: Draw::Silhouette(e.id), groups: inner }]
            } else {
                Seq::empty()
            };
            let behind_clip = if e.paint_order@.len() > 0 {
                geometry
            } else {
                Seq::empty()
            };
            let behind = if cast {
                within(shadow, fills + within(behind_clip, silhouettes) + strokes)
            } else {
                Seq::empty()
            };
            let behind_groups = if cast {
                shadow + behind_clip + silhouette_groups
            } else {
                Seq::empty()
            };
            let content = fills + inner_shadows + children + strokes + shown;
            let content_groups = (if inner_cast {
                inner
            } else {
                Seq::empty()
            }) + children_groups + groups_from(shown, 0);
            &&& drawings(ops) == within(effects, behind + within(clip, content))
            &&& openings(ops) == effects + (behind_groups + clip + content_groups)
        }),
        strokes_show_images(pool[id], images, shown),
{
    let e = pool[id];
    lemma_frame_shows(pool, id, images, render_shadows);
    let none = Seq::<OpView>::empty();
    let clip = asked_clip(e);
    let content = frame_content(pool, e, images, render_shadows);
    let groups = frame_content_openings(pool, e, images, render_shadows);
    assert(Seq::<Placed>::empty() + within(clip, content) =~= within(clip, content));
    assert(none + clip + groups =~= clip + groups);
    let inner = frame_inner_shadow(e);
    assert(groups_from(inner, 0) =~= (if inner.len() > 0 {
        inner[0].groups
    } else {
        none
    })) by {
        if inner.len() > 0 {
            assert(inner.drop_last() =~= Seq::empty());
            assert(groups_from(inner.drop_last(), 0) =~= none);
            assert(inner.last().groups.skip(0) =~= inner.last().groups);
        }
    }
    stroke_images_are_shown(e, images);
    stroke_images(e, images)
}

/// A shape that is hidden, or not in the pool, shows nothing.
pub proof fn hidden_shape_shows_nothing(
    pool: Map<Uuid, Shape>,
    id: Uuid,
    images: bool,
    render_shadows: bool,
)
    requires
        acyclic(pool, id),
        !pool.contains_key(id) || pool[id].hidden,
    ensures
        tree_ops(pool, id, images, render_shadows) == Seq::<OpView>::empty(),
{
}

/// Every visible shape, whatever its type, that is translucent, has a blend mode that CSS
/// can show or has a visible layer blur begins with a step that asks for exactly these,
/// and stays in the group that this step opens up to its last step, which closes it.
#[verifier::spinoff_prover]
pub proof fn effects_enclose_the_shape(
    pool: Map<Uuid, Shape>,
    id: Uuid,
    images: bool,
    render_shadows: bool,
)
    requires
        acyclic(pool, id),
        pool.contains_key(id),
        !pool[id].hidden,
    ensures
        ({
            let e = pool[id];
            let opacity = if e.opacity.below_one {
                Some(e.opacity.text@)
            } else {
                None
            };
            let blend = css_blend_mode(e.blend_mode);
            let blur = match e.blur {
                Some(b) => if b.blur_type == BlurType::LayerBlur && !b.hidden && b.value.positive {
                    Some(b.value.text@)
                } else {
                    None
                },
                None => None,
            };
            opacity is Some || blend is Some || blur is Some ==> enclosed_by(
                tree_ops(pool, id, images, render_shadows),
                (OpView::Effects { opacity, blend, blur }),
            )
        }),
{
    let e = pool[id];
    let shadows = render_shadows;
    let ops = tree_ops(pool, id, images, shadows);
    if e.shape_type is Group {
        lemma_group_rest(pool, id, images, shadows);
        lemma_inside_effects(
            ops,
            e,
            group_rest(pool, id, images, shadows),
            if_cast(pool, e, images, shadows) + within(
                asked_mask(pool, e, images),
                all_drawings(pool, e.paint_order@, images, shadows),
            ),
            if_cast_openings(pool, e, images, shadows) + asked_mask(pool, e, images)
                + all_openings(pool, e.paint_order@, images, shadows),
        );
    } else if e.shape_type is Frame {
        lemma_frame_rest(pool, id, images, shadows);
        lemma_inside_effects(
            ops,
            e,
            frame_rest(pool, id, images, shadows),
            if_cast(pool, e, images, shadows) + within(
                asked_clip(e),
                frame_content(pool, e, images, shadows),
            ),
            if_cast_openings(pool, e, images, shadows) + asked_clip(e) + frame_content_openings(
                pool,
                e,
                images,
                shadows,
            ),
        );
    } else {
        leaf_is_inside_effects(e, images, shadows);
    }
}

// Where drawings stand that lie in two groups.
proof fn lemma_held(
    drawn: Seq<Placed>,
    outer: Seq<OpView>,
    inner: Seq<OpView>,
    parts: Seq<Placed>,
    rest: Seq<Placed>,
    k: int,
)
    requires
        drawn == within(outer, within(inner, parts) + rest),
        0 <= k < parts.len(),
    ensures
        drawn.contains(Placed { draw: parts[k].draw, groups: outer + inner + parts[k].groups }),
{
    let p = parts[k];
    let all = within(inner, parts) + rest;
    assert(all[k] == (Placed { draw: p.draw, groups: inner + p.groups }));
    assert(outer + (inner + p.groups) =~= outer + inner + p.groups);
    assert(drawn[k] == (Placed { draw: p.draw, groups: outer + inner + p.groups }));
}

// The same for what precedes others, for what follows them, and for these, in a further
// group.
proof fn lemma_parts_held(
    drawn: Seq<Placed>,
    outer: Seq<OpView>,
    inner: Seq<OpView>,
    clip: Seq<OpView>,
    first: Seq<Placed>,
    between: Seq<Placed>,
    last: Seq<Placed>,
    rest: Seq<Placed>,
    child: Placed,
)
    requires
        drawn == within(outer, within(inner, first + within(clip, between) + last) + rest),
    ensures
        first.len() > 0 && first[0].groups.len() == 0 ==> drawn.contains(
            Placed { draw: first[0].draw, groups: outer + inner },
        ),
        last.len() > 0 && last[0].groups.len() == 0 ==> drawn.contains(
            Placed { draw: last[0].draw, groups: outer + inner },
        ),
        between.contains(child) ==> drawn.contains(
            Placed { draw: child.draw, groups: outer + inner + clip + child.groups },
        ),
{
    let parts = first + within(clip, between) + last;
    let groups = outer + inner;
    if first.len() > 0 && first[0].groups.len() == 0 {
        assert(parts[0] == first[0]);
        lemma_held(drawn, outer, inner, parts, rest, 0);
        assert(groups + first[0].groups =~= groups);
    }
    if last.len() > 0 && last[0].groups.len() == 0 {
        let k = (first.len() + between.len()) as int;
        assert(parts[k] == last[0]);
        lemma_held(drawn, outer, inner, parts, rest, k);
        assert(groups + last[0].groups =~= groups);
    }
    if between.contains(child) {
        let k = choose|k: int| 0 <= k < between.len() && between[k] == child;
        assert(parts[first.len() + k] == (Placed {
            draw: child.draw,
            groups: clip + child.groups,
        }));
        lemma_held(drawn, outer, inner, parts, rest, first.len() + k);
        assert(groups + (clip + child.groups) =~= groups + clip + child.groups);
    }
}

/// Where a container has a visible drop shadow, and shadows are rendered, the group with
/// its shadow filter holds its fills and its strokes, as far as it has any, and each
/// drawing of its painted children, rendered without shadows.
#[verifier::spinoff_prover]
pub proof fn container_shadow_holds_its_parts(
    pool: Map<Uuid, Shape>,
    id: Uuid,
    images: bool,
    child: Placed,
)
    requires
        acyclic(pool, id),
        pool.contains_key(id),
        !pool[id].hidden,
        pool[id].shape_type is Group || pool[id].shape_type is Frame,
        pool[id].drop_shadows@.len() > 0,
    ensures
        ({
            let e = pool[id];
            let drawn = drawings(tree_ops(pool, id, images, true));
            let groups = asked_effects(e) + seq![
                OpView::Filter {
                    prefix: "shadow"@,
                    body: drop_shadow_body(e.drop_shadows@, e.drop_region, false),
                },
            ];
            &&& e.fills@.len() > 0 ==> drawn.contains(Placed { draw: Draw::Fills(e.id), groups })
            &&& e.strokes@.len() > 0 ==> drawn.contains(
                Placed { draw: Draw::Strokes(e.id), groups },
            )
            &&& all_drawings(pool, e.paint_order@, images,
                false).contains(child) ==> drawn.contains(
                Placed { draw: child.draw, groups: groups + silhouette_clip(e) + child.groups },
            )
        }),
{
    let e = pool[id];
    let drawn = drawings(tree_ops(pool, id, images, true));
    let effects = asked_effects(e);
    let shadow = asked_shadow(e, false);
    let clip = silhouette_clip(e);
    let fills = if_drawn(e.fills@.len() > 0, Draw::Fills(e.id));
    let dc = all_drawings(pool, e.paint_order@, images, false);
    let strokes = if_drawn(e.strokes@.len() > 0, Draw::Strokes(e.id));
    let rest = if e.shape_type is Group {
        within(asked_mask(pool, e, images), all_drawings(pool, e.paint_order@, images, true))
    } else {
        within(asked_clip(e), frame_content(pool, e, images, true))
    };
    assert(drawn == within(
        effects,
        within(shadow, fills + within(clip, dc) + strokes) + rest,
    )) by {
        if e.shape_type is Group {
            lemma_group_shows(pool, id, images, true);
        } else {
            lemma_frame_shows(pool, id, images, true);
        }
    }
    lemma_parts_held(drawn, effects, shadow, clip, fills, dc, strokes, rest, child);
}

/// In a visible masked group whose mask is in the pool, whatever its other style, every
/// drawing of its painted children stands in a group with what the mask shows as mask.
#[verifier::spinoff_prover]
pub proof fn masked_children_stand_in_the_mask(
    pool: Map<Uuid, Shape>,
    id: Uuid,
    mask: Uuid,
    images: bool,
    render_shadows: bool,
    child: Placed,
)
    requires
        acyclic(pool, id),
        pool.contains_key(id),
        !pool[id].hidden,
        pool[id].shape_type matches Type::Group(group) && group.masked,
        pool[id].mask_id == Some(mask),
        pool.contains_key(mask),
        all_drawings(pool, pool[id].paint_order@, images, render_shadows).contains(child),
    ensures
        drawings(tree_ops(pool, id, images, render_shadows)).contains(
            Placed {
                draw: child.draw,
                groups: asked_effects(pool[id]) + seq![
                    OpView::AlphaMask(tree_ops(pool, mask, images, true)),
                ] + child.groups,
            },
        ),
{
    let e = pool[id];
    let effects = asked_effects(e);
    let g = asked_mask(pool, e, images);
    let dc = all_drawings(pool, e.paint_order@, images, render_shadows);
    let drawn = drawings(tree_ops(pool, id, images, render_shadows));
    let cast = if_cast(pool, e, images, render_shadows);
    lemma_group_shows(pool, id, images, render_shadows);
    assert(g == seq![OpView::AlphaMask(tree_ops(pool, mask, images, true))]);
    assert(drawn =~= within(effects, cast + within(g, dc))) by {
        assert(Seq::<Placed>::empty() + within(g, dc) =~= within(g, dc));
    }
    let k = choose|k: int| 0 <= k < dc.len() && dc[k] == child;
    let all = cast + within(g, dc);
    assert(all[cast.len() + k] == (Placed { draw: child.draw, groups: g + child.groups }));
    assert(effects + (g + child.groups) =~= effects + g + child.groups);
    assert(drawn[cast.len() + k] == (Placed {
        draw: child.draw,
        groups: effects + g + child.groups,
    }));
}

/// The geometry of several shapes of the pool, one shape behind the other; shapes that are
/// not in the pool add none.
pub open spec fn all_geometry(pool: Map<Uuid, Shape>, ids: Seq<Uuid>) -> Seq<Draw>
    decreases ids.len(),
{
    if ids.len() == 0 {
        Seq::empty()
    } else if pool.contains_key(ids.last()) {
        all_geometry(pool, ids.drop_last()) + clip_draws(pool, ids.last())
    } else {
        all_geometry(pool, ids.drop_last())
    }
}

proof fn lemma_children_geometry(pool: Map<Uuid, Shape>, id: Uuid, n: nat)
    requires
        acyclic(pool, id),
        pool.contains_key(id),
        n <= pool[id].children@.len(),
    ensures
        children_clip_draws(pool, id, n) == all_geometry(pool, pool[id].children@.take(n as int)),
    decreases n,
{
    if n > 0 {
        let ids = pool[id].children@.take(n as int);
        let child = pool[id].children@[n - 1];
        lemma_children_geometry(pool, id, (n - 1) as nat);
        assert(ids.drop_last() =~= pool[id].children@.take(n - 1));
        assert(ids.last() == child);
        assert(pool[id].children@.contains(child));
        lemma_height_of_link(pool, id, child);
        let init = children_clip_draws(pool, id, (n - 1) as nat);
        assert(init + Seq::<Draw>::empty() =~= init);
    }
}

/// The geometry that clips to a group is that of all its children; to another shape, its
/// own.
pub proof fn clip_geometry_is_that_of_the_shape(pool: Map<Uuid, Shape>, id: Uuid)
    requires
        acyclic(pool, id),
        pool.contains_key(id),
    ensures
        clip_draws(pool, id) == (if pool[id].shape_type is Group {
            all_geometry(pool, pool[id].children@)
        } else {
            seq![Draw::Silhouette(pool[id].id)]
        }),
{
    if pool[id].shape_type is Group {
        let children = pool[id].children@;
        lemma_children_geometry(pool, id, children.len());
        assert(children.take(children.len() as int) =~= children);
    }
}

} // verus!
