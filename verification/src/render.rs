//! The steps that render a shape tree.
use vstd::prelude::*;
use vstd::string::*;

use crate::ops::{
    if_any, only_if, ops_view, push_any, push_op, push_when, Confinement, Draw, Op, OpView,
};
use crate::shape::{Shape, ShapesPool, Type, Uuid};
use crate::strokes::{
    concat, dotted_ops, drop_shadow_group, effects_group, image_stroke_ops, inner_shadow_ops,
    lemma_concat_assoc, path_outer_ops, svg_drop_shadow_attr, svg_effect_attrs,
    svg_render_image_strokes, svg_render_inner_shadows, svg_render_path_outer_strokes,
    svg_render_rect_circle_dotted_strokes, svg_render_text_alpha_strokes,
    svg_render_text_inner_strokes, svg_render_text_outer_strokes, text_alpha_stroke,
    text_inner_stroke, text_outer_stroke,
};
use crate::tree::{acyclic, height, lemma_height_of_link, links};

verus! {

/// The strokes of a text that are emitted apart from its content.
pub open spec fn text_stroke_ops(e: Shape) -> Seq<OpView> {
    if e.shape_type is Text {
        concat(e.strokes@.len(), |i: int| text_alpha_stroke(e, i)) + concat(
            e.strokes@.len(),
            |i: int| text_inner_stroke(e, i),
        ) + concat(e.strokes@.len(), |i: int| text_outer_stroke(e, i))
    } else {
        Seq::empty()
    }
}

/// The group for the drop shadows of a leaf, where shadows are rendered.
pub open spec fn leaf_shadow_group(e: Shape, render_shadows: bool) -> Option<OpView> {
    if render_shadows {
        drop_shadow_group(e, true)
    } else {
        None
    }
}

/// A leaf: in the group for its effects, and in that for its drop shadows, first its
/// content, then its inner shadows and the strokes that the content leaves out.
pub open spec fn leaf_ops(e: Shape, images: bool, render_shadows: bool) -> Seq<OpView> {
    let effects = effects_group(e);
    let shadow = leaf_shadow_group(e, render_shadows);
    if_any(effects) + if_any(shadow) + seq![OpView::Draw(Draw::Leaf(e.id))] + inner_shadow_ops(e)
        + path_outer_ops(e) + dotted_ops(e) + image_stroke_ops(e, images) + text_stroke_ops(e)
        + only_if(shadow is Some, OpView::Close) + only_if(effects is Some, OpView::Close)
}

/// Renders a leaf.
pub fn svg_render_leaf(ops: &mut Vec<Op>, element: &Shape, images: bool, render_shadows: bool)
    ensures
        ops_view(final(ops)@) == ops_view(old(ops)@) + leaf_ops(*element, images, render_shadows),
{
    let ghost base = ops_view(ops@);
    let ghost mut acc: Seq<OpView> = Seq::empty();
    proof {
        assert(base + acc =~= base);
    }
    let group = svg_effect_attrs(element);
    let effects = push_any(ops, group);
    proof {
        acc = if_any(effects_group(*element));
    }
    // Drop shadows lie behind the shape, inside the group for its effects.
    let group = if render_shadows {
        svg_drop_shadow_attr(element, true)
    } else {
        None
    };
    let shadow = push_any(ops, group);
    proof {
        let part = if_any(leaf_shadow_group(*element, render_shadows));
        lemma_concat_assoc(base, acc, part);
        acc = acc + part;
    }
    push_op(ops, Op::Draw(Draw::Leaf(element.id)));
    proof {
        let part = seq![OpView::Draw(Draw::Leaf(element.id))];
        lemma_concat_assoc(base, acc, part);
        acc = acc + part;
    }
    svg_render_inner_shadows(ops, element);
    proof {
        lemma_concat_assoc(base, acc, inner_shadow_ops(*element));
        acc = acc + inner_shadow_ops(*element);
    }
    svg_render_path_outer_strokes(ops, element);
    proof {
        lemma_concat_assoc(base, acc, path_outer_ops(*element));
        acc = acc + path_outer_ops(*element);
    }
    svg_render_rect_circle_dotted_strokes(ops, element);
    proof {
        lemma_concat_assoc(base, acc, dotted_ops(*element));
        acc = acc + dotted_ops(*element);
    }
    svg_render_image_strokes(ops, element, images);
    proof {
        lemma_concat_assoc(base, acc, image_stroke_ops(*element, images));
        acc = acc + image_stroke_ops(*element, images);
    }
    svg_render_text_strokes(ops, element);
    proof {
        lemma_concat_assoc(base, acc, text_stroke_ops(*element));
        acc = acc + text_stroke_ops(*element);
    }
    push_when(ops, shadow, Op::Close);
    proof {
        lemma_concat_assoc(base, acc, only_if(shadow, OpView::Close));
        acc = acc + only_if(shadow, OpView::Close);
    }
    push_when(ops, effects, Op::Close);
    proof {
        lemma_concat_assoc(base, acc, only_if(effects, OpView::Close));
        acc = acc + only_if(effects, OpView::Close);
    }
}

fn svg_render_text_strokes(ops: &mut Vec<Op>, element: &Shape)
    ensures
        ops_view(final(ops)@) == ops_view(old(ops)@) + text_stroke_ops(*element),
{
    let ghost base = ops_view(ops@);
    match &element.shape_type {
        Type::Text(_) => {
            svg_render_text_alpha_strokes(ops, element);
            svg_render_text_inner_strokes(ops, element);
            svg_render_text_outer_strokes(ops, element);
            proof {
                let n = element.strokes@.len();
                let a = concat(n, |i: int| text_alpha_stroke(*element, i));
                let b = concat(n, |i: int| text_inner_stroke(*element, i));
                let c = concat(n, |i: int| text_outer_stroke(*element, i));
                lemma_concat_assoc(base, a, b);
                lemma_concat_assoc(base, a + b, c);
            }
        },
        _ => {
            proof {
                assert(base + Seq::<OpView>::empty() =~= base);
            }
        },
    }
}

/// What a shape is clipped to: its silhouette, or for a group, which has no geometry of
/// its own, the silhouettes below it.
pub open spec fn clip_draws(pool: Map<Uuid, Shape>, id: Uuid) -> Seq<Draw>
    decreases height(pool, id), 1int, 0nat,
    when acyclic(pool, id) && pool.contains_key(id)
{
    if pool[id].shape_type is Group {
        children_clip_draws(pool, id, pool[id].children@.len())
    } else {
        seq![Draw::Silhouette(pool[id].id)]
    }
}

/// What the first `n` children of a shape are clipped to.
pub open spec fn children_clip_draws(pool: Map<Uuid, Shape>, id: Uuid, n: nat) -> Seq<Draw>
    decreases height(pool, id), 0int, n,
    when acyclic(pool, id) && pool.contains_key(id) && n <= pool[id].children@.len()
{
    if n == 0 {
        Seq::empty()
    } else {
        let child = pool[id].children@[n - 1];
        proof {
            assert(pool[id].children@.contains(child));
            lemma_height_of_link(pool, id, child);
        }
        children_clip_draws(pool, id, (n - 1) as nat) + (if pool.contains_key(child) {
            clip_draws(pool, child)
        } else {
            Seq::empty()
        })
    }
}

/// Draws the clip geometry of a shape. A group contributes nothing itself, but its
/// children do; its transform is not theirs.
pub fn draw_clip_geometry(draws: &mut Vec<Draw>, shape: &Shape, tree: &ShapesPool)
    requires
        acyclic(tree@, shape.id),
        tree@.contains_key(shape.id),
        tree@[shape.id] == *shape,
    ensures
        final(draws)@ == old(draws)@ + clip_draws(tree@, shape.id),
    decreases height(tree@, shape.id),
{
    let ghost base = draws@;
    match &shape.shape_type {
        Type::Group(_) => {
            let mut i: usize = 0;
            proof {
                assert(base + children_clip_draws(tree@, shape.id, 0) =~= base);
            }
            while i < shape.children.len()
                invariant
                    0 <= i <= shape.children.len(),
                    acyclic(tree@, shape.id),
                    tree@.contains_key(shape.id),
                    tree@[shape.id] == *shape,
                    draws@ == base + children_clip_draws(tree@, shape.id, i as nat),
                decreases shape.children.len() - i,
            {
                let ghost child_id = shape.children@[i as int];
                proof {
                    assert(shape.children@.contains(child_id));
                    lemma_height_of_link(tree@, shape.id, child_id);
                }
                let ghost before = children_clip_draws(tree@, shape.id, i as nat);
                match tree.get(&shape.children[i]) {
                    Some(child) => {
                        draw_clip_geometry(draws, child, tree);
                        proof {
                            assert(base + before + clip_draws(tree@, child_id) =~= base + (before
                                + clip_draws(tree@, child_id)));
                        }
                    },
                    None => {
                        proof {
                            assert(before + Seq::<Draw>::empty() =~= before);
                        }
                    },
                }
                i = i + 1;
            }
        },
        _ => {
            draws.push(Draw::Silhouette(shape.id));
            proof {
                assert(draws@ =~= base + seq![Draw::Silhouette(shape.id)]);
            }
        },
    }
}

/// The group that clips content to a shape.
pub open spec fn content_clip(pool: Map<Uuid, Shape>, id: Uuid) -> OpView {
    OpView::Confine {
        kind: Confinement::ClipPath,
        prefix: "clip"@,
        draws: clip_draws(pool, id),
        opacity: None,
    }
}

/// Opens a group that is clipped to the geometry of a shape.
pub fn push_clip_path(ops: &mut Vec<Op>, shape: &Shape, tree: &ShapesPool)
    requires
        acyclic(tree@, shape.id),
        tree@.contains_key(shape.id),
        tree@[shape.id] == *shape,
    ensures
        ops_view(final(ops)@) == ops_view(old(ops)@) + seq![content_clip(tree@, shape.id)],
{
    let mut draws: Vec<Draw> = Vec::new();
    draw_clip_geometry(&mut draws, shape, tree);
    proof {
        assert(draws@ =~= clip_draws(tree@, shape.id));
    }
    push_op(
        ops,
        Op::Confine { kind: Confinement::ClipPath, prefix: "clip", draws, opacity: None },
    );
}

/// The mask of a masked group, where the pool has it.
pub open spec fn group_mask(pool: Map<Uuid, Shape>, e: Shape, masked: bool) -> Option<Uuid> {
    match e.mask_id {
        Some(mask) => if masked && pool.contains_key(mask) {
            Some(mask)
        } else {
            None
        },
        None => None,
    }
}

/// A shape and all below it. A hidden or missing shape is nothing.
///
/// Without `render_shadows`, while the silhouette of a container's drop shadow is
/// built, shapes contribute no drop shadows of their own.
pub open spec fn tree_ops(
    pool: Map<Uuid, Shape>,
    id: Uuid,
    images: bool,
    render_shadows: bool,
) -> Seq<OpView>
    decreases height(pool, id), 3int, 0nat,
    when acyclic(pool, id)
{
    if !pool.contains_key(id) || pool[id].hidden {
        Seq::empty()
    } else {
        match pool[id].shape_type {
            Type::Group(group) => group_ops(pool, id, group.masked, images, render_shadows),
            Type::Frame => frame_ops(pool, id, images, render_shadows),
            _ => leaf_ops(pool[id], images, render_shadows),
        }
    }
}

/// A group: in the group for its effects first its drop shadow, then its children,
/// which its mask confines.
pub open spec fn group_ops(
    pool: Map<Uuid, Shape>,
    id: Uuid,
    masked: bool,
    images: bool,
    render_shadows: bool,
) -> Seq<OpView>
    decreases height(pool, id), 2int, 0nat,
    when acyclic(pool, id) && pool.contains_key(id)
{
    let e = pool[id];
    let effects = effects_group(e);
    let mask = group_mask(pool, e, masked);
    if_any(effects) + (if render_shadows {
        container_shadow_ops(pool, id, images)
    } else {
        Seq::empty()
    }) + (match mask {
        Some(mask) => {
            proof {
                assert(links(e, mask));
                lemma_height_of_link(pool, id, mask);
            }
            seq![OpView::AlphaMask(tree_ops(pool, mask, images, true))]
        },
        None => Seq::empty(),
    }) + children_ops(pool, id, e.paint_order@.len(), images, render_shadows) + only_if(
        mask is Some,
        OpView::Close,
    ) + only_if(effects is Some, OpView::Close)
}

/// A frame: in the group for its effects first its drop shadow; then, clipped to the
/// frame where it clips its content, its fills, its inner shadows, its children and
/// its strokes.
pub open spec fn frame_ops(
    pool: Map<Uuid, Shape>,
    id: Uuid,
    images: bool,
    render_shadows: bool,
) -> Seq<OpView>
    decreases height(pool, id), 2int, 0nat,
    when acyclic(pool, id) && pool.contains_key(id)
{
    let e = pool[id];
    let effects = effects_group(e);
    if_any(effects) + (if render_shadows {
        container_shadow_ops(pool, id, images)
    } else {
        Seq::empty()
    }) + only_if(e.clip_content, content_clip(pool, id)) + only_if(
        e.has_fills(),
        OpView::Draw(Draw::Fills(e.id)),
    ) + inner_shadow_ops(e) + children_ops(
        pool,
        id,
        e.paint_order@.len(),
        images,
        render_shadows,
    ) + (if e.strokes@.len() > 0 {
        seq![OpView::Draw(Draw::Strokes(e.id))] + image_stroke_ops(e, images)
    } else {
        Seq::empty()
    }) + only_if(e.clip_content, OpView::Close) + only_if(effects is Some, OpView::Close)
}

/// The drop shadows of a container: in the group for them its silhouette, that is its
/// fills, its children without shadows of their own, for a frame clipped to the frame,
/// and its strokes.
pub open spec fn container_shadow_ops(
    pool: Map<Uuid, Shape>,
    id: Uuid,
    images: bool,
) -> Seq<OpView>
    decreases height(pool, id), 1int, 0nat,
    when acyclic(pool, id) && pool.contains_key(id)
{
    let e = pool[id];
    let clipped = e.paint_order@.len() > 0 && e.shape_type is Frame;
    match drop_shadow_group(e, false) {
        Some(group) => seq![group] + only_if(e.has_fills(), OpView::Draw(Draw::Fills(e.id)))
            + only_if(clipped, content_clip(pool, id)) + children_ops(
            pool,
            id,
            e.paint_order@.len(),
            images,
            false,
        ) + only_if(clipped, OpView::Close) + only_if(
            e.strokes@.len() > 0,
            OpView::Draw(Draw::Strokes(e.id)),
        ) + seq![OpView::Close],
        None => Seq::empty(),
    }
}

/// The first `n` painted children of a shape and all below them.
pub open spec fn children_ops(
    pool: Map<Uuid, Shape>,
    id: Uuid,
    n: nat,
    images: bool,
    render_shadows: bool,
) -> Seq<OpView>
    decreases height(pool, id), 0int, n,
    when acyclic(pool, id) && pool.contains_key(id) && n <= pool[id].paint_order@.len()
{
    if n == 0 {
        Seq::empty()
    } else {
        let child = pool[id].paint_order@[n - 1];
        proof {
            assert(pool[id].paint_order@.contains(child));
            lemma_height_of_link(pool, id, child);
        }
        children_ops(pool, id, (n - 1) as nat, images, render_shadows) + tree_ops(
            pool,
            child,
            images,
            render_shadows,
        )
    }
}

/// Renders a shape and all below it. A hidden or missing shape renders to nothing.
///
/// `render_shadows` is `false` while a container's drop-shadow silhouette is built:
/// shapes then contribute their shape, but not their own drop shadows.
pub fn svg_render_tree(
    ops: &mut Vec<Op>,
    tree: &ShapesPool,
    id: &Uuid,
    images: bool,
    render_shadows: bool,
)
    requires
        acyclic(tree@, *id),
    ensures
        ops_view(final(ops)@) == ops_view(old(ops)@) + tree_ops(
            tree@,
            *id,
            images,
            render_shadows,
        ),
    decreases height(tree@, *id), 3int,
{
    let ghost base = ops_view(ops@);
    proof {
        assert(base + Seq::<OpView>::empty() =~= base);
    }
    match tree.get(id) {
        None => {},
        Some(element) => {
            if element.hidden {
                return ;
            }
            match &element.shape_type {
                Type::Group(group) => svg_render_group(
                    ops,
                    tree,
                    element,
                    group.masked,
                    images,
                    render_shadows,
                ),
                Type::Frame => svg_render_frame(ops, tree, element, images, render_shadows),
                _ => svg_render_leaf(ops, element, images, render_shadows),
            }
        },
    }
}

fn svg_render_children(
    ops: &mut Vec<Op>,
    tree: &ShapesPool,
    element: &Shape,
    images: bool,
    render_shadows: bool,
)
    requires
        acyclic(tree@, element.id),
        tree@.contains_key(element.id),
        tree@[element.id] == *element,
    ensures
        ops_view(final(ops)@) == ops_view(old(ops)@) + children_ops(
            tree@,
            element.id,
            element.paint_order@.len(),
            images,
            render_shadows,
        ),
    decreases height(tree@, element.id), 0int,
{
    let ghost base = ops_view(ops@);
    proof {
        assert(base + Seq::<OpView>::empty() =~= base);
    }
    let mut i: usize = 0;
    while i < element.paint_order.len()
        invariant
            0 <= i <= element.paint_order.len(),
            acyclic(tree@, element.id),
            tree@.contains_key(element.id),
            tree@[element.id] == *element,
            ops_view(ops@) == base + children_ops(
                tree@,
                element.id,
                i as nat,
                images,
                render_shadows,
            ),
        decreases element.paint_order.len() - i,
    {
        let ghost child = element.paint_order@[i as int];
        proof {
            assert(element.paint_order@.contains(child));
            lemma_height_of_link(tree@, element.id, child);
        }
        svg_render_tree(ops, tree, &element.paint_order[i], images, render_shadows);
        proof {
            lemma_concat_assoc(
                base,
                children_ops(tree@, element.id, i as nat, images, render_shadows),
                tree_ops(tree@, child, images, render_shadows),
            );
        }
        i = i + 1;
    }
}

/// Opens a group that is masked by the alpha of the subtree rooted at `mask_id`, its
/// shadows and effects included.
pub fn push_alpha_mask(ops: &mut Vec<Op>, tree: &ShapesPool, mask_id: &Uuid, images: bool)
    requires
        acyclic(tree@, *mask_id),
    ensures
        ops_view(final(ops)@) == ops_view(old(ops)@) + seq![
            OpView::AlphaMask(tree_ops(tree@, *mask_id, images, true)),
        ],
    decreases height(tree@, *mask_id), 4int,
{
    let mut steps: Vec<Op> = Vec::new();
    svg_render_tree(&mut steps, tree, mask_id, images, true);
    proof {
        assert(ops_view(steps@) =~= tree_ops(tree@, *mask_id, images, true));
    }
    push_op(ops, Op::AlphaMask(steps));
}

/// Renders a group.
pub fn svg_render_group(
    ops: &mut Vec<Op>,
    tree: &ShapesPool,
    element: &Shape,
    masked: bool,
    images: bool,
    render_shadows: bool,
)
    requires
        acyclic(tree@, element.id),
        tree@.contains_key(element.id),
        tree@[element.id] == *element,
    ensures
        ops_view(final(ops)@) == ops_view(old(ops)@) + group_ops(
            tree@,
            element.id,
            masked,
            images,
            render_shadows,
        ),
    decreases height(tree@, element.id), 2int,
{
    let ghost base = ops_view(ops@);
    let ghost mut acc: Seq<OpView> = Seq::empty();
    let group = svg_effect_attrs(element);
    let effects = push_any(ops, group);
    proof {
        acc = if_any(effects_group(*element));
    }
    if render_shadows {
        svg_render_container_drop_shadow(ops, tree, element, images);
    }
    proof {
        let part = if render_shadows {
            container_shadow_ops(tree@, element.id, images)
        } else {
            Seq::empty()
        };
        assert(acc + Seq::<OpView>::empty() =~= acc);
        lemma_concat_assoc(base, acc, part);
        acc = acc + part;
    }
    let ghost mask = group_mask(tree@, *element, masked);
    let ghost mut part: Seq<OpView> = Seq::empty();
    let mut confined = false;
    proof {
        assert(acc + Seq::<OpView>::empty() =~= acc);
    }
    if masked {
        if let Some(mask_id) = &element.mask_id {
            if tree.get(mask_id).is_some() {
                proof {
                    assert(links(*element, *mask_id));
                    lemma_height_of_link(tree@, element.id, *mask_id);
                    part = seq![OpView::AlphaMask(tree_ops(tree@, *mask_id, images, true))];
                    lemma_concat_assoc(base, acc, part);
                }
                push_alpha_mask(ops, tree, mask_id, images);
                confined = true;
            }
        }
    }
    proof {
        acc = acc + part;
    }
    svg_render_children(ops, tree, element, images, render_shadows);
    proof {
        let part = children_ops(
            tree@,
            element.id,
            element.paint_order@.len(),
            images,
            render_shadows,
        );
        lemma_concat_assoc(base, acc, part);
        acc = acc + part;
    }
    push_when(ops, confined, Op::Close);
    proof {
        lemma_concat_assoc(base, acc, only_if(confined, OpView::Close));
        acc = acc + only_if(confined, OpView::Close);
    }
    push_when(ops, effects, Op::Close);
    proof {
        lemma_concat_assoc(base, acc, only_if(effects, OpView::Close));
        acc = acc + only_if(effects, OpView::Close);
        assert(confined == (mask is Some));
    }
}

/// Renders a frame.
pub fn svg_render_frame(
    ops: &mut Vec<Op>,
    tree: &ShapesPool,
    element: &Shape,
    images: bool,
    render_shadows: bool,
)
    requires
        acyclic(tree@, element.id),
        tree@.contains_key(element.id),
        tree@[element.id] == *element,
    ensures
        ops_view(final(ops)@) == ops_view(old(ops)@) + frame_ops(
            tree@,
            element.id,
            images,
            render_shadows,
        ),
    decreases height(tree@, element.id), 2int,
{
    let ghost base = ops_view(ops@);
    let ghost mut acc: Seq<OpView> = Seq::empty();
    let group = svg_effect_attrs(element);
    let effects = push_any(ops, group);
    proof {
        acc = if_any(effects_group(*element));
    }
    // The shadow lies outside the content clip, so that its offset is not clipped.
    if render_shadows {
        svg_render_container_drop_shadow(ops, tree, element, images);
    }
    proof {
        let part = if render_shadows {
            container_shadow_ops(tree@, element.id, images)
        } else {
            Seq::empty()
        };
        assert(acc + Seq::<OpView>::empty() =~= acc);
        lemma_concat_assoc(base, acc, part);
        acc = acc + part;
        assert(acc + Seq::<OpView>::empty() =~= acc);
    }
    if element.clip_content {
        push_clip_path(ops, element, tree);
    }
    proof {
        let part = only_if(element.clip_content, content_clip(tree@, element.id));
        lemma_concat_assoc(base, acc, part);
        acc = acc + part;
    }
    push_when(ops, element.has_fills(), Op::Draw(Draw::Fills(element.id)));
    proof {
        let part = only_if(element.has_fills(), OpView::Draw(Draw::Fills(element.id)));
        lemma_concat_assoc(base, acc, part);
        acc = acc + part;
    }
    svg_render_inner_shadows(ops, element);
    proof {
        lemma_concat_assoc(base, acc, inner_shadow_ops(*element));
        acc = acc + inner_shadow_ops(*element);
    }
    svg_render_children(ops, tree, element, images, render_shadows);
    proof {
        let part = children_ops(
            tree@,
            element.id,
            element.paint_order@.len(),
            images,
            render_shadows,
        );
        lemma_concat_assoc(base, acc, part);
        acc = acc + part;
        assert(acc + Seq::<OpView>::empty() =~= acc);
    }
    // Strokes lie over the children.
    if element.strokes.len() > 0 {
        push_op(ops, Op::Draw(Draw::Strokes(element.id)));
        svg_render_image_strokes(ops, element, images);
    }
    proof {
        let strokes = seq![OpView::Draw(Draw::Strokes(element.id))];
        let part = if element.strokes@.len() > 0 {
            strokes + image_stroke_ops(*element, images)
        } else {
            Seq::empty()
        };
        if element.strokes@.len() > 0 {
            lemma_concat_assoc(base + acc, strokes, image_stroke_ops(*element, images));
        }
        lemma_concat_assoc(base, acc, part);
        acc = acc + part;
    }
    push_when(ops, element.clip_content, Op::Close);
    proof {
        lemma_concat_assoc(base, acc, only_if(element.clip_content, OpView::Close));
        acc = acc + only_if(element.clip_content, OpView::Close);
    }
    push_when(ops, effects, Op::Close);
    proof {
        lemma_concat_assoc(base, acc, only_if(effects, OpView::Close));
        acc = acc + only_if(effects, OpView::Close);
    }
}

/// Emits the drop shadows of a frame or group as a filtered group behind the content.
///
/// The group holds the silhouette of the container: its own fills and strokes, and its
/// descendants without their own drop shadows, which would cast a second, offset copy.
/// For a frame the descendants are clipped to the frame; its own fills and strokes are
/// not. The filter gives the shadows alone, since the content follows on top.
pub fn svg_render_container_drop_shadow(
    ops: &mut Vec<Op>,
    tree: &ShapesPool,
    element: &Shape,
    images: bool,
)
    requires
        acyclic(tree@, element.id),
        tree@.contains_key(element.id),
        tree@[element.id] == *element,
    ensures
        ops_view(final(ops)@) == ops_view(old(ops)@) + container_shadow_ops(
            tree@,
            element.id,
            images,
        ),
    decreases height(tree@, element.id), 1int,
{
    let ghost base = ops_view(ops@);
    match svg_drop_shadow_attr(element, false) {
        None => {
            proof {
                assert(base + Seq::<OpView>::empty() =~= base);
            }
        },
        Some(group) => {
            let ghost mut acc = seq![group@];
            push_op(ops, group);
            push_when(ops, element.has_fills(), Op::Draw(Draw::Fills(element.id)));
            proof {
                let part = only_if(element.has_fills(), OpView::Draw(Draw::Fills(element.id)));
                lemma_concat_assoc(base, acc, part);
                acc = acc + part;
                assert(acc + Seq::<OpView>::empty() =~= acc);
            }
            let is_frame = match &element.shape_type {
                Type::Frame => true,
                _ => false,
            };
            let clipped = element.paint_order.len() > 0 && is_frame;
            if clipped {
                push_clip_path(ops, element, tree);
            }
            proof {
                let part = only_if(clipped, content_clip(tree@, element.id));
                lemma_concat_assoc(base, acc, part);
                acc = acc + part;
            }
            svg_render_children(ops, tree, element, images, false);
            proof {
                let part = children_ops(
                    tree@,
                    element.id,
                    element.paint_order@.len(),
                    images,
                    false,
                );
                lemma_concat_assoc(base, acc, part);
                acc = acc + part;
            }
            push_when(ops, clipped, Op::Close);
            proof {
                lemma_concat_assoc(base, acc, only_if(clipped, OpView::Close));
                acc = acc + only_if(clipped, OpView::Close);
            }
            push_when(ops, element.strokes.len() > 0, Op::Draw(Draw::Strokes(element.id)));
            proof {
                let part = only_if(
                    element.strokes@.len() > 0,
                    OpView::Draw(Draw::Strokes(element.id)),
                );
                lemma_concat_assoc(base, acc, part);
                acc = acc + part;
            }
            push_op(ops, Op::Close);
            proof {
                lemma_concat_assoc(base, acc, seq![OpView::Close]);
            }
        },
    }
}

} // verus!
