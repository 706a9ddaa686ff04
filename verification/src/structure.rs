//! What holds of the steps of every export.
use vstd::prelude::*;
use vstd::string::*;

use crate::clean::{
    clean_pool, clean_shape, clean_step, lemma_blend_keyword, lemma_shadow_bodies,
};
use crate::naming::lettered;
use crate::ops::{if_any, only_if, Draw, OpView};
use crate::render::{
    children_ops, container_shadow_ops, content_clip, frame_ops, group_mask, group_ops,
    leaf_ops, leaf_shadow_group, text_stroke_ops, tree_ops,
};
use crate::shape::{Shape, Type, Uuid};
use crate::strokes::{
    concat, dotted_ops, dotted_stroke, drop_shadow_group, effects_group, image_stroke,
    image_stroke_ops, inner_shadow_group, inner_shadow_ops, path_outer_ops, path_outer_stroke,
    text_alpha_stroke, text_inner_stroke, text_outer_stroke,
};
use crate::tree::{acyclic, height, lemma_height_of_link, links};

verus! {

/// Whether a step opens a group.
pub open spec fn opens(op: OpView) -> bool {
    !(op is Draw || op is Close)
}

/// The number of groups that steps open, less those that they close.
pub open spec fn level(ops: Seq<OpView>) -> int
    decreases ops.len(),
{
    if ops.len() == 0 {
        0
    } else {
        level(ops.drop_last()) + (if opens(ops.last()) {
            1int
        } else if ops.last() is Close {
            -1int
        } else {
            0int
        })
    }
}

/// Whether steps close every group that they open and no other, those of masks among
/// themselves too.
pub open spec fn balanced(ops: Seq<OpView>) -> bool
    decreases ops,
{
    &&& level(ops) == 0
    &&& forall|i: int| 0 <= i <= ops.len() ==> level(#[trigger] ops.take(i)) >= 0
    &&& forall|i: int|
        0 <= i < ops.len() ==> (#[trigger] ops[i] matches OpView::AlphaMask(steps) ==> balanced(
            steps,
        ))
}

/// Whether the definitions that a step makes have ids with lettered names; for masks,
/// those that their steps make too.
pub open spec fn lettered_step(op: OpView) -> bool
    decreases op,
{
    match op {
        OpView::Filter { prefix, .. } => lettered(prefix),
        OpView::Confine { prefix, .. } => lettered(prefix),
        OpView::AlphaMask(steps) => forall|i: int|
            0 <= i < steps.len() ==> lettered_step(#[trigger] steps[i]),
        _ => true,
    }
}

/// Whether a step opens a group with drop shadows.
pub open spec fn casts_shadow(op: OpView) -> bool {
    op matches OpView::Filter { prefix, .. } && prefix == "shadow"@
}

// What is shown of steps: that none from `quiet` on casts a shadow, where that is given,
// and that no text of theirs begins a definition.
struct Wanted {
    quiet: Option<nat>,
    clean: bool,
}

spec fn wanted(shadows: bool, clean: bool) -> Wanted {
    Wanted {
        quiet: if shadows {
            None
        } else {
            Some(0)
        },
        clean,
    }
}

// Whether one step is as wanted at place `i`.
spec fn fits(op: OpView, i: nat, w: Wanted) -> bool {
    &&& op matches OpView::AlphaMask(steps) ==> balanced(steps)
    &&& lettered_step(op)
    &&& w.clean ==> clean_step(op)
    &&& w.quiet matches Some(from) ==> i < from || !casts_shadow(op)
}

// Whether steps that leave `k` groups open are as wanted, and close no group that they
// have not opened.
#[verifier::opaque]
spec fn sound(ops: Seq<OpView>, k: int, w: Wanted) -> bool {
    &&& level(ops) == k
    &&& forall|i: int| 0 <= i <= ops.len() ==> level(#[trigger] ops.take(i)) >= 0
    &&& forall|i: int| 0 <= i < ops.len() ==> fits(#[trigger] ops[i], i as nat, w)
}

proof fn lemma_level_concat(a: Seq<OpView>, b: Seq<OpView>)
    ensures
        level(a + b) == level(a) + level(b),
    decreases b.len(),
{
    if b.len() == 0 {
        assert(a + b =~= a);
    } else {
        lemma_level_concat(a, b.drop_last());
        assert((a + b).drop_last() =~= a + b.drop_last());
        assert((a + b).last() == b.last());
    }
}

proof fn lemma_empty(w: Wanted)
    ensures
        sound(Seq::empty(), 0, w),
{
    reveal(sound);
    let e = Seq::<OpView>::empty();
    assert forall|i: int| 0 <= i <= e.len() implies level(#[trigger] e.take(i)) >= 0 by {
        assert(e.take(i) =~= e);
    }
}

// Steps that close what they open, behind others.
proof fn lemma_append(a: Seq<OpView>, k: int, b: Seq<OpView>, w: Wanted)
    requires
        sound(a, k, w),
        sound(b, 0, wanted(w.quiet is None, w.clean)),
    ensures
        sound(a + b, k, w),
{
    reveal(sound);
    let s = a + b;
    lemma_level_concat(a, b);
    assert(a.take(a.len() as int) =~= a);
    assert forall|i: int| 0 <= i <= s.len() implies level(#[trigger] s.take(i)) >= 0 by {
        if i <= a.len() {
            assert(s.take(i) =~= a.take(i));
        } else {
            assert(s.take(i) =~= a + b.take(i - a.len()));
            lemma_level_concat(a, b.take(i - a.len()));
        }
    }
    assert forall|i: int| 0 <= i < s.len() implies fits(#[trigger] s[i], i as nat, w) by {
        if i < a.len() {
            assert(s[i] == a[i]);
        } else {
            assert(s[i] == b[i - a.len()]);
        }
    }
}

// One step behind others.
proof fn lemma_step(a: Seq<OpView>, k: int, op: OpView, w: Wanted)
    requires
        sound(a, k, w),
        fits(op, a.len(), w),
        op is Close ==> k > 0,
    ensures
        opens(op) ==> sound(a + seq![op], k + 1, w),
        op is Close ==> sound(a + seq![op], k - 1, w),
        op is Draw ==> sound(a + seq![op], k, w),
{
    reveal(sound);
    let s = a + seq![op];
    assert(s.drop_last() =~= a);
    assert(s.last() == op);
    assert(a.take(a.len() as int) =~= a);
    assert forall|i: int| 0 <= i <= s.len() implies level(#[trigger] s.take(i)) >= 0 by {
        if i <= a.len() {
            assert(s.take(i) =~= a.take(i));
        } else {
            assert(s.take(i) =~= s);
        }
    }
    assert forall|i: int| 0 <= i < s.len() implies fits(#[trigger] s[i], i as nat, w) by {
        if i < a.len() {
            assert(s[i] == a[i]);
        }
    }
}

// A group that may be there is opened behind others.
proof fn lemma_open(a: Seq<OpView>, k: int, op: Option<OpView>, w: Wanted)
    requires
        sound(a, k, w),
        op matches Some(op) ==> opens(op) && fits(op, a.len(), w),
    ensures
        op is Some ==> sound(a + if_any(op), k + 1, w),
        op is None ==> sound(a + if_any(op), k, w),
{
    match op {
        Some(op) => lemma_step(a, k, op, w),
        None => {
            assert(a + Seq::<OpView>::empty() =~= a);
        },
    }
}

// It is closed again.
proof fn lemma_close(a: Seq<OpView>, k: int, open: bool, w: Wanted)
    requires
        sound(a, k, w),
        open ==> k > 0,
    ensures
        open ==> sound(a + only_if(open, OpView::Close), k - 1, w),
        !open ==> sound(a + only_if(open, OpView::Close), k, w),
{
    if open {
        lemma_step(a, k, OpView::Close, w);
    } else {
        assert(a + Seq::<OpView>::empty() =~= a);
    }
}

// A drawing that may be there.
proof fn lemma_draw(a: Seq<OpView>, k: int, drawn: bool, op: OpView, w: Wanted)
    requires
        sound(a, k, w),
        op is Draw,
    ensures
        sound(a + only_if(drawn, op), k, w),
{
    if drawn {
        lemma_step(a, k, op, w);
    } else {
        assert(a + Seq::<OpView>::empty() =~= a);
    }
}

// The names that ids are made of.
proof fn lemma_names()
    ensures
        lettered("shadow"@),
        lettered("inshadow"@),
        "inshadow"@ != "shadow"@,
        lettered("clip"@),
        lettered("smask"@),
        lettered("simask"@),
        lettered("dclip"@),
        lettered("dmask"@),
        lettered("dimask"@),
        lettered("tclip"@),
        lettered("tmask"@),
{
    reveal_strlit("shadow");
    reveal_strlit("inshadow");
    reveal_strlit("clip");
    reveal_strlit("smask");
    reveal_strlit("simask");
    reveal_strlit("dclip");
    reveal_strlit("dmask");
    reveal_strlit("dimask");
    reveal_strlit("tclip");
    reveal_strlit("tmask");
    assert("inshadow"@.len() != "shadow"@.len());
}

// The groups of a clean shape.
proof fn lemma_groups(e: Shape, clean: bool)
    requires
        clean ==> clean_shape(e),
    ensures
        clean ==> {
            &&& effects_group(e) matches Some(op) ==> clean_step(op)
            &&& drop_shadow_group(e, true) matches Some(op) ==> clean_step(op)
            &&& drop_shadow_group(e, false) matches Some(op) ==> clean_step(op)
            &&& inner_shadow_group(e) matches Some(op) ==> clean_step(op)
        },
{
    if clean {
        lemma_blend_keyword(e.blend_mode);
        lemma_shadow_bodies(e.drop_shadows@, e.drop_region, true);
        lemma_shadow_bodies(e.drop_shadows@, e.drop_region, false);
        lemma_shadow_bodies(e.inner_shadows@, e.inner_region, true);
    }
}

// A group around one drawing.
proof fn lemma_group_of_draw(op: OpView, draw: OpView, w: Wanted)
    requires
        opens(op),
        fits(op, 0, w),
        draw is Draw,
    ensures
        sound(seq![op, draw, OpView::Close], 0, w),
{
    let none = Seq::<OpView>::empty();
    lemma_empty(w);
    lemma_step(none, 0, op, w);
    lemma_step(none + seq![op], 1, draw, w);
    lemma_step(none + seq![op] + seq![draw], 1, OpView::Close, w);
    assert(none + seq![op] + seq![draw] + seq![OpView::Close] =~= seq![op, draw, OpView::Close]);
}

proof fn lemma_sum(n: nat, f: spec_fn(int) -> Seq<OpView>, shadows: bool, clean: bool)
    requires
        forall|i: int| 0 <= i < n ==> sound(#[trigger] f(i), 0, wanted(shadows, clean)),
    ensures
        sound(concat(n, f), 0, wanted(shadows, clean)),
    decreases n,
{
    if n == 0 {
        lemma_empty(wanted(shadows, clean));
    } else {
        lemma_sum((n - 1) as nat, f, shadows, clean);
        lemma_append(concat((n - 1) as nat, f), 0, f(n - 1), wanted(shadows, clean));
    }
}

proof fn lemma_inner_shadows(e: Shape, shadows: bool, clean: bool)
    requires
        clean ==> clean_shape(e),
    ensures
        sound(inner_shadow_ops(e), 0, wanted(shadows, clean)),
{
    lemma_names();
    lemma_empty(wanted(shadows, clean));
    lemma_groups(e, clean);
    if let Some(group) = inner_shadow_group(e) {
        if inner_shadow_ops(e).len() > 0 {
            lemma_group_of_draw(group, inner_shadow_ops(e)[1], wanted(shadows, clean));
        }
    }
}

proof fn lemma_outer_strokes(e: Shape, shadows: bool, clean: bool)
    requires
        clean ==> clean_shape(e),
    ensures
        sound(path_outer_ops(e), 0, wanted(shadows, clean)),
        sound(dotted_ops(e), 0, wanted(shadows, clean)),
{
    lemma_names();
    lemma_empty(wanted(shadows, clean));
    let n = e.strokes@.len();
    let f = |i: int| path_outer_stroke(e, i);
    assert forall|i: int| 0 <= i < n implies sound(#[trigger] f(i), 0, wanted(shadows, clean)) by {
        let s = path_outer_stroke(e, i);
        if s.len() > 0 {
            lemma_group_of_draw(s[0], s[1], wanted(shadows, clean));
        }
    }
    lemma_sum(n, f, shadows, clean);
    let g = |i: int| dotted_stroke(e, i);
    assert forall|i: int| 0 <= i < n implies sound(#[trigger] g(i), 0, wanted(shadows, clean)) by {
        let s = dotted_stroke(e, i);
        if s.len() > 0 {
            lemma_group_of_draw(s[0], s[1], wanted(shadows, clean));
        }
    }
    lemma_sum(n, g, shadows, clean);
}

proof fn lemma_image_strokes(e: Shape, images: bool, shadows: bool, clean: bool)
    requires
        clean ==> clean_shape(e),
    ensures
        sound(image_stroke_ops(e, images), 0, wanted(shadows, clean)),
{
    lemma_names();
    lemma_empty(wanted(shadows, clean));
    let n = e.strokes@.len();
    let f = |i: int| image_stroke(e, i);
    assert forall|i: int| 0 <= i < n implies sound(#[trigger] f(i), 0, wanted(shadows, clean)) by {
        let q = wanted(shadows, clean);
        let s = image_stroke(e, i);
        if s.len() == 3 {
            lemma_group_of_draw(s[0], s[1], q);
        } else if s.len() > 0 {
            let none = Seq::<OpView>::empty();
            let inner = seq![s[1], s[2], OpView::Close];
            lemma_group_of_draw(s[1], s[2], q);
            lemma_step(none, 0, s[0], q);
            lemma_append(none + seq![s[0]], 1, inner, q);
            lemma_step(none + seq![s[0]] + inner, 1, OpView::Close, q);
            assert(none + seq![s[0]] + inner + seq![OpView::Close] =~= s);
        }
    }
    lemma_sum(n, f, shadows, clean);
}

proof fn lemma_text_strokes(e: Shape, shadows: bool, clean: bool)
    requires
        clean ==> clean_shape(e),
    ensures
        sound(text_stroke_ops(e), 0, wanted(shadows, clean)),
{
    lemma_names();
    lemma_empty(wanted(shadows, clean));
    let n = e.strokes@.len();
    let f = |i: int| text_alpha_stroke(e, i);
    assert forall|i: int| 0 <= i < n implies sound(#[trigger] f(i), 0, wanted(shadows, clean)) by {
        let s = text_alpha_stroke(e, i);
        if s.len() > 0 {
            lemma_group_of_draw(s[0], s[1], wanted(shadows, clean));
        }
    }
    lemma_sum(n, f, shadows, clean);
    let g = |i: int| text_inner_stroke(e, i);
    assert forall|i: int| 0 <= i < n implies sound(#[trigger] g(i), 0, wanted(shadows, clean)) by {
        let s = text_inner_stroke(e, i);
        if s.len() > 0 {
            lemma_group_of_draw(s[0], s[1], wanted(shadows, clean));
        }
    }
    lemma_sum(n, g, shadows, clean);
    let h = |i: int| text_outer_stroke(e, i);
    assert forall|i: int| 0 <= i < n implies sound(#[trigger] h(i), 0, wanted(shadows, clean)) by {
        let s = text_outer_stroke(e, i);
        if s.len() > 0 {
            lemma_group_of_draw(s[0], s[1], wanted(shadows, clean));
        }
    }
    lemma_sum(n, h, shadows, clean);
    lemma_append(concat(n, f), 0, concat(n, g), wanted(shadows, clean));
    lemma_append(concat(n, f) + concat(n, g), 0, concat(n, h), wanted(shadows, clean));
}

proof fn lemma_leaf(e: Shape, images: bool, shadows: bool, clean: bool)
    requires
        clean ==> clean_shape(e),
    ensures
        sound(leaf_ops(e, images, shadows), 0, wanted(shadows, clean)),
{
    let q = wanted(shadows, clean);
    lemma_names();
    lemma_empty(q);
    lemma_inner_shadows(e, shadows, clean);
    lemma_outer_strokes(e, shadows, clean);
    lemma_image_strokes(e, images, shadows, clean);
    lemma_text_strokes(e, shadows, clean);
    lemma_groups(e, clean);
    let effects = effects_group(e);
    let shadow = leaf_shadow_group(e, shadows);
    let k: int = if effects is Some {
        1
    } else {
        0
    };
    let l: int = if shadow is Some {
        k + 1
    } else {
        k
    };
    lemma_open(Seq::empty(), 0, effects, q);
    let acc = if_any(effects);
    assert(Seq::<OpView>::empty() + if_any(effects) =~= acc);
    lemma_open(acc, k, shadow, q);
    let acc = acc + if_any(shadow);
    lemma_step(acc, l, OpView::Draw(Draw::Leaf(e.id)), q);
    let acc = acc + seq![OpView::Draw(Draw::Leaf(e.id))];
    lemma_append(acc, l, inner_shadow_ops(e), q);
    let acc = acc + inner_shadow_ops(e);
    lemma_append(acc, l, path_outer_ops(e), q);
    let acc = acc + path_outer_ops(e);
    lemma_append(acc, l, dotted_ops(e), q);
    let acc = acc + dotted_ops(e);
    lemma_append(acc, l, image_stroke_ops(e, images), q);
    let acc = acc + image_stroke_ops(e, images);
    lemma_append(acc, l, text_stroke_ops(e), q);
    let acc = acc + text_stroke_ops(e);
    lemma_close(acc, l, shadow is Some, q);
    let acc = acc + only_if(shadow is Some, OpView::Close);
    lemma_close(acc, k, effects is Some, q);
}

// The steps of a shape and all below it.
proof fn lemma_tree(pool: Map<Uuid, Shape>, id: Uuid, images: bool, shadows: bool, clean: bool)
    requires
        clean ==> clean_pool(pool),
        acyclic(pool, id),
    ensures
        sound(tree_ops(pool, id, images, shadows), 0, wanted(shadows, clean)),
    decreases height(pool, id), 3int, 0nat,
{
    if !pool.contains_key(id) || pool[id].hidden {
        lemma_empty(wanted(shadows, clean));
    } else {
        match pool[id].shape_type {
            Type::Group(group) => lemma_group(pool, id, group.masked, images, shadows, clean),
            Type::Frame => lemma_frame(pool, id, images, shadows, clean),
            _ => lemma_leaf(pool[id], images, shadows, clean),
        }
    }
}

proof fn lemma_children(pool: Map<Uuid, Shape>, id: Uuid, n: nat, images: bool, shadows: bool, clean: bool)
    requires
        clean ==> clean_pool(pool),
        acyclic(pool, id),
        pool.contains_key(id),
        n <= pool[id].paint_order@.len(),
    ensures
        sound(children_ops(pool, id, n, images, shadows), 0, wanted(shadows, clean)),
    decreases height(pool, id), 0int, n,
{
    if n == 0 {
        lemma_empty(wanted(shadows, clean));
    } else {
        let child = pool[id].paint_order@[n - 1];
        assert(pool[id].paint_order@.contains(child));
        lemma_height_of_link(pool, id, child);
        lemma_children(pool, id, (n - 1) as nat, images, shadows, clean);
        lemma_tree(pool, child, images, shadows, clean);
        lemma_append(
            children_ops(pool, id, (n - 1) as nat, images, shadows),
            0,
            tree_ops(pool, child, images, shadows),
            wanted(shadows, clean),
        );
    }
}

// The silhouette that casts a container's drop shadow casts none itself.
proof fn lemma_container_shadow(pool: Map<Uuid, Shape>, id: Uuid, images: bool, clean: bool)
    requires
        clean ==> clean_pool(pool),
        acyclic(pool, id),
        pool.contains_key(id),
    ensures
        sound(container_shadow_ops(pool, id, images), 0, Wanted { quiet: Some(1), clean }),
    decreases height(pool, id), 1int, 0nat,
{
    let e = pool[id];
    let q = Wanted { quiet: Some(1), clean };
    lemma_names();
    lemma_groups(e, clean);
    lemma_empty(q);
    match drop_shadow_group(e, false) {
        None => {},
        Some(group) => {
            let clipped = e.paint_order@.len() > 0 && e.shape_type is Frame;
            let n = e.paint_order@.len();
            let clip = if clipped {
                Some(content_clip(pool, id))
            } else {
                None
            };
            let k: int = if clipped {
                2
            } else {
                1
            };
            let children = children_ops(pool, id, n, images, false);
            lemma_children(pool, id, n, images, false, clean);
            lemma_step(Seq::empty(), 0, group, q);
            let acc = seq![group];
            assert(Seq::<OpView>::empty() + seq![group] =~= acc);
            lemma_draw(acc, 1, e.has_fills(), OpView::Draw(Draw::Fills(e.id)), q);
            let acc = acc + only_if(e.has_fills(), OpView::Draw(Draw::Fills(e.id)));
            lemma_open(acc, 1, clip, q);
            let acc = acc + only_if(clipped, content_clip(pool, id));
            lemma_append(acc, k, children, q);
            let acc = acc + children;
            lemma_close(acc, k, clipped, q);
            let acc = acc + only_if(clipped, OpView::Close);
            lemma_draw(acc, 1, e.strokes@.len() > 0, OpView::Draw(Draw::Strokes(e.id)), q);
            let acc = acc + only_if(e.strokes@.len() > 0, OpView::Draw(Draw::Strokes(e.id)));
            lemma_step(acc, 1, OpView::Close, q);
        },
    }
}

// The drop shadow that a container has of its own.
spec fn own_shadow(pool: Map<Uuid, Shape>, id: Uuid, images: bool, shadows: bool) -> Seq<OpView> {
    if shadows {
        container_shadow_ops(pool, id, images)
    } else {
        Seq::empty()
    }
}

proof fn lemma_own_shadow(pool: Map<Uuid, Shape>, id: Uuid, images: bool, shadows: bool, clean: bool)
    requires
        clean ==> clean_pool(pool),
        acyclic(pool, id),
        pool.contains_key(id),
    ensures
        sound(own_shadow(pool, id, images, shadows), 0, wanted(shadows, clean)),
    decreases height(pool, id), 1int, 1nat,
{
    lemma_empty(wanted(shadows, clean));
    if shadows {
        lemma_container_shadow(pool, id, images, clean);
        reveal(sound);
    }
}

proof fn lemma_group(
    pool: Map<Uuid, Shape>,
    id: Uuid,
    masked: bool,
    images: bool,
    shadows: bool,
    clean: bool,
)
    requires
        clean ==> clean_pool(pool),
        acyclic(pool, id),
        pool.contains_key(id),
    ensures
        sound(group_ops(pool, id, masked, images, shadows), 0, wanted(shadows, clean)),
    decreases height(pool, id), 2int, 0nat,
{
    let q = wanted(shadows, clean);
    let e = pool[id];
    let n = e.paint_order@.len();
    lemma_groups(e, clean);
    let effects = effects_group(e);
    let k: int = if effects is Some {
        1
    } else {
        0
    };
    lemma_empty(q);
    lemma_own_shadow(pool, id, images, shadows, clean);
    lemma_children(pool, id, n, images, shadows, clean);
    let mask = match group_mask(pool, e, masked) {
        Some(mask) => Some(OpView::AlphaMask(tree_ops(pool, mask, images, true))),
        None => None,
    };
    if let Some(m) = group_mask(pool, e, masked) {
        assert(links(e, m));
        lemma_height_of_link(pool, id, m);
        lemma_tree(pool, m, images, true, clean);
        lemma_sound(tree_ops(pool, m, images, true), wanted(true, clean));
    }
    let l: int = if mask is Some {
        k + 1
    } else {
        k
    };
    lemma_open(Seq::empty(), 0, effects, q);
    let acc = if_any(effects);
    assert(Seq::<OpView>::empty() + if_any(effects) =~= acc);
    lemma_append(acc, k, own_shadow(pool, id, images, shadows), q);
    let acc = acc + own_shadow(pool, id, images, shadows);
    lemma_open(acc, k, mask, q);
    let acc = acc + if_any(mask);
    lemma_append(acc, l, children_ops(pool, id, n, images, shadows), q);
    let acc = acc + children_ops(pool, id, n, images, shadows);
    lemma_close(acc, l, mask is Some, q);
    let acc = acc + only_if(mask is Some, OpView::Close);
    lemma_close(acc, k, effects is Some, q);
    let acc = acc + only_if(effects is Some, OpView::Close);
    assert(acc == group_ops(pool, id, masked, images, shadows));
}

proof fn lemma_frame(pool: Map<Uuid, Shape>, id: Uuid, images: bool, shadows: bool, clean: bool)
    requires
        clean ==> clean_pool(pool),
        acyclic(pool, id),
        pool.contains_key(id),
    ensures
        sound(frame_ops(pool, id, images, shadows), 0, wanted(shadows, clean)),
    decreases height(pool, id), 2int, 0nat,
{
    let q = wanted(shadows, clean);
    let e = pool[id];
    let n = e.paint_order@.len();
    lemma_groups(e, clean);
    let effects = effects_group(e);
    let k: int = if effects is Some {
        1
    } else {
        0
    };
    let clip = if e.clip_content {
        Some(content_clip(pool, id))
    } else {
        None
    };
    let l: int = if e.clip_content {
        k + 1
    } else {
        k
    };
    let fills = only_if(e.has_fills(), OpView::Draw(Draw::Fills(e.id)));
    let children = children_ops(pool, id, n, images, shadows);
    let stroke = seq![OpView::Draw(Draw::Strokes(e.id))];
    let strokes = if e.strokes@.len() > 0 {
        stroke + image_stroke_ops(e, images)
    } else {
        Seq::empty()
    };
    lemma_names();
    lemma_empty(q);
    lemma_own_shadow(pool, id, images, shadows, clean);
    lemma_inner_shadows(e, shadows, clean);
    lemma_children(pool, id, n, images, shadows, clean);
    lemma_image_strokes(e, images, shadows, clean);
    lemma_step(Seq::empty(), 0, OpView::Draw(Draw::Strokes(e.id)), q);
    assert(Seq::<OpView>::empty() + stroke =~= stroke);
    lemma_append(stroke, 0, image_stroke_ops(e, images), q);
    lemma_open(Seq::empty(), 0, effects, q);
    let acc = if_any(effects);
    assert(Seq::<OpView>::empty() + if_any(effects) =~= acc);
    lemma_append(acc, k, own_shadow(pool, id, images, shadows), q);
    let acc = acc + own_shadow(pool, id, images, shadows);
    lemma_open(acc, k, clip, q);
    let acc = acc + only_if(e.clip_content, content_clip(pool, id));
    lemma_draw(acc, l, e.has_fills(), OpView::Draw(Draw::Fills(e.id)), q);
    let acc = acc + fills;
    lemma_append(acc, l, inner_shadow_ops(e), q);
    let acc = acc + inner_shadow_ops(e);
    lemma_append(acc, l, children, q);
    let acc = acc + children;
    lemma_append(acc, l, strokes, q);
    let acc = acc + strokes;
    lemma_close(acc, l, e.clip_content, q);
    let acc = acc + only_if(e.clip_content, OpView::Close);
    lemma_close(acc, k, effects is Some, q);
    let acc = acc + only_if(effects is Some, OpView::Close);
    assert(acc == frame_ops(pool, id, images, shadows));
}

proof fn lemma_sound(ops: Seq<OpView>, w: Wanted)
    requires
        sound(ops, 0, w),
    ensures
        balanced(ops),
        forall|i: int| 0 <= i < ops.len() ==> lettered_step(#[trigger] ops[i]),
        w.clean ==> forall|i: int| 0 <= i < ops.len() ==> clean_step(#[trigger] ops[i]),
        w.quiet matches Some(from) ==> forall|i: int|
            from <= i < ops.len() ==> !casts_shadow(#[trigger] ops[i]),
{
    reveal(sound);
}

/// An export closes every group that it opens, and no other.
pub proof fn export_is_balanced(
    pool: Map<Uuid, Shape>,
    id: Uuid,
    images: bool,
    render_shadows: bool,
)
    requires
        acyclic(pool, id),
    ensures
        balanced(tree_ops(pool, id, images, render_shadows)),
{
    lemma_tree(pool, id, images, render_shadows, false);
    lemma_sound(tree_ops(pool, id, images, render_shadows), wanted(render_shadows, false));
}

/// The definitions of an export have ids made of letters and a number.
pub proof fn export_is_lettered(
    pool: Map<Uuid, Shape>,
    id: Uuid,
    images: bool,
    render_shadows: bool,
)
    requires
        acyclic(pool, id),
    ensures
        forall|i: int|
            0 <= i < tree_ops(pool, id, images, render_shadows).len() ==> lettered_step(
                #[trigger] tree_ops(pool, id, images, render_shadows)[i],
            ),
{
    lemma_tree(pool, id, images, render_shadows, false);
    lemma_sound(tree_ops(pool, id, images, render_shadows), wanted(render_shadows, false));
}

/// Where shadows are not rendered, no shape casts one. What a mask is made of is not
/// touched by that.
pub proof fn silhouette_casts_no_shadow(
    pool: Map<Uuid, Shape>,
    id: Uuid,
    images: bool,
    i: int,
)
    requires
        acyclic(pool, id),
        0 <= i < tree_ops(pool, id, images, false).len(),
    ensures
        !casts_shadow(tree_ops(pool, id, images, false)[i]),
{
    lemma_tree(pool, id, images, false, false);
    lemma_sound(tree_ops(pool, id, images, false), wanted(false, false));
}

/// The drop shadow of a container is cast once: by the group around its silhouette, and
/// by no shape in it.
pub proof fn container_casts_one_shadow(pool: Map<Uuid, Shape>, id: Uuid, images: bool, i: int)
    requires
        acyclic(pool, id),
        pool.contains_key(id),
        0 <= i < container_shadow_ops(pool, id, images).len(),
    ensures
        casts_shadow(container_shadow_ops(pool, id, images)[i]) <==> i == 0,
{
    lemma_container_shadow(pool, id, images, false);
    lemma_sound(
        container_shadow_ops(pool, id, images),
        Wanted { quiet: Some(1), clean: false },
    );
}

/// Where no text of a shape begins a definition, no text of an export does.
pub proof fn export_is_clean(
    pool: Map<Uuid, Shape>,
    id: Uuid,
    images: bool,
    render_shadows: bool,
)
    requires
        clean_pool(pool),
        acyclic(pool, id),
    ensures
        forall|i: int|
            0 <= i < tree_ops(pool, id, images, render_shadows).len() ==> clean_step(
                #[trigger] tree_ops(pool, id, images, render_shadows)[i],
            ),
{
    lemma_tree(pool, id, images, render_shadows, true);
    lemma_sound(tree_ops(pool, id, images, render_shadows), wanted(render_shadows, true));
}

} // verus!
