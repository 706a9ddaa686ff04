//! What a canvas writes, step by step.
use vstd::prelude::*;
use vstd::string::*;

use crate::body::inner_svg;
use crate::compose::{
    blur_def, confinement_attrs, confinement_def, effects_attrs, filter_def, opacity_attr,
    reference, run, step, LayerView,
};
use crate::consistency::run_takes_every_fragment;
use crate::document::{composed, export_fragments, svg_document, Page};
use crate::fragments::{ends_drawing, fragments, lemma_fragment_begun};
use crate::ids::{defined_ids, remapped, remapped_of};
use crate::markup::{
    attr, attr_if, confinement_is_written, document_is_written, effects_are_written,
    opacity_is_written, preamble, reference_is_written, root_tag, url,
};
use crate::ops::{Confinement, Draw, OpView};
use crate::render::tree_ops;
use crate::shape::{Shape, Uuid};
use crate::text::{blank, decimal};

verus! {

/// The markup that a fragment document brings under a number: the inside of its root,
/// with its ids behind a prefix that no other number has; nothing where it is blank.
pub open spec fn merged_markup(doc: Seq<char>, number: nat) -> Seq<char> {
    if blank(inner_svg(doc)) {
        Seq::empty()
    } else {
        remapped(inner_svg(doc), "f"@ + decimal(number) + "_"@)
    }
}

/// The markup of the pending fragment, if there is one, under a number.
pub open spec fn pending_markup(l: LayerView, number: nat, docs: Seq<Seq<char>>) -> Seq<char> {
    match l.pending {
        Some(k) => merged_markup(docs[k], number),
        None => Seq::empty(),
    }
}

/// Whether there is a pending fragment that brings markup.
pub open spec fn pending_shows(l: LayerView, docs: Seq<Seq<char>>) -> bool {
    l.pending matches Some(k) && !blank(inner_svg(docs[k]))
}

/// The number of fragments that a flush merges.
pub open spec fn merged_count(l: LayerView, docs: Seq<Seq<char>>) -> nat {
    if pending_shows(l, docs) {
        1
    } else {
        0
    }
}

/// A flush writes the markup of the pending fragment, under the next number, and changes
/// nothing else; a blank fragment takes no number.
pub proof fn flush_writes_the_pending_fragment(l: LayerView, docs: Seq<Seq<char>>)
    ensures
        ({
            let to = l.flushed(docs);
            let shows = l.pending matches Some(k) && !blank(inner_svg(docs[k]));
            &&& shows ==> to.out == l.out + remapped(
                inner_svg(docs[l.pending->0]),
                "f"@ + decimal(l.frag_no) + "_"@,
            ) && to.frag_no == l.frag_no + 1
            &&& !shows ==> to.out == l.out && to.frag_no == l.frag_no
            &&& to.out == l.out + pending_markup(l, l.frag_no, docs)
            &&& to.frag_no == l.frag_no + merged_count(l, docs)
            &&& to.pending is None
            &&& to.defs == l.defs
            &&& to.ids == l.ids
            &&& to.cache == l.cache
        }),
{
    assert(l.out + Seq::<char>::empty() =~= l.out);
}

/// A drawing writes nothing yet. It joins the pending fragment, or begins one.
pub proof fn drawing_writes_nothing_yet(
    l: LayerView,
    next: nat,
    op: OpView,
    docs: Seq<Seq<char>>,
)
    requires
        op is Draw,
    ensures
        ({
            let (to, behind) = step(l, next, op, docs);
            &&& to == (LayerView { pending: to.pending, ..l })
            &&& l.pending is Some ==> to.pending == l.pending && behind == next
            &&& l.pending is None ==> to.pending == Some(next as int) && behind == next + 1
        }),
{
}

/// A step that closes a group writes the pending fragment, then the closing tag.
pub proof fn closing_writes_an_end_tag(
    l: LayerView,
    next: nat,
    op: OpView,
    docs: Seq<Seq<char>>,
)
    requires
        op is Close,
    ensures
        ({
            let (to, behind) = step(l, next, op, docs);
            &&& to.out == l.out + pending_markup(l, l.frag_no, docs) + "</g>"@
            &&& to == (LayerView { out: to.out, ..l.flushed(docs) })
            &&& behind == next
        }),
{
    flush_writes_the_pending_fragment(l, docs);
}

proof fn lemma_opened(l: LayerView, attrs: Seq<char>, tag: Seq<char>, docs: Seq<Seq<char>>)
    requires
        "<g "@ + attrs + ">"@ == tag,
    ensures
        l.opened(attrs, docs).out == l.out + pending_markup(l, l.frag_no, docs) + tag,
        l.opened(attrs, docs) == (LayerView {
            out: l.opened(attrs, docs).out,
            ..l.flushed(docs)
        }),
{
    flush_writes_the_pending_fragment(l, docs);
    let before = l.flushed(docs).out;
    assert(before + "<g "@ + attrs + ">"@ =~= before + ("<g "@ + attrs + ">"@));
}

/// A step that asks for effects opens a group with an attribute for each of them. A blur
/// is defined, under an id of its own.
pub proof fn effects_open_a_group(
    l: LayerView,
    next: nat,
    opacity: Option<Seq<char>>,
    blend: Option<Seq<char>>,
    blur: Option<Seq<char>>,
    docs: Seq<Seq<char>>,
)
    requires
        opacity is Some || blend is Some || blur is Some,
    ensures
        ({
            let (to, behind) = step(l, next, OpView::Effects { opacity, blend, blur }, docs);
            let id = "blur"@ + decimal(l.ids.len());
            let style = match blend {
                Some(css) => Some("mix-blend-mode:"@ + css),
                None => None,
            };
            let filter = match blur {
                Some(_) => Some(url(id)),
                None => None,
            };
            &&& to.out == l.out + pending_markup(l, l.frag_no, docs) + ("<g"@ + (attr_if(
                "opacity"@,
                opacity,
            ) + attr_if("style"@, style) + attr_if("filter"@, filter)) + ">"@)
            &&& blur matches Some(sigma) ==> to.defs == l.defs + blur_def(id, sigma) && to.ids
                == l.ids.push(id)
            &&& blur is None ==> to.defs == l.defs && to.ids == l.ids
            &&& to.pending is None
            &&& to.frag_no == l.frag_no + merged_count(l, docs)
            &&& to.cache == l.cache
            &&& behind == next
        }),
{
    let id = "blur"@ + decimal(l.ids.len());
    let filter = match blur {
        Some(_) => Some(id),
        None => None,
    };
    effects_are_written(opacity, blend, filter);
    let defined = match blur {
        Some(sigma) => l.with_id("blur"@).with_def(blur_def(id, sigma)),
        None => l,
    };
    let attrs = effects_attrs(opacity, blend, filter);
    lemma_opened(defined, attrs, "<g "@ + attrs + ">"@, docs);
}

/// A step that asks for a filter opens a group that refers to it. The filter is defined,
/// under an id of its own, unless one with the same body is there, which is shared then.
pub proof fn filter_opens_a_group(
    l: LayerView,
    next: nat,
    prefix: Seq<char>,
    body: Seq<char>,
    docs: Seq<Seq<char>>,
)
    ensures
        ({
            let (to, behind) = step(l, next, OpView::Filter { prefix, body }, docs);
            let shared = l.cache.contains_key(body);
            let id = if shared {
                l.cache[body]
            } else {
                prefix + decimal(l.ids.len())
            };
            &&& to.out == l.out + pending_markup(l, l.frag_no, docs) + ("<g"@ + attr(
                "filter"@,
                url(id),
            ) + ">"@)
            &&& shared ==> to.defs == l.defs && to.ids == l.ids && to.cache == l.cache
            &&& !shared ==> to.defs == l.defs + filter_def(id, body) && to.ids == l.ids.push(id)
                && to.cache == l.cache.insert(body, id)
            &&& to.pending is None
            &&& to.frag_no == l.frag_no + merged_count(l, docs)
            &&& behind == next
        }),
{
    let id = l.filter_id(prefix, body);
    reference_is_written("filter"@, id);
    let attrs = reference("filter"@, id);
    lemma_opened(l.with_filter(prefix, body), attrs, "<g "@ + attrs + ">"@, docs);
}

/// A step that confines what follows opens a group that refers to a clip path or a mask,
/// and has an opacity where one is asked for. What confines it is defined, under an id of
/// its own: the next fragment, merged under the next number.
pub proof fn confinement_opens_a_group(
    l: LayerView,
    next: nat,
    kind: Confinement,
    prefix: Seq<char>,
    draws: Seq<Draw>,
    opacity: Option<Seq<char>>,
    docs: Seq<Seq<char>>,
)
    ensures
        ({
            let (to, behind) = step(
                l,
                next,
                OpView::Confine { kind, prefix, draws, opacity },
                docs,
            );
            let id = prefix + decimal(l.ids.len());
            let name = if kind is ClipPath {
                "clip-path"@
            } else {
                "mask"@
            };
            &&& to.out == l.out + pending_markup(l, l.frag_no + 1, docs) + ("<g"@ + (attr(
                name,
                url(id),
            ) + attr_if("opacity"@, opacity)) + ">"@)
            &&& to.defs == l.defs + confinement_def(
                kind,
                id,
                remapped(inner_svg(docs[next as int]), "f"@ + decimal(l.frag_no) + "_"@),
            )
            &&& to.ids == l.ids.push(id)
            &&& to.pending is None
            &&& to.frag_no == l.frag_no + 1 + merged_count(l, docs)
            &&& to.cache == l.cache
            &&& behind == next + 1
        }),
{
    let id = prefix + decimal(l.ids.len());
    confinement_is_written(kind, id, opacity);
    let attrs = confinement_attrs(kind, id, opacity);
    lemma_opened(
        l.with_id(prefix).with_confinement(kind, id, docs[next as int]),
        attrs,
        "<g "@ + attrs + ">"@,
        docs,
    );
}

/// A step that asks for an opacity opens a group with it.
pub proof fn opacity_opens_a_group(
    l: LayerView,
    next: nat,
    opacity: Seq<char>,
    docs: Seq<Seq<char>>,
)
    ensures
        ({
            let (to, behind) = step(l, next, OpView::Opacity(opacity), docs);
            &&& to.out == l.out + pending_markup(l, l.frag_no, docs) + ("<g"@ + attr(
                "opacity"@,
                opacity,
            ) + ">"@)
            &&& to == (LayerView { out: to.out, ..l.flushed(docs) })
            &&& behind == next
        }),
{
    opacity_is_written(opacity);
    let attrs = opacity_attr(opacity);
    lemma_opened(l, attrs, "<g "@ + attrs + ">"@, docs);
}

/// A step that asks for a mask with steps of its own takes these on a new canvas, and
/// opens a group that refers to the mask. What that canvas defined and wrote becomes the
/// definitions and the content of the mask, with its ids behind a prefix of the mask.
pub proof fn mask_opens_a_group(
    l: LayerView,
    next: nat,
    steps: Seq<OpView>,
    docs: Seq<Seq<char>>,
)
    ensures
        ({
            let (to, behind) = step(l, next, OpView::AlphaMask(steps), docs);
            let (drawn, after) = run(LayerView::new(), next, steps, docs);
            let content = drawn.out + pending_markup(drawn, drawn.frag_no, docs);
            let ids = defined_ids(drawn.defs) + defined_ids(content);
            let name = "m"@ + decimal(l.ids.len());
            let id = "mask"@ + decimal(l.ids.len() + 1);
            &&& to.out == l.out + pending_markup(l, l.frag_no, docs) + ("<g"@ + attr(
                "mask"@,
                url(id),
            ) + ">"@)
            &&& to.defs == l.defs + (remapped_of(drawn.defs, ids, name + "_"@) + confinement_def(
                Confinement::AlphaMask,
                id,
                remapped_of(content, ids, name + "_"@),
            ))
            &&& to.ids == l.ids.push(name).push(id)
            &&& to.pending is None
            &&& to.frag_no == l.frag_no + merged_count(l, docs)
            &&& to.cache == l.cache
            &&& behind == after
        }),
{
    let id = l.mask_id();
    reference_is_written("mask"@, id);
    let drawn = run(LayerView::new(), next, steps, docs).0;
    flush_writes_the_pending_fragment(drawn, docs);
    let mask = drawn.flushed(docs);
    lemma_mask_defs(l, mask);
    let attrs = reference("mask"@, id);
    lemma_opened(l.with_mask(mask), attrs, "<g "@ + attrs + ">"@, docs);
}

proof fn lemma_mask_defs(l: LayerView, mask: LayerView)
    ensures
        ({
            let ids = defined_ids(mask.defs) + defined_ids(mask.out);
            let prefix = "m"@ + decimal(l.ids.len()) + "_"@;
            let id = "mask"@ + decimal(l.ids.len() + 1);
            &&& l.mask_id() == id
            &&& l.with_mask(mask).defs == l.defs + (remapped_of(mask.defs, ids, prefix)
                + confinement_def(Confinement::AlphaMask, id, remapped_of(mask.out, ids, prefix)))
        }),
{
    let ids = mask.all_ids();
    let prefix = l.mask_prefix();
    let a = remapped_of(mask.defs, ids, prefix);
    let b = confinement_def(
        Confinement::AlphaMask,
        l.mask_id(),
        remapped_of(mask.out, ids, prefix),
    );
    assert(l.defs + a + b =~= l.defs + (a + b));
}

/// Steps are taken one after the other: to take some, and then others, is to take all of
/// them; to take one is that step; to take none changes nothing.
pub proof fn steps_are_taken_in_order(
    l: LayerView,
    next: nat,
    ops: Seq<OpView>,
    more: Seq<OpView>,
    op: OpView,
    docs: Seq<Seq<char>>,
)
    ensures
        run(l, next, Seq::empty(), docs) == (l, next),
        run(l, next, seq![op], docs) == step(l, next, op, docs),
        ({
            let (between, n) = run(l, next, ops, docs);
            run(l, next, ops + more, docs) == run(between, n, more, docs)
        }),
    decreases more.len(),
{
    let none = Seq::<OpView>::empty();
    assert(seq![op].drop_last() =~= none);
    assert(run(l, next, none, docs) == (l, next));
    assert(run(l, next, seq![op], docs) == step(l, next, op, docs));
    let (between, n) = run(l, next, ops, docs);
    if more.len() == 0 {
        assert(ops + more =~= ops);
    } else {
        let init = more.drop_last();
        steps_are_taken_in_order(l, next, ops, init, op, docs);
        let all = ops + more;
        assert(all.drop_last() =~= ops + init);
        assert(all.last() == more.last());
        let (a, i) = run(l, next, all.drop_last(), docs);
        assert(run(l, next, all, docs) == step(a, i, all.last(), docs));
        let (b, j) = run(between, n, init, docs);
        assert(run(between, n, more, docs) == step(b, j, more.last(), docs));
    }
}

/// A new canvas is empty.
pub proof fn new_canvas_is_empty()
    ensures
        ({
            let l = LayerView::new();
            &&& l.out.len() == 0
            &&& l.defs.len() == 0
            &&& l.pending is None
            &&& l.ids.len() == 0
            &&& l.frag_no == 0
            &&& forall|body: Seq<char>| !#[trigger] l.cache.contains_key(body)
        }),
{
}

/// An export takes all steps of the tree, shadows included, on a new canvas, and writes
/// the fragment that is pending behind them; the document holds what it wrote, and has the
/// size and the fonts of the page.
pub proof fn export_is_what_the_tree_shows(
    pool: Map<Uuid, Shape>,
    id: Uuid,
    images: bool,
    page: Page,
    docs: Seq<Seq<char>>,
)
    ensures
        ({
            let ops = tree_ops(pool, id, images, true);
            let l = run(LayerView::new(), 0, ops, docs).0;
            &&& export_fragments(pool, id, images) == fragments(ops)
            &&& composed(pool, id, images, docs).out == l.out + pending_markup(l, l.frag_no, docs)
            &&& composed(pool, id, images, docs).defs == l.defs
            &&& svg_document(pool, id, images, page, docs)
                == "<?xml version=\"1.0\" encoding=\"utf-8\" ?>\n"@ + root_tag(
                page.width@,
                page.height@,
            ) + preamble(page.font_css@, l.defs) + (l.out + pending_markup(l, l.frag_no, docs))
                + "</svg>"@
        }),
{
    let l = run(LayerView::new(), 0, tree_ops(pool, id, images, true), docs).0;
    flush_writes_the_pending_fragment(l, docs);
    let layer = composed(pool, id, images, docs);
    document_is_written(page.width@, page.height@, page.font_css@, layer.defs, layer.out);
}

/// Drawings are taken from the document of the fragment that they were drawn on: where the
/// last step draws, the last of the fragments that the steps draw is pending, and else
/// none.
pub proof fn pending_fragment_is_the_last_drawn(
    l: LayerView,
    next: nat,
    ops: Seq<OpView>,
    docs: Seq<Seq<char>>,
)
    requires
        l.pending is None,
    ensures
        run(l, next, ops, docs).0.pending == (if ends_drawing(ops) {
            Some(next + fragments(ops).len() - 1)
        } else {
            None
        }),
    decreases ops.len(),
{
    if ops.len() > 0 {
        let init = ops.drop_last();
        let op = ops.last();
        let (before, n) = run(l, next, init, docs);
        run_takes_every_fragment(l, next, init, docs);
        pending_fragment_is_the_last_drawn(l, next, init, docs);
        assert(run(l, next, ops, docs) == step(before, n, op, docs));
        lemma_fragment_begun(init);
    }
}

} // verus!
