//! What holds of a canvas whatever steps it takes.
use vstd::prelude::*;
use vstd::string::*;

use crate::compose::{
    blur_def, confinement_attrs, confinement_def, effects_attrs, filter_def, lemma_begun,
    opacity_attr, reference, run, step, LayerView,
};
use crate::document::composed;
use crate::filter::numbered;
use crate::fragments::{ends_drawing, fragments};
use crate::naming::{countable, lemma_lettered_countable, numbered_is_injective};
use crate::ids::remapped_of;
use crate::ops::{Confinement, OpView};
use crate::render::tree_ops;
use crate::shape::{Shape, Uuid};
use crate::structure::{export_is_lettered, lettered_step};
use crate::text::occurs_at;
use crate::tree::acyclic;

verus! {

/// Whether a canvas holds all that another one held.
pub open spec fn grown(from: LayerView, to: LayerView) -> bool {
    &&& from.out.is_prefix_of(to.out)
    &&& from.defs.is_prefix_of(to.defs)
    &&& from.ids.is_prefix_of(to.ids)
    &&& from.frag_no <= to.frag_no
    &&& forall|body: Seq<char>| #[trigger]
        from.cache.contains_key(body) ==> to.cache.contains_key(body) && to.cache[body]
            == from.cache[body]
}

proof fn lemma_group_grows(l: LayerView, attrs: Seq<char>, docs: Seq<Seq<char>>)
    ensures
        grown(l, l.flushed(docs)),
        grown(l, l.opened(attrs, docs)),
        grown(l, l.closed(docs)),
{
}

proof fn lemma_def_grows(l: LayerView, prefix: Seq<char>, def: Seq<char>)
    ensures
        grown(l, l.with_id(prefix)),
        grown(l, l.with_id(prefix).with_def(def)),
{
}

proof fn lemma_mask_grows(l: LayerView, mask: LayerView)
    ensures
        grown(l, l.with_mask(mask)),
{
    let prefix = l.mask_prefix();
    let ids = mask.all_ids();
    let body = remapped_of(mask.out, ids, prefix);
    let named = l.with_id("m"@);
    let id = named.next_id("mask"@);
    lemma_def_grows(named, "mask"@, remapped_of(mask.defs, ids, prefix));
    let defined = named.with_id("mask"@).with_def(remapped_of(mask.defs, ids, prefix));
    assert(grown(defined, defined.with_def(confinement_def(Confinement::AlphaMask, id, body))));
}

proof fn lemma_step_grows(l: LayerView, next: nat, op: OpView, docs: Seq<Seq<char>>)
    ensures
        grown(l, step(l, next, op, docs).0),
{
    match op {
        OpView::Draw(_) => {},
        OpView::Effects { opacity, blend, blur } => match blur {
            Some(sigma) => {
                let id = l.next_id("blur"@);
                lemma_def_grows(l, "blur"@, blur_def(id, sigma));
                let defined = l.with_id("blur"@).with_def(blur_def(id, sigma));
                lemma_group_grows(defined, effects_attrs(opacity, blend, Some(id)), docs);
            },
            None => {
                lemma_group_grows(l, effects_attrs(opacity, blend, None), docs);
            },
        },
        OpView::Filter { prefix, body } => {
            let id = l.filter_id(prefix, body);
            let defined = l.with_filter(prefix, body);
            assert(grown(l, defined));
            lemma_group_grows(defined, reference("filter"@, id), docs);
        },
        OpView::Confine { kind, prefix, draws, opacity } => {
            let id = l.next_id(prefix);
            let named = l.with_id(prefix);
            let defined = named.with_confinement(kind, id, docs[next as int]);
            assert(grown(named, defined));
            lemma_group_grows(defined, confinement_attrs(kind, id, opacity), docs);
        },
        OpView::Opacity(opacity) => {
            lemma_group_grows(l, opacity_attr(opacity), docs);
        },
        OpView::AlphaMask(steps) => {
            let mask = run(LayerView::new(), next, steps, docs).0.flushed(docs);
            lemma_mask_grows(l, mask);
            lemma_group_grows(l.with_mask(mask), reference("mask"@, l.mask_id()), docs);
        },
        OpView::Close => {
            lemma_group_grows(l, Seq::empty(), docs);
        },
    }
}

/// A canvas takes nothing back: what it has emitted, defined and handed out stays, and a
/// shared filter keeps its id.
pub proof fn canvas_only_grows(l: LayerView, next: nat, ops: Seq<OpView>, docs: Seq<Seq<char>>)
    ensures
        grown(l, run(l, next, ops, docs).0),
    decreases ops.len(),
{
    if ops.len() > 0 {
        canvas_only_grows(l, next, ops.drop_last(), docs);
        let (before, n) = run(l, next, ops.drop_last(), docs);
        lemma_step_grows(before, n, ops.last(), docs);
    }
}

/// Groups with equal filters share one definition: once a filter is defined, it is not
/// defined again, whatever steps lie between.
pub proof fn equal_filters_are_shared(
    l: LayerView,
    prefix: Seq<char>,
    body: Seq<char>,
    next: nat,
    ops: Seq<OpView>,
    docs: Seq<Seq<char>>,
    other: Seq<char>,
)
    ensures
        ({
            let later = run(l.with_filter(prefix, body), next, ops, docs).0;
            &&& later.filter_id(other, body) == l.filter_id(prefix, body)
            &&& later.with_filter(other, body) == later
        }),
{
    let first = l.with_filter(prefix, body);
    assert(first.cache.contains_key(body));
    canvas_only_grows(first, next, ops, docs);
}

/// Whether `id` is a name that does not end in a digit and the number `i`.
pub open spec fn handed_out(id: Seq<char>, i: nat) -> bool {
    exists|name: Seq<char>| countable(name) && id == #[trigger] numbered(name, i)
}

/// Whether the ids of a canvas are numbered by their places, and its shared filters are
/// defined under ids of their own.
pub open spec fn consistent(l: LayerView) -> bool {
    &&& forall|i: int| 0 <= i < l.ids.len() ==> handed_out(#[trigger] l.ids[i], i as nat)
    &&& forall|body: Seq<char>| #[trigger]
        l.cache.contains_key(body) ==> {
            &&& l.ids.contains(l.cache[body])
            &&& exists|k: int| occurs_at(l.defs, filter_def(l.cache[body], body), k)
        }
    &&& forall|a: Seq<char>, b: Seq<char>|
        #![trigger l.cache.contains_key(a), l.cache.contains_key(b)]
        l.cache.contains_key(a) && l.cache.contains_key(b) && l.cache[a] == l.cache[b] ==> a == b
}

/// Whether the name of the id that a step hands out does not end in a digit.
pub open spec fn countable_step(op: OpView) -> bool {
    match op {
        OpView::Filter { prefix, .. } => countable(prefix),
        OpView::Confine { prefix, .. } => countable(prefix),
        _ => true,
    }
}

/// No two definitions of a canvas have the same id, as long as no name of an id ends in a
/// digit.
pub proof fn ids_are_unique(l: LayerView)
    requires
        consistent(l),
    ensures
        l.ids.no_duplicates(),
{
    assert forall|i: int, j: int|
        0 <= i < l.ids.len() && 0 <= j < l.ids.len() && i != j implies l.ids[i] != l.ids[j] by {
        assert(handed_out(l.ids[i], i as nat));
        assert(handed_out(l.ids[j], j as nat));
        let p = choose|p: Seq<char>| countable(p) && l.ids[i] == #[trigger] numbered(p, i as nat);
        let q = choose|q: Seq<char>| countable(q) && l.ids[j] == #[trigger] numbered(q, j as nat);
        if l.ids[i] == l.ids[j] {
            numbered_is_injective(p, i as nat, q, j as nat);
        }
    }
}

// A canvas with a further id and further definitions.
proof fn lemma_keeps_consistent(l: LayerView, to: LayerView, name: Seq<char>)
    requires
        consistent(l),
        countable(name),
        to.ids == l.ids || to.ids == l.with_id(name).ids,
        l.defs.is_prefix_of(to.defs),
        to.cache == l.cache,
    ensures
        consistent(to),
{
    assert forall|i: int| 0 <= i < to.ids.len() implies handed_out(
        #[trigger] to.ids[i],
        i as nat,
    ) by {
        if i < l.ids.len() {
            assert(to.ids[i] == l.ids[i]);
        } else {
            assert(to.ids[i] == numbered(name, i as nat));
        }
    }
    assert forall|body: Seq<char>| #[trigger] to.cache.contains_key(body) implies ({
        &&& to.ids.contains(to.cache[body])
        &&& exists|k: int| occurs_at(to.defs, filter_def(to.cache[body], body), k)
    }) by {
        assert(l.cache.contains_key(body));
        let i = choose|i: int| 0 <= i < l.ids.len() && l.ids[i] == l.cache[body];
        assert(to.ids[i] == to.cache[body]);
        let def = filter_def(l.cache[body], body);
        let k = choose|k: int| occurs_at(l.defs, def, k);
        assert(to.defs.subrange(k, k + def.len()) =~= l.defs.subrange(k, k + def.len()));
        assert(occurs_at(to.defs, def, k));
    }
}

/// An id with a name that does not end in a digit is none that the canvas has handed out,
/// and the canvas stays consistent.
pub proof fn next_id_is_new(l: LayerView, name: Seq<char>)
    requires
        consistent(l),
        countable(name),
    ensures
        !l.ids.contains(l.next_id(name)),
        consistent(l.with_id(name)),
{
    let to = l.with_id(name);
    lemma_keeps_consistent(l, to, name);
    ids_are_unique(to);
    if l.ids.contains(l.next_id(name)) {
        let i = choose|i: int| 0 <= i < l.ids.len() && l.ids[i] == l.next_id(name);
        assert(to.ids[i] == to.ids[l.ids.len() as int]);
    }
}

/// A canvas stays consistent when it shares a filter, as long as the name of the id does
/// not end in a digit.
pub proof fn sharing_stays_consistent(l: LayerView, prefix: Seq<char>, body: Seq<char>)
    requires
        consistent(l),
        countable(prefix),
    ensures
        consistent(l.with_filter(prefix, body)),
{
    if !l.cache.contains_key(body) {
        let id = l.next_id(prefix);
        let def = filter_def(id, body);
        let base = l.with_id(prefix).with_def(def);
        let to = l.with_filter(prefix, body);
        lemma_keeps_consistent(l, base, prefix);
        ids_are_unique(base);
        assert(base.ids[l.ids.len() as int] == id);
        assert forall|other: Seq<char>| #[trigger] l.cache.contains_key(other) implies l.cache[other]
            != id by {
            let i = choose|i: int| 0 <= i < l.ids.len() && l.ids[i] == l.cache[other];
            assert(base.ids[i] == l.ids[i]);
        }
        let at = l.defs.len() as int;
        assert(to.defs.subrange(at, at + def.len()) =~= def);
        assert(occurs_at(to.defs, def, at));
        assert forall|b: Seq<char>| #[trigger] to.cache.contains_key(b) implies ({
            &&& to.ids.contains(to.cache[b])
            &&& exists|k: int| occurs_at(to.defs, filter_def(to.cache[b], b), k)
        }) by {
            if b != body {
                assert(base.cache.contains_key(b));
            }
        }
    }
}

proof fn lemma_step_keeps_consistent(l: LayerView, next: nat, op: OpView, docs: Seq<Seq<char>>)
    requires
        consistent(l),
        countable_step(op),
    ensures
        consistent(step(l, next, op, docs).0),
{
    reveal_strlit("blur");
    reveal_strlit("m");
    reveal_strlit("mask");
    let to = step(l, next, op, docs).0;
    match op {
        OpView::Filter { prefix, body } => {
            sharing_stays_consistent(l, prefix, body);
            lemma_keeps_consistent(l.with_filter(prefix, body), to, prefix);
        },
        OpView::Confine { prefix, .. } => {
            lemma_keeps_consistent(l, to, prefix);
        },
        OpView::AlphaMask(steps) => {
            let (mask, _) = run(LayerView::new(), next, steps, docs);
            lemma_keeps_consistent(l, l.with_id("m"@), "m"@);
            lemma_keeps_consistent(l.with_id("m"@), to, "mask"@);
        },
        _ => {
            lemma_keeps_consistent(l, to, "blur"@);
        },
    }
}

/// A canvas stays consistent, as long as no name of an id ends in a digit.
pub proof fn canvas_stays_consistent(
    l: LayerView,
    next: nat,
    ops: Seq<OpView>,
    docs: Seq<Seq<char>>,
)
    requires
        consistent(l),
        forall|i: int| 0 <= i < ops.len() ==> countable_step(#[trigger] ops[i]),
    ensures
        consistent(run(l, next, ops, docs).0),
    decreases ops.len(),
{
    if ops.len() > 0 {
        let (before, n) = run(l, next, ops.drop_last(), docs);
        canvas_stays_consistent(l, next, ops.drop_last(), docs);
        lemma_step_keeps_consistent(before, n, ops.last(), docs);
    }
}

/// In every export no two definitions have the same id, and every shared filter is
/// defined, under an id of its own.
pub proof fn export_is_consistent(
    pool: Map<Uuid, Shape>,
    id: Uuid,
    images: bool,
    docs: Seq<Seq<char>>,
)
    requires
        acyclic(pool, id),
    ensures
        consistent(composed(pool, id, images, docs)),
        composed(pool, id, images, docs).ids.no_duplicates(),
{
    reveal_strlit("blur");
    let ops = tree_ops(pool, id, images, true);
    let l = run(LayerView::new(), 0, ops, docs).0;
    export_is_lettered(pool, id, images, true);
    assert forall|i: int| 0 <= i < ops.len() implies countable_step(#[trigger] ops[i]) by {
        assert(lettered_step(ops[i]));
        match ops[i] {
            OpView::Filter { prefix, .. } => lemma_lettered_countable(prefix),
            OpView::Confine { prefix, .. } => lemma_lettered_countable(prefix),
            _ => {},
        }
    }
    canvas_stays_consistent(LayerView::new(), 0, ops, docs);
    lemma_keeps_consistent(l, l.flushed(docs), "blur"@);
    ids_are_unique(l.flushed(docs));
}

/// Steps take one document for each fragment that they draw.
pub proof fn run_takes_every_fragment(
    l: LayerView,
    next: nat,
    ops: Seq<OpView>,
    docs: Seq<Seq<char>>,
)
    requires
        l.pending is None,
    ensures
        run(l, next, ops, docs).1 == next + fragments(ops).len(),
        run(l, next, ops, docs).0.pending is Some <==> ends_drawing(ops),
    decreases ops,
{
    if ops.len() > 0 {
        let init = ops.drop_last();
        let op = ops.last();
        run_takes_every_fragment(l, next, init, docs);
        lemma_begun(init, op);
        assert(init.push(op) =~= ops);
        let (before, n) = run(l, next, init, docs);
        assert(run(l, next, ops, docs) == step(before, n, op, docs));
        if let OpView::AlphaMask(steps) = op {
            run_takes_every_fragment(LayerView::new(), n, steps, docs);
        }
    }
}

} // verus!
