//! The body of an export is a forest of groups around the markup of fragments.
use vstd::prelude::*;
use vstd::string::*;

use crate::body::inner_svg;
use crate::compose::{
    blur_def, confinement_attrs, effects_attrs, fragment_markup, opacity_attr, reference, run, step,
    LayerView,
};
use crate::document::composed;
use crate::ops::OpView;
use crate::render::tree_ops;
use crate::shape::{Shape, Uuid};
use crate::structure::{export_is_balanced, level, opens};
use crate::text::blank;
use crate::tree::acyclic;

verus! {

/// A part of a body: the markup of a fragment document under a number, or a group with
/// its attributes and what it holds.
pub enum Node {
    Fragment { doc: int, number: nat },
    Group { attrs: Seq<char>, content: Seq<Node> },
}

/// The text of a part.
pub open spec fn written(node: Node, docs: Seq<Seq<char>>) -> Seq<char>
    decreases node,
{
    match node {
        Node::Fragment { doc, number } => fragment_markup(docs[doc], number),
        Node::Group { attrs, content } => "<g "@ + attrs + ">"@ + written_all(content, docs)
            + "</g>"@,
    }
}

/// The text of several parts.
pub open spec fn written_all(nodes: Seq<Node>, docs: Seq<Seq<char>>) -> Seq<char>
    decreases nodes,
{
    if nodes.len() == 0 {
        Seq::empty()
    } else {
        written_all(nodes.drop_last(), docs) + written(nodes.last(), docs)
    }
}

// A group that is open, with what it holds so far. The attributes of the outermost one,
// which is the body itself, do not count.
struct Open {
    attrs: Seq<char>,
    content: Seq<Node>,
}

// The text of groups that are open, each in the one before.
spec fn written_open(stack: Seq<Open>, docs: Seq<Seq<char>>) -> Seq<char>
    decreases stack.len(),
{
    if stack.len() == 0 {
        Seq::empty()
    } else if stack.len() == 1 {
        written_all(stack.last().content, docs)
    } else {
        written_open(stack.drop_last(), docs) + ("<g "@ + stack.last().attrs + ">"@) + written_all(
            stack.last().content,
            docs,
        )
    }
}

// The innermost open group with a further part.
spec fn with_part(stack: Seq<Open>, node: Node) -> Seq<Open> {
    let top = stack.last();
    stack.drop_last().push(Open { attrs: top.attrs, content: top.content.push(node) })
}

proof fn lemma_with_part(stack: Seq<Open>, node: Node, docs: Seq<Seq<char>>)
    requires
        stack.len() > 0,
    ensures
        with_part(stack, node).len() == stack.len(),
        written_open(with_part(stack, node), docs) == written_open(stack, docs) + written(
            node,
            docs,
        ),
{
    let to = with_part(stack, node);
    let nodes = stack.last().content;
    assert(to.drop_last() =~= stack.drop_last());
    assert(nodes.push(node).drop_last() =~= nodes);
    assert(written_all(nodes.push(node), docs) == written_all(nodes, docs) + written(node, docs));
    if stack.len() > 1 {
        let before = written_open(stack.drop_last(), docs) + ("<g "@ + stack.last().attrs + ">"@);
        assert(before + (written_all(nodes, docs) + written(node, docs)) =~= before + written_all(
            nodes,
            docs,
        ) + written(node, docs));
    }
}

proof fn lemma_flush(l: LayerView, stack: Seq<Open>, docs: Seq<Seq<char>>) -> (to: Seq<Open>)
    requires
        stack.len() > 0,
        l.out == written_open(stack, docs),
    ensures
        to.len() == stack.len(),
        l.flushed(docs).out == written_open(to, docs),
{
    match l.pending {
        Some(k) => if blank(inner_svg(docs[k])) {
            stack
        } else {
            let node = Node::Fragment { doc: k, number: l.frag_no };
            lemma_with_part(stack, node, docs);
            with_part(stack, node)
        },
        None => stack,
    }
}

proof fn lemma_opened(
    l: LayerView,
    attrs: Seq<char>,
    stack: Seq<Open>,
    docs: Seq<Seq<char>>,
) -> (to: Seq<Open>)
    requires
        stack.len() > 0,
        l.out == written_open(stack, docs),
    ensures
        to.len() == stack.len() + 1,
        l.opened(attrs, docs).out == written_open(to, docs),
{
    let top = lemma_flush(l, stack, docs);
    let to = top.push(Open { attrs, content: Seq::empty() });
    assert(to.drop_last() =~= top);
    let tag = "<g "@ + attrs + ">"@;
    assert(written_open(to, docs) =~= written_open(top, docs) + tag);
    assert(l.opened(attrs, docs).out =~= l.flushed(docs).out + tag);
    to
}

proof fn lemma_closed(l: LayerView, stack: Seq<Open>, docs: Seq<Seq<char>>) -> (to: Seq<Open>)
    requires
        stack.len() > 1,
        l.out == written_open(stack, docs),
    ensures
        to.len() == stack.len() - 1,
        l.closed(docs).out == written_open(to, docs),
{
    let top = lemma_flush(l, stack, docs);
    let group = top.last();
    let node = Node::Group { attrs: group.attrs, content: group.content };
    let outer = top.drop_last();
    lemma_with_part(outer, node, docs);
    let tag = "<g "@ + group.attrs + ">"@;
    let content = written_all(group.content, docs);
    assert(written_open(outer, docs) + (tag + content + "</g>"@) =~= written_open(outer, docs) + tag
        + content + "</g>"@);
    with_part(outer, node)
}

proof fn lemma_step(
    l: LayerView,
    next: nat,
    op: OpView,
    stack: Seq<Open>,
    docs: Seq<Seq<char>>,
) -> (to: Seq<Open>)
    requires
        stack.len() > 0,
        op is Close ==> stack.len() > 1,
        l.out == written_open(stack, docs),
    ensures
        to.len() == stack.len() + (if opens(op) {
            1int
        } else if op is Close {
            -1int
        } else {
            0int
        }),
        step(l, next, op, docs).0.out == written_open(to, docs),
{
    match op {
        OpView::Draw(_) => stack,
        OpView::Effects { opacity, blend, blur } => match blur {
            Some(sigma) => {
                let id = l.next_id("blur"@);
                let with = l.with_id("blur"@).with_def(blur_def(id, sigma));
                lemma_opened(with, effects_attrs(opacity, blend, Some(id)), stack, docs)
            },
            None => lemma_opened(l, effects_attrs(opacity, blend, None), stack, docs),
        },
        OpView::Filter { prefix, body } => {
            let id = l.filter_id(prefix, body);
            lemma_opened(l.with_filter(prefix, body), reference("filter"@, id), stack, docs)
        },
        OpView::Confine { kind, prefix, opacity, .. } => {
            let id = l.next_id(prefix);
            lemma_opened(
                l.with_id(prefix).with_confinement(kind, id, docs[next as int]),
                confinement_attrs(kind, id, opacity),
                stack,
                docs,
            )
        },
        OpView::Opacity(opacity) => lemma_opened(l, opacity_attr(opacity), stack, docs),
        OpView::AlphaMask(steps) => {
            let (mask, _) = run(LayerView::new(), next, steps, docs);
            lemma_opened(
                l.with_mask(mask.flushed(docs)),
                reference("mask"@, l.mask_id()),
                stack,
                docs,
            )
        },
        OpView::Close => lemma_closed(l, stack, docs),
    }
}

proof fn lemma_run(next: nat, ops: Seq<OpView>, docs: Seq<Seq<char>>) -> (stack: Seq<Open>)
    requires
        forall|i: int| 0 <= i <= ops.len() ==> level(#[trigger] ops.take(i)) >= 0,
    ensures
        stack.len() == level(ops) + 1,
        run(LayerView::new(), next, ops, docs).0.out == written_open(stack, docs),
    decreases ops.len(),
{
    assert(ops.take(ops.len() as int) =~= ops);
    if ops.len() == 0 {
        let stack = seq![Open { attrs: Seq::empty(), content: Seq::empty() }];
        assert(written_open(stack, docs) =~= Seq::empty());
        stack
    } else {
        let init = ops.drop_last();
        assert forall|i: int| 0 <= i <= init.len() implies level(#[trigger] init.take(i)) >= 0 by {
            assert(init.take(i) =~= ops.take(i));
        }
        assert(init.take(init.len() as int) =~= init);
        let stack = lemma_run(next, init, docs);
        let (l, n) = run(LayerView::new(), next, init, docs);
        assert(run(LayerView::new(), next, ops, docs) == step(l, n, ops.last(), docs));
        lemma_step(l, n, ops.last(), stack, docs)
    }
}

/// The body of an export consists of the markup of its fragments and of groups that are
/// properly nested, and of nothing else.
pub proof fn export_is_nested(
    pool: Map<Uuid, Shape>,
    id: Uuid,
    images: bool,
    docs: Seq<Seq<char>>,
)
    requires
        acyclic(pool, id),
    ensures
        exists|nodes: Seq<Node>|
            composed(pool, id, images, docs).out == #[trigger] written_all(nodes, docs),
{
    let ops = tree_ops(pool, id, images, true);
    export_is_balanced(pool, id, images, true);
    let stack = lemma_run(0, ops, docs);
    let l = run(LayerView::new(), 0, ops, docs).0;
    let done = lemma_flush(l, stack, docs);
    assert(done.len() == 1);
    assert(composed(pool, id, images, docs).out == written_all(done[0].content, docs));
}

} // verus!
