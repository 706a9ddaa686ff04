//! The fonts that a subtree uses.
use vstd::prelude::*;

use crate::shape::{Paragraph, Shape, ShapesPool, TextContent, Type, Uuid};
use crate::text::texts;
use crate::tree::{acyclic, height, lemma_height_of_link, links};

verus! {

/// The font families of a paragraph, span by span.
pub open spec fn paragraph_families(paragraph: Paragraph) -> Seq<Seq<char>> {
    Seq::new(paragraph.children@.len(), |i: int| paragraph.children@[i].font_family@)
}

/// The font families of the first `n` paragraphs.
pub open spec fn content_families(content: TextContent, n: nat) -> Seq<Seq<char>>
    decreases n,
{
    if n == 0 {
        Seq::empty()
    } else {
        content_families(content, (n - 1) as nat) + paragraph_families(content.paragraphs@[n - 1])
    }
}

/// The font families of the text of one shape.
pub open spec fn own_families(shape: Shape) -> Seq<Seq<char>> {
    match shape.shape_type {
        Type::Text(content) => content_families(content, content.paragraphs@.len()),
        _ => Seq::empty(),
    }
}

/// The font families of the text below a shape, in document order.
pub open spec fn families(pool: Map<Uuid, Shape>, id: Uuid) -> Seq<Seq<char>>
    decreases height(pool, id), 1int, 0nat,
    when acyclic(pool, id)
{
    if pool.contains_key(id) {
        own_families(pool[id]) + children_families(pool, id, pool[id].children@.len())
    } else {
        Seq::empty()
    }
}

/// The font families of the text below the first `n` children of a shape.
pub open spec fn children_families(pool: Map<Uuid, Shape>, id: Uuid, n: nat) -> Seq<Seq<char>>
    decreases height(pool, id), 0int, n,
    when acyclic(pool, id) && pool.contains_key(id) && n <= pool[id].children@.len()
{
    if n == 0 {
        Seq::empty()
    } else {
        let child = pool[id].children@[n - 1];
        proof {
            assert(pool[id].children@.contains(child));
            lemma_height_of_link(pool, id, child);
        }
        children_families(pool, id, (n - 1) as nat) + families(pool, child)
    }
}

/// Names with further ones behind them, each that is new once.
pub open spec fn with_new(names: Seq<Seq<char>>, more: Seq<Seq<char>>) -> Seq<Seq<char>>
    decreases more.len(),
{
    if more.len() == 0 {
        names
    } else {
        let init = with_new(names, more.drop_last());
        if init.contains(more.last()) {
            init
        } else {
            init.push(more.last())
        }
    }
}

proof fn lemma_with_new_concat(names: Seq<Seq<char>>, a: Seq<Seq<char>>, b: Seq<Seq<char>>)
    ensures
        with_new(names, a + b) == with_new(with_new(names, a), b),
    decreases b.len(),
{
    if b.len() == 0 {
        assert(a + b =~= a);
    } else {
        lemma_with_new_concat(names, a, b.drop_last());
        assert((a + b).drop_last() =~= a + b.drop_last());
        assert((a + b).last() == b.last());
    }
}

fn add_family(out: &mut Vec<String>, family: &String)
    ensures
        texts(final(out)@) == with_new(texts(old(out)@), seq![family@]),
{
    let ghost names = texts(out@);
    let ghost one = seq![family@];
    proof {
        reveal_with_fuel(with_new, 2);
        assert(one.drop_last() =~= Seq::empty());
    }
    let mut i: usize = 0;
    while i < out.len()
        invariant
            0 <= i <= out.len(),
            names == texts(out@),
            names == texts(old(out)@),
            one == seq![family@],
            forall|j: int| 0 <= j < i ==> #[trigger] names[j] != family@,
            with_new(names, one) == (if names.contains(family@) {
                names
            } else {
                names.push(family@)
            }),
        decreases out.len() - i,
    {
        if out[i] == *family {
            proof {
                assert(names[i as int] == family@);
                assert(names.contains(family@));
            }
            return;
        }
        assert(names[i as int] == out@[i as int]@);
        i = i + 1;
    }
    out.push(family.clone());
    proof {
        assert(texts(out@) =~= names.push(family@));
    }
}

fn add_content(out: &mut Vec<String>, content: &TextContent)
    ensures
        texts(final(out)@) == with_new(
            texts(old(out)@),
            content_families(*content, content.paragraphs@.len()),
        ),
{
    let ghost names = texts(out@);
    let mut i: usize = 0;
    while i < content.paragraphs.len()
        invariant
            0 <= i <= content.paragraphs.len(),
            texts(out@) == with_new(names, content_families(*content, i as nat)),
        decreases content.paragraphs.len() - i,
    {
        let paragraph = &content.paragraphs[i];
        let ghost before = texts(out@);
        let ghost spans = paragraph_families(*paragraph);
        assert(spans.take(0) =~= Seq::empty());
        let mut k: usize = 0;
        while k < paragraph.children.len()
            invariant
                0 <= k <= paragraph.children.len(),
                spans == paragraph_families(*paragraph),
                texts(out@) == with_new(before, spans.take(k as int)),
            decreases paragraph.children.len() - k,
        {
            add_family(out, &paragraph.children[k].font_family);
            proof {
                lemma_with_new_concat(before, spans.take(k as int), seq![spans[k as int]]);
                assert(spans.take(k as int) + seq![spans[k as int]] =~= spans.take(k + 1));
            }
            k = k + 1;
        }
        proof {
            assert(spans.take(k as int) =~= spans);
            lemma_with_new_concat(names, content_families(*content, i as nat), spans);
        }
        i = i + 1;
    }
}

/// Collects the font families used by every text span in the subtree rooted at `id`.
pub fn collect_font_aliases(tree: &ShapesPool, id: &Uuid, out: &mut Vec<String>)
    requires
        acyclic(tree@, *id),
    ensures
        texts(final(out)@) == with_new(texts(old(out)@), families(tree@, *id)),
        forall|family: Seq<char>| #[trigger]
            texts(final(out)@).contains(family) <==> texts(old(out)@).contains(family)
                || used_in_subtree(tree@, *id, family),
        texts(old(out)@).is_prefix_of(texts(final(out)@)),
        texts(old(out)@).no_duplicates() ==> texts(final(out)@).no_duplicates(),
    decreases height(tree@, *id),
{
    match tree.get(id) {
        None => {},
        Some(shape) => {
            let ghost names = texts(out@);
            match &shape.shape_type {
                Type::Text(content) => add_content(out, content),
                _ => {},
            }
            let ghost own = own_families(*shape);
            let mut i: usize = 0;
            proof {
                assert(own + children_families(tree@, *id, 0) =~= own);
            }
            while i < shape.children.len()
                invariant
                    0 <= i <= shape.children.len(),
                    acyclic(tree@, *id),
                    tree@.contains_key(*id),
                    tree@[*id] == *shape,
                    texts(out@) == with_new(names, own + children_families(tree@, *id, i as nat)),
                decreases shape.children.len() - i,
            {
                proof {
                    assert(shape.children@.contains(shape.children@[i as int]));
                    lemma_height_of_link(tree@, *id, shape.children@[i as int]);
                }
                collect_font_aliases(tree, &shape.children[i], out);
                proof {
                    let before = own + children_families(tree@, *id, i as nat);
                    let below = families(tree@, shape.children@[i as int]);
                    lemma_with_new_concat(names, before, below);
                    assert(before + below =~= own + children_families(tree@, *id, (i + 1) as nat));
                }
                i = i + 1;
            }
        },
    }
    proof {
        let names = texts(old(out)@);
        let more = families(tree@, *id);
        with_new_keeps_the_order(names, more);
        assert forall|family: Seq<char>| #[trigger]
            with_new(names, more).contains(family) <==> names.contains(family)
                || used_in_subtree(tree@, *id, family) by {
            with_new_is_union(names, more, family);
            subtree_families_are_used(tree@, *id, family);
        }
        with_new_is_union(names, more, Seq::empty());
    }
}

/// Whether a path of child links leads from `from` to the shape `to` of the pool.
pub open spec fn leads_to(pool: Map<Uuid, Shape>, path: Seq<Uuid>, from: Uuid, to: Uuid) -> bool {
    &&& path.len() > 0
    &&& path[0] == from
    &&& path.last() == to
    &&& forall|i: int| 0 <= i < path.len() ==> pool.contains_key(#[trigger] path[i])
    &&& forall|i: int|
        0 <= i < path.len() - 1 ==> pool[#[trigger] path[i]].children@.contains(path[i + 1])
}

/// Whether a shape lies in the subtree rooted at `root`.
pub open spec fn in_subtree(pool: Map<Uuid, Shape>, root: Uuid, id: Uuid) -> bool {
    exists|path: Seq<Uuid>| leads_to(pool, path, root, id)
}

/// The families collected are exactly those that a span of a shape of the subtree is
/// set in.
pub proof fn families_of_subtree(pool: Map<Uuid, Shape>, root: Uuid, family: Seq<char>)
    requires
        acyclic(pool, root),
    ensures
        families(pool, root).contains(family) <==> exists|id: Uuid| #[trigger]
            in_subtree(pool, root, id) && own_families(pool[id]).contains(family),
    decreases height(pool, root), 1int,
{
    if families(pool, root).contains(family) {
        let own = own_families(pool[root]);
        let n = pool[root].children@.len();
        let below = children_families(pool, root, n);
        let i = choose|i: int| 0 <= i < (own + below).len() && (own + below)[i] == family;
        if i < own.len() {
            assert(own[i] == family);
            assert(leads_to(pool, seq![root], root, root));
            assert(in_subtree(pool, root, root));
        } else {
            assert(below[i - own.len()] == family);
            let k = lemma_from_child(pool, root, n, family);
            let child = pool[root].children@[k];
            assert(pool[root].children@.contains(child));
            lemma_height_of_link(pool, root, child);
            families_of_subtree(pool, child, family);
            let id = choose|id: Uuid| #[trigger]
                in_subtree(pool, child, id) && own_families(pool[id]).contains(family);
            let path = choose|path: Seq<Uuid>| leads_to(pool, path, child, id);
            let longer = seq![root] + path;
            assert(leads_to(pool, longer, root, id)) by {
                assert forall|i: int| 0 <= i < longer.len() implies pool.contains_key(
                    #[trigger] longer[i],
                ) by {
                    if i > 0 {
                        assert(longer[i] == path[i - 1]);
                    }
                }
                assert forall|i: int| 0 <= i < longer.len() - 1 implies pool[#[trigger] longer[i]].children@.contains(
                    longer[i + 1],
                ) by {
                    if i > 0 {
                        assert(longer[i] == path[i - 1]);
                        assert(longer[i + 1] == path[i]);
                    }
                }
            }
            assert(in_subtree(pool, root, id));
        }
    }
    if exists|id: Uuid| #[trigger]
        in_subtree(pool, root, id) && own_families(pool[id]).contains(family) {
        let id = choose|id: Uuid| #[trigger]
            in_subtree(pool, root, id) && own_families(pool[id]).contains(family);
        let path = choose|path: Seq<Uuid>| leads_to(pool, path, root, id);
        let own = own_families(pool[root]);
        let n = pool[root].children@.len();
        let below = children_families(pool, root, n);
        assert(pool.contains_key(path[0]));
        if path.len() == 1 {
            let i = choose|i: int| 0 <= i < own.len() && own[i] == family;
            assert((own + below)[i] == family);
        } else {
            let child = path[1];
            assert(pool[path[0]].children@.contains(path[1]));
            let k = choose|k: int| 0 <= k < n && pool[root].children@[k] == child;
            lemma_height_of_link(pool, root, child);
            let rest = path.drop_first();
            assert(leads_to(pool, rest, child, id)) by {
                assert forall|i: int| 0 <= i < rest.len() implies pool.contains_key(
                    #[trigger] rest[i],
                ) by {
                    assert(rest[i] == path[i + 1]);
                }
                assert forall|i: int| 0 <= i < rest.len() - 1 implies pool[#[trigger] rest[i]].children@.contains(
                    rest[i + 1],
                ) by {
                    assert(rest[i] == path[i + 1]);
                    assert(rest[i + 1] == path[i + 1 + 1]);
                }
            }
            assert(in_subtree(pool, child, id));
            families_of_subtree(pool, child, family);
            lemma_of_child(pool, root, n, k, family);
            let i = choose|i: int| 0 <= i < below.len() && below[i] == family;
            assert((own + below)[own.len() + i] == family);
        }
    }
}

proof fn lemma_from_child(pool: Map<Uuid, Shape>, id: Uuid, n: nat, family: Seq<char>) -> (k: int)
    requires
        acyclic(pool, id),
        pool.contains_key(id),
        n <= pool[id].children@.len(),
        children_families(pool, id, n).contains(family),
    ensures
        0 <= k < n,
        families(pool, pool[id].children@[k]).contains(family),
    decreases n,
{
    let init = children_families(pool, id, (n - 1) as nat);
    let last = families(pool, pool[id].children@[n - 1]);
    assert(pool[id].children@.contains(pool[id].children@[n - 1]));
    lemma_height_of_link(pool, id, pool[id].children@[n - 1]);
    let i = choose|i: int| 0 <= i < (init + last).len() && (init + last)[i] == family;
    if i < init.len() {
        assert(init[i] == family);
        lemma_from_child(pool, id, (n - 1) as nat, family)
    } else {
        assert(last[i - init.len()] == family);
        n - 1
    }
}

proof fn lemma_of_child(pool: Map<Uuid, Shape>, id: Uuid, n: nat, k: int, family: Seq<char>)
    requires
        acyclic(pool, id),
        pool.contains_key(id),
        n <= pool[id].children@.len(),
        0 <= k < n,
        families(pool, pool[id].children@[k]).contains(family),
    ensures
        children_families(pool, id, n).contains(family),
    decreases n,
{
    let init = children_families(pool, id, (n - 1) as nat);
    let last = families(pool, pool[id].children@[n - 1]);
    assert(pool[id].children@.contains(pool[id].children@[n - 1]));
    lemma_height_of_link(pool, id, pool[id].children@[n - 1]);
    if k == n - 1 {
        let i = choose|i: int| 0 <= i < last.len() && last[i] == family;
        assert((init + last)[init.len() + i] == family);
    } else {
        lemma_of_child(pool, id, (n - 1) as nat, k, family);
        let i = choose|i: int| 0 <= i < init.len() && init[i] == family;
        assert((init + last)[i] == family);
    }
}

/// Adding names keeps those that are there, adds those that are new, and nothing
/// twice.
pub proof fn with_new_is_union(names: Seq<Seq<char>>, more: Seq<Seq<char>>, name: Seq<char>)
    ensures
        with_new(names, more).contains(name) <==> names.contains(name) || more.contains(name),
        names.no_duplicates() ==> with_new(names, more).no_duplicates(),
    decreases more.len(),
{
    if more.len() > 0 {
        let last = more.last();
        let init = with_new(names, more.drop_last());
        with_new_is_union(names, more.drop_last(), name);
        assert(more[more.len() - 1] == last);
        if more.contains(name) && name != last {
            let i = choose|i: int| 0 <= i < more.len() && more[i] == name;
            assert(more.drop_last()[i] == name);
        }
        if more.drop_last().contains(name) {
            let i = choose|i: int| 0 <= i < more.len() - 1 && more.drop_last()[i] == name;
            assert(more[i] == name);
        }
        if !init.contains(last) {
            let now = init.push(last);
            assert(now[init.len() as int] == last);
            if init.contains(name) {
                let i = choose|i: int| 0 <= i < init.len() && init[i] == name;
                assert(now[i] == name);
            }
            if now.contains(name) && name != last {
                let i = choose|i: int| 0 <= i < now.len() && now[i] == name;
                assert(init[i] == name);
            }
        }
    }
}

/// Whether a span of a shape is set in a family: span `k` of paragraph `p` of its text.
pub open spec fn span_is_set_in(shape: Shape, p: int, k: int, family: Seq<char>) -> bool {
    &&& shape.shape_type matches Type::Text(content)
    &&& 0 <= p < content.paragraphs@.len()
    &&& 0 <= k < content.paragraphs@[p].children@.len()
    &&& content.paragraphs@[p].children@[k].font_family@ == family
}

/// Whether a span of a shape of a subtree is set in a family.
pub open spec fn used_in_subtree(pool: Map<Uuid, Shape>, root: Uuid, family: Seq<char>) -> bool {
    exists|id: Uuid, p: int, k: int|
        #![trigger in_subtree(pool, root, id), span_is_set_in(pool[id], p, k, family)]
        in_subtree(pool, root, id) && span_is_set_in(pool[id], p, k, family)
}

/// The number of spans in the first `p` paragraphs of a text.
pub open spec fn spans_before(content: TextContent, p: int) -> int
    decreases p,
{
    if p <= 0 {
        0
    } else {
        spans_before(content, p - 1) + content.paragraphs@[p - 1].children@.len()
    }
}

proof fn lemma_span_count(content: TextContent, n: nat)
    ensures
        content_families(content, n).len() == spans_before(content, n as int),
    decreases n,
{
    if n > 0 {
        lemma_span_count(content, (n - 1) as nat);
    }
}

proof fn lemma_span_place(content: TextContent, n: nat, p: int, k: int)
    requires
        0 <= p < n <= content.paragraphs@.len(),
        0 <= k < content.paragraphs@[p].children@.len(),
    ensures
        0 <= spans_before(content, p),
        spans_before(content, p) + k < content_families(content, n).len(),
        content_families(content, n)[spans_before(content, p) + k]
            == content.paragraphs@[p].children@[k].font_family@,
    decreases n,
{
    let m = (n - 1) as nat;
    lemma_span_count(content, m);
    let init = content_families(content, m);
    let last = paragraph_families(content.paragraphs@[n - 1]);
    assert(content_families(content, n) == init + last);
    if p < m {
        lemma_span_place(content, m, p, k);
    } else {
        assert((init + last)[init.len() + k] == last[k]);
    }
}

proof fn lemma_span_of(content: TextContent, n: nat, i: int) -> (r: (int, int))
    requires
        n <= content.paragraphs@.len(),
        0 <= i < content_families(content, n).len(),
    ensures
        0 <= r.0 < n,
        0 <= r.1 < content.paragraphs@[r.0].children@.len(),
        content.paragraphs@[r.0].children@[r.1].font_family@ == content_families(content, n)[i],
    decreases n,
{
    let m = (n - 1) as nat;
    let init = content_families(content, m);
    let last = paragraph_families(content.paragraphs@[n - 1]);
    assert(content_families(content, n) == init + last);
    if i < init.len() {
        lemma_span_of(content, m, i)
    } else {
        assert((init + last)[i] == last[i - init.len()]);
        (n - 1, i - init.len())
    }
}

/// The families of a text are those that its spans are set in: of every paragraph, of
/// every span, in the order of the text. Other shapes have none.
pub proof fn text_families_are_those_of_its_spans(shape: Shape, family: Seq<char>)
    ensures
        own_families(shape).contains(family) <==> exists|p: int, k: int|
            span_is_set_in(shape, p, k, family),
        shape.shape_type matches Type::Text(content) ==> {
            &&& own_families(shape).len() == spans_before(
                content,
                content.paragraphs@.len() as int,
            )
            &&& forall|p: int, k: int|
                0 <= p < content.paragraphs@.len() && 0 <= k
                    < content.paragraphs@[p].children@.len() ==> own_families(shape)[spans_before(
                    content,
                    p,
                ) + k] == #[trigger] content.paragraphs@[p].children@[k].font_family@
        },
        !(shape.shape_type is Text) ==> own_families(shape) == Seq::<Seq<char>>::empty(),
{
    if let Type::Text(content) = shape.shape_type {
        let n = content.paragraphs@.len();
        let all = own_families(shape);
        lemma_span_count(content, n);
        assert forall|p: int, k: int|
            0 <= p < n && 0 <= k < content.paragraphs@[p].children@.len() implies all[spans_before(
            content,
            p,
        ) + k] == #[trigger] content.paragraphs@[p].children@[k].font_family@ by {
            lemma_span_place(content, n, p, k);
        }
        if all.contains(family) {
            let i = choose|i: int| 0 <= i < all.len() && all[i] == family;
            let (p, k) = lemma_span_of(content, n, i);
            assert(span_is_set_in(shape, p, k, family));
        }
        if exists|p: int, k: int| span_is_set_in(shape, p, k, family) {
            let (p, k) = choose|p: int, k: int| span_is_set_in(shape, p, k, family);
            lemma_span_place(content, n, p, k);
            assert(all[spans_before(content, p) + k] == family);
        }
    }
}

/// The families collected for a subtree are exactly those that a span of a shape of the
/// subtree is set in.
pub proof fn subtree_families_are_used(pool: Map<Uuid, Shape>, root: Uuid, family: Seq<char>)
    requires
        acyclic(pool, root),
    ensures
        families(pool, root).contains(family) <==> used_in_subtree(pool, root, family),
{
    families_of_subtree(pool, root, family);
    if families(pool, root).contains(family) {
        let id = choose|id: Uuid| #[trigger]
            in_subtree(pool, root, id) && own_families(pool[id]).contains(family);
        text_families_are_those_of_its_spans(pool[id], family);
        let (p, k) = choose|p: int, k: int| span_is_set_in(pool[id], p, k, family);
        assert(in_subtree(pool, root, id) && span_is_set_in(pool[id], p, k, family));
    }
    if used_in_subtree(pool, root, family) {
        let (id, p, k) = choose|id: Uuid, p: int, k: int|
            #![trigger in_subtree(pool, root, id), span_is_set_in(pool[id], p, k, family)]
            in_subtree(pool, root, id) && span_is_set_in(pool[id], p, k, family);
        text_families_are_those_of_its_spans(pool[id], family);
        assert(own_families(pool[id]).contains(family));
    }
}

/// The families of the text below several shapes, one shape behind the other.
pub open spec fn all_families(pool: Map<Uuid, Shape>, ids: Seq<Uuid>) -> Seq<Seq<char>>
    decreases ids.len(),
{
    if ids.len() == 0 {
        Seq::empty()
    } else {
        all_families(pool, ids.drop_last()) + families(pool, ids.last())
    }
}

proof fn lemma_children_families(pool: Map<Uuid, Shape>, id: Uuid, n: nat)
    requires
        acyclic(pool, id),
        pool.contains_key(id),
        n <= pool[id].children@.len(),
    ensures
        children_families(pool, id, n) == all_families(pool, pool[id].children@.take(n as int)),
    decreases n,
{
    if n > 0 {
        lemma_children_families(pool, id, (n - 1) as nat);
        let ids = pool[id].children@.take(n as int);
        assert(ids.drop_last() =~= pool[id].children@.take(n - 1));
        assert(ids.last() == pool[id].children@[n - 1]);
        assert(pool[id].children@.contains(pool[id].children@[n - 1]));
        lemma_height_of_link(pool, id, pool[id].children@[n - 1]);
    }
}

/// The families of a shape of the pool come before those of its children, and those of
/// the children in their order.
pub proof fn families_are_in_document_order(pool: Map<Uuid, Shape>, id: Uuid)
    requires
        acyclic(pool, id),
        pool.contains_key(id),
    ensures
        families(pool, id) == own_families(pool[id]) + all_families(pool, pool[id].children@),
{
    let children = pool[id].children@;
    lemma_children_families(pool, id, children.len());
    assert(children.take(children.len() as int) =~= children);
}

/// Whether a name stands at a place for the first time.
pub open spec fn first_at(names: Seq<Seq<char>>, name: Seq<char>, at: int) -> bool {
    &&& 0 <= at < names.len()
    &&& names[at] == name
    &&& forall|i: int| 0 <= i < at ==> #[trigger] names[i] != name
}

/// Adding names leaves those that are there in front, and puts the new ones behind them
/// in the order in which they come first.
pub proof fn with_new_keeps_the_order(names: Seq<Seq<char>>, more: Seq<Seq<char>>)
    ensures
        names.is_prefix_of(with_new(names, more)),
        forall|i: int, j: int, a: int, b: int|
            names.len() <= i < j < with_new(names, more).len() && #[trigger] first_at(
                more,
                with_new(names, more)[i],
                a,
            ) && #[trigger] first_at(more, with_new(names, more)[j], b) ==> a < b,
    decreases more.len(),
{
    if more.len() > 0 {
        let init_more = more.drop_last();
        let init = with_new(names, init_more);
        let all = with_new(names, more);
        with_new_keeps_the_order(names, init_more);
        assert forall|i: int, j: int, a: int, b: int|
            names.len() <= i < j < all.len() && #[trigger] first_at(more, all[i], a)
                && #[trigger] first_at(more, all[j], b) implies a < b by {
            assert(all[i] == init[i]);
            lemma_new_comes_first(names, init_more, i);
            let m = choose|m: int| 0 <= m < init_more.len() && init_more[m] == init[i];
            assert(more[m] == all[i]);
            assert(a <= m);
            assert(first_at(init_more, init[i], a)) by {
                assert forall|l: int| 0 <= l < a implies #[trigger] init_more[l] != init[i] by {
                    assert(more[l] != all[i]);
                }
            }
            if j < init.len() {
                assert(all[j] == init[j]);
                lemma_new_comes_first(names, init_more, j);
                let m = choose|m: int| 0 <= m < init_more.len() && init_more[m] == init[j];
                assert(more[m] == all[j]);
                assert(b <= m);
                assert(first_at(init_more, init[j], b)) by {
                    assert forall|l: int| 0 <= l < b implies #[trigger] init_more[l]
                        != init[j] by {
                        assert(more[l] != all[j]);
                    }
                }
            } else {
                assert(all[j] == more.last());
                if b < init_more.len() {
                    assert(init_more[b] == more.last());
                    with_new_is_union(names, init_more, more.last());
                    assert(init_more.contains(more.last()));
                }
            }
        }
    }
}

proof fn lemma_new_comes_first(names: Seq<Seq<char>>, more: Seq<Seq<char>>, i: int)
    requires
        names.len() <= i < with_new(names, more).len(),
    ensures
        exists|m: int| 0 <= m < more.len() && #[trigger] more[m] == with_new(names, more)[i],
    decreases more.len(),
{
    if more.len() > 0 {
        let init = with_new(names, more.drop_last());
        if i < init.len() {
            lemma_new_comes_first(names, more.drop_last(), i);
            let m = choose|m: int|
                0 <= m < more.len() - 1 && #[trigger] more.drop_last()[m] == init[i];
            assert(more[m] == init[i]);
        } else {
            assert(more[more.len() - 1] == more.last());
        }
    }
}

} // verus!
