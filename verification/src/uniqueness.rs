//! No id is defined twice in a document.
use vstd::prelude::*;
use vstd::string::*;

use crate::body::inner_svg;
use crate::clean::{clean_pool, clean_step, free_if_any, lemma_numbered};
use crate::compose::{
    begun, blur_def, confinement_attrs, confinement_def, effects_attrs, filter_def,
    fragment_markup, fragment_prefix, lemma_begun, opacity_attr, reference, run, step,
    LayerView,
};
use crate::consistency::run_takes_every_fragment;
use crate::document::{
    composed, defs_element, document, export_fragments, svg_document, Page,
};
use crate::filter::numbered;
use crate::fragments::fragments;
use crate::ids::{defined_ids, definition, remapped_of};
use crate::naming::{
    lemma_decimal_digits, lemma_fragment_prefix, lemma_lettered_countable, lemma_mask_prefix,
    lettered, mask_is_renamed_as_a_whole, numbered_is_injective, plain_ids, under, under_is_apart,
    under_is_injective,
};
use crate::ops::{Confinement, OpView};
use crate::pieces::{
    complete, defined_ids_add_up, free, lemma_definition, lemma_free,
    lemma_free_concat, lemma_free_empty,
};
use crate::render::tree_ops;
use crate::renaming::{
    is_delimiter, lemma_ids_nonempty, lemma_plain_joined, lemma_renaming_keeps_ends,
    listed_once_stands_once, plain, prefix_all,
    remap_prefixes_definitions,
};
use crate::shape::{Shape, Uuid};
use crate::text::{blank, decimal, occurs_at};
use crate::structure::{export_is_clean, export_is_lettered, lettered_step};
use crate::tree::acyclic;

verus! {

/// Whether the body of a fragment document defines plain ids, each once, and ends all
/// definitions that it begins.
pub open spec fn sound_document(doc: Seq<char>) -> bool {
    &&& complete(inner_svg(doc))
    &&& plain_ids(inner_svg(doc))
    &&& defined_ids(inner_svg(doc)).no_duplicates()
}

pub open spec fn sound_documents(docs: Seq<Seq<char>>) -> bool {
    forall|i: int| 0 <= i < docs.len() ==> sound_document(#[trigger] docs[i])
}

// Whether a name is the id of one of the first definitions, or a name under one of the
// first fragments or masks.
spec fn accounted(ids: nat, frags: nat, x: Seq<char>) -> bool {
    ||| exists|p: Seq<char>, i: nat| lettered(p) && i < ids && x == #[trigger] numbered(p, i)
    ||| exists|n: nat, y: Seq<char>| n < frags && x == #[trigger] under(numbered("f"@, n), y)
    ||| exists|i: nat, y: Seq<char>| i < ids && x == #[trigger] under(numbered("m"@, i), y)
}

proof fn lemma_accounted_more(ids: nat, frags: nat, more_ids: nat, more_frags: nat, x: Seq<char>)
    requires
        accounted(ids, frags, x),
        ids <= more_ids,
        frags <= more_frags,
    ensures
        accounted(more_ids, more_frags, x),
{
}

proof fn lemma_letters()
    ensures
        lettered("f"@),
        lettered("m"@),
        lettered("mask"@),
        lettered("blur"@),
        "f"@ != "m"@,
{
    reveal_strlit("f");
    reveal_strlit("m");
    reveal_strlit("mask");
    reveal_strlit("blur");
    assert("f"@[0] != "m"@[0]);
}

proof fn lemma_new_id(ids: nat, frags: nat, p: Seq<char>, i: nat)
    requires
        lettered(p),
        ids <= i,
    ensures
        !accounted(ids, frags, numbered(p, i)),
{
    lemma_letters();
    let x = numbered(p, i);
    if exists|q: Seq<char>, j: nat| lettered(q) && j < ids && x == #[trigger] numbered(q, j) {
        let (q, j) = choose|q: Seq<char>, j: nat|
            lettered(q) && j < ids && x == #[trigger] numbered(q, j);
        lemma_lettered_countable(p);
        lemma_lettered_countable(q);
        numbered_is_injective(p, i, q, j);
    }
    if exists|n: nat, y: Seq<char>| n < frags && x == #[trigger] under(numbered("f"@, n), y) {
        let (n, y) = choose|n: nat, y: Seq<char>|
            n < frags && x == #[trigger] under(numbered("f"@, n), y);
        under_is_apart("f"@, n, y, p, i);
    }
    if exists|j: nat, y: Seq<char>| j < ids && x == #[trigger] under(numbered("m"@, j), y) {
        let (j, y) = choose|j: nat, y: Seq<char>|
            j < ids && x == #[trigger] under(numbered("m"@, j), y);
        under_is_apart("m"@, j, y, p, i);
    }
}

// A name under a fragment or mask that is yet to come.
proof fn lemma_new_name(ids: nat, frags: nat, fragment: bool, y: Seq<char>)
    ensures
        !accounted(
            ids,
            frags,
            under(
                if fragment {
                    numbered("f"@, frags)
                } else {
                    numbered("m"@, ids)
                },
                y,
            ),
        ),
{
    lemma_letters();
    let (p, n) = if fragment {
        ("f"@, frags)
    } else {
        ("m"@, ids)
    };
    let x = under(numbered(p, n), y);
    if exists|q: Seq<char>, j: nat| lettered(q) && j < ids && x == #[trigger] numbered(q, j) {
        let (q, j) = choose|q: Seq<char>, j: nat|
            lettered(q) && j < ids && x == #[trigger] numbered(q, j);
        under_is_apart(p, n, y, q, j);
    }
    if exists|k: nat, z: Seq<char>| k < frags && x == #[trigger] under(numbered("f"@, k), z) {
        let (k, z) = choose|k: nat, z: Seq<char>|
            k < frags && x == #[trigger] under(numbered("f"@, k), z);
        under_is_injective(p, n, y, "f"@, k, z);
    }
    if exists|k: nat, z: Seq<char>| k < ids && x == #[trigger] under(numbered("m"@, k), z) {
        let (k, z) = choose|k: nat, z: Seq<char>|
            k < ids && x == #[trigger] under(numbered("m"@, k), z);
        under_is_injective(p, n, y, "m"@, k, z);
    }
}

spec fn apart(a: Seq<Seq<char>>, b: Seq<Seq<char>>) -> bool {
    forall|i: int, j: int|
        0 <= i < a.len() && 0 <= j < b.len() ==> #[trigger] a[i] != #[trigger] b[j]
}

spec fn all_accounted(names: Seq<Seq<char>>, ids: nat, frags: nat) -> bool {
    forall|i: int|
        0 <= i < names.len() ==> accounted(ids, frags, #[trigger] names[i]) && plain(names[i])
}

spec fn all_new(names: Seq<Seq<char>>, ids: nat, frags: nat) -> bool {
    forall|i: int| 0 <= i < names.len() ==> !accounted(ids, frags, #[trigger] names[i])
}

// Whether a canvas defines no id twice, and where its ids come from.
#[verifier::opaque]
spec fn unique(l: LayerView) -> bool {
    &&& complete(l.defs)
    &&& complete(l.out)
    &&& defined_ids(l.defs).no_duplicates()
    &&& defined_ids(l.out).no_duplicates()
    &&& apart(defined_ids(l.defs), defined_ids(l.out))
    &&& all_accounted(defined_ids(l.defs), l.ids.len(), l.frag_no)
    &&& all_accounted(defined_ids(l.out), l.ids.len(), l.frag_no)
}

proof fn lemma_sum_unique(a: Seq<Seq<char>>, b: Seq<Seq<char>>)
    requires
        a.no_duplicates(),
        b.no_duplicates(),
        apart(a, b),
    ensures
        (a + b).no_duplicates(),
{
    let s = a + b;
    assert forall|i: int, j: int| 0 <= i < s.len() && 0 <= j < s.len() && i != j implies s[i]
        != s[j] by {
        let x = if i < a.len() {
            a[i]
        } else {
            b[i - a.len()]
        };
        let y = if j < a.len() {
            a[j]
        } else {
            b[j - a.len()]
        };
        assert(s[i] == x && s[j] == y);
    }
}

// New names are none of the accounted ones.
proof fn lemma_new_apart(a: Seq<Seq<char>>, new: Seq<Seq<char>>, ids: nat, frags: nat)
    requires
        all_accounted(a, ids, frags),
        all_new(new, ids, frags),
    ensures
        apart(a, new),
        apart(new, a),
{
}

// A canvas with a further text behind its definitions, or behind its body.
proof fn lemma_add(l: LayerView, to: LayerView, text: Seq<char>)
    requires
        unique(l),
        (to.defs == l.defs + text && to.out == l.out) || (to.defs == l.defs && to.out == l.out
            + text),
        l.ids.len() <= to.ids.len(),
        l.frag_no <= to.frag_no,
        complete(text),
        defined_ids(text).no_duplicates(),
        all_new(defined_ids(text), l.ids.len(), l.frag_no),
        all_accounted(defined_ids(text), to.ids.len(), to.frag_no),
    ensures
        unique(to),
{
    reveal(unique);
    let d = defined_ids(l.defs);
    let o = defined_ids(l.out);
    let names = defined_ids(text);
    let (ids, frags) = (to.ids.len(), to.frag_no);
    assert forall|i: int| 0 <= i < d.len() implies accounted(ids, frags, #[trigger] d[i])
        && plain(d[i]) by {
        lemma_accounted_more(l.ids.len(), l.frag_no, ids, frags, d[i]);
    }
    assert forall|i: int| 0 <= i < o.len() implies accounted(ids, frags, #[trigger] o[i])
        && plain(o[i]) by {
        lemma_accounted_more(l.ids.len(), l.frag_no, ids, frags, o[i]);
    }
    lemma_new_apart(d, names, l.ids.len(), l.frag_no);
    lemma_new_apart(o, names, l.ids.len(), l.frag_no);
    if to.defs == l.defs + text && to.out == l.out {
        defined_ids_add_up(l.defs, text);
        lemma_sum_unique(d, names);
        lemma_parts(d, names, o, ids, frags);
    } else {
        defined_ids_add_up(l.out, text);
        lemma_sum_unique(o, names);
        lemma_parts(o, names, d, ids, frags);
    }
}

proof fn lemma_parts(
    a: Seq<Seq<char>>,
    b: Seq<Seq<char>>,
    other: Seq<Seq<char>>,
    ids: nat,
    frags: nat,
)
    requires
        apart(a, other) || apart(other, a),
        apart(b, other) || apart(other, b),
        all_accounted(a, ids, frags),
        all_accounted(b, ids, frags),
    ensures
        apart(a + b, other),
        apart(other, a + b),
        all_accounted(a + b, ids, frags),
{
    let s = a + b;
    assert forall|i: int, j: int| 0 <= i < s.len() && 0 <= j < other.len() implies #[trigger] s[i]
        != #[trigger] other[j] by {
        if i < a.len() {
            assert(s[i] == a[i]);
        } else {
            assert(s[i] == b[i - a.len()]);
        }
    }
    assert forall|i: int| 0 <= i < s.len() implies accounted(ids, frags, #[trigger] s[i]) && plain(
        s[i],
    ) by {
        if i < a.len() {
            assert(s[i] == a[i]);
        } else {
            assert(s[i] == b[i - a.len()]);
        }
    }
}

// A text without definitions.
proof fn lemma_add_free(l: LayerView, to: LayerView, text: Seq<char>)
    requires
        unique(l),
        free(text),
        (to.defs == l.defs + text && to.out == l.out) || (to.defs == l.defs && to.out == l.out
            + text),
        l.ids.len() <= to.ids.len(),
        l.frag_no <= to.frag_no,
    ensures
        unique(to),
{
    lemma_free(text);
    lemma_add(l, to, text);
}

// An element with an id around a text.
proof fn lemma_element(
    open: Seq<char>,
    before: Seq<char>,
    id: Seq<char>,
    mid: Seq<char>,
    rest: Seq<char>,
    content: Seq<char>,
    end: Seq<char>,
)
    requires
        open == before + "id=\""@,
        mid == "\""@ + rest,
        free(before),
        free(rest),
        free(end),
        complete(content),
        id.len() > 0,
        !id.contains('"'),
    ensures
        complete(open + id + mid + content + end),
        defined_ids(open + id + mid + content + end) == seq![id] + defined_ids(content),
{
    let head = before + "id=\""@ + id + "\""@;
    assert(open + id + mid + content + end =~= head + (rest + (content + end)));
    lemma_definition(before, id);
    lemma_free(rest);
    lemma_free(end);
    defined_ids_add_up(content, end);
    defined_ids_add_up(rest, content + end);
    defined_ids_add_up(head, rest + (content + end));
    let none = Seq::<Seq<char>>::empty();
    assert(seq![id] + (none + (defined_ids(content) + none)) =~= seq![id] + defined_ids(content));
}

proof fn lemma_filter_element(id: Seq<char>, body: Seq<char>)
    requires
        id.len() > 0,
        !id.contains('"'),
        free(body),
    ensures
        complete(filter_def(id, body)),
        defined_ids(filter_def(id, body)) == seq![id],
{
    reveal_strlit("<filter id=\"");
    reveal_strlit("<filter ");
    reveal_strlit("id=\"");
    reveal_strlit("\" ");
    reveal_strlit("\"");
    reveal_strlit(" ");
    reveal_strlit("</filter>");
    assert("<filter id=\""@ =~= "<filter "@ + "id=\""@);
    assert("\" "@ =~= "\""@ + " "@);
    assert(free("<filter "@) && free(" "@) && free("</filter>"@)) by {
        reveal(free);
    }
    lemma_free(body);
    lemma_element(
        "<filter id=\""@,
        "<filter "@,
        id,
        "\" "@,
        " "@,
        body,
        "</filter>"@,
    );
    assert(seq![id] + Seq::<Seq<char>>::empty() =~= seq![id]);
}

proof fn lemma_blur_element(id: Seq<char>, sigma: Seq<char>)
    requires
        id.len() > 0,
        !id.contains('"'),
        free(sigma),
    ensures
        complete(blur_def(id, sigma)),
        defined_ids(blur_def(id, sigma)) == seq![id],
{
    reveal_strlit("<filter id=\"");
    reveal_strlit("<filter ");
    reveal_strlit("id=\"");
    reveal_strlit(
        "\" x=\"-50%\" y=\"-50%\" width=\"200%\" height=\"200%\"><feGaussianBlur stdDeviation=\"",
    );
    reveal_strlit(
        " x=\"-50%\" y=\"-50%\" width=\"200%\" height=\"200%\"><feGaussianBlur stdDeviation=\"",
    );
    reveal_strlit("\"");
    reveal_strlit("\"/></filter>");
    let mid =
        "\" x=\"-50%\" y=\"-50%\" width=\"200%\" height=\"200%\"><feGaussianBlur stdDeviation=\""@;
    let rest =
        " x=\"-50%\" y=\"-50%\" width=\"200%\" height=\"200%\"><feGaussianBlur stdDeviation=\""@;
    assert("<filter id=\""@ =~= "<filter "@ + "id=\""@);
    assert(mid =~= "\""@ + rest);
    assert(free("<filter "@) && free("\"/></filter>"@)) by {
        reveal(free);
    }
    assert(free(rest)) by {
        reveal(free);
    }
    lemma_free(sigma);
    lemma_element("<filter id=\""@, "<filter "@, id, mid, rest, sigma, "\"/></filter>"@);
    assert(seq![id] + Seq::<Seq<char>>::empty() =~= seq![id]);
}

proof fn lemma_confinement_element(kind: Confinement, id: Seq<char>, geometry: Seq<char>)
    requires
        id.len() > 0,
        !id.contains('"'),
        complete(geometry),
    ensures
        complete(confinement_def(kind, id, geometry)),
        defined_ids(confinement_def(kind, id, geometry)) == seq![id] + defined_ids(geometry),
{
    reveal_strlit("id=\"");
    reveal_strlit("\"");
    match kind {
        Confinement::ClipPath => {
            reveal_strlit("<clipPath id=\"");
            reveal_strlit("<clipPath ");
            reveal_strlit("\" clipPathUnits=\"userSpaceOnUse\">");
            reveal_strlit(" clipPathUnits=\"userSpaceOnUse\">");
            reveal_strlit("</clipPath>");
            let mid = "\" clipPathUnits=\"userSpaceOnUse\">"@;
            let rest = " clipPathUnits=\"userSpaceOnUse\">"@;
            assert("<clipPath id=\""@ =~= "<clipPath "@ + "id=\""@);
            assert(mid =~= "\""@ + rest);
            assert(free("<clipPath "@) && free(rest) && free("</clipPath>"@)) by {
                reveal(free);
            }
            lemma_element(
                "<clipPath id=\""@,
                "<clipPath "@,
                id,
                mid,
                rest,
                geometry,
                "</clipPath>"@,
            );
        },
        Confinement::Mask => {
            reveal_strlit("<mask id=\"");
            reveal_strlit("<mask ");
            reveal_strlit("\" maskUnits=\"userSpaceOnUse\">");
            reveal_strlit(" maskUnits=\"userSpaceOnUse\">");
            reveal_strlit("</mask>");
            let mid = "\" maskUnits=\"userSpaceOnUse\">"@;
            let rest = " maskUnits=\"userSpaceOnUse\">"@;
            assert("<mask id=\""@ =~= "<mask "@ + "id=\""@);
            assert(mid =~= "\""@ + rest);
            assert(free("<mask "@) && free(rest) && free("</mask>"@)) by {
                reveal(free);
            }
            lemma_element("<mask id=\""@, "<mask "@, id, mid, rest, geometry, "</mask>"@);
        },
        Confinement::AlphaMask => {
            reveal_strlit("<mask id=\"");
            reveal_strlit("<mask ");
            reveal_strlit("\" maskUnits=\"userSpaceOnUse\" mask-type=\"alpha\">");
            reveal_strlit(" maskUnits=\"userSpaceOnUse\" mask-type=\"alpha\">");
            reveal_strlit("</mask>");
            let mid = "\" maskUnits=\"userSpaceOnUse\" mask-type=\"alpha\">"@;
            let rest = " maskUnits=\"userSpaceOnUse\" mask-type=\"alpha\">"@;
            assert("<mask id=\""@ =~= "<mask "@ + "id=\""@);
            assert(mid =~= "\""@ + rest);
            assert(free("<mask "@) && free(rest) && free("</mask>"@)) by {
                reveal(free);
            }
            lemma_element("<mask id=\""@, "<mask "@, id, mid, rest, geometry, "</mask>"@);
        },
    }
}

// Prefixed names are as many different ones.
proof fn lemma_prefix_all(names: Seq<Seq<char>>, prefix: Seq<char>)
    requires
        names.no_duplicates(),
    ensures
        prefix_all(names, prefix).no_duplicates(),
{
    let all = prefix_all(names, prefix);
    assert forall|i: int, j: int|
        0 <= i < all.len() && 0 <= j < all.len() && i != j implies all[i] != all[j] by {
        if all[i] == all[j] {
            let n = prefix.len() as int;
            assert((prefix + names[i]).skip(n) =~= names[i]);
            assert((prefix + names[j]).skip(n) =~= names[j]);
        }
    }
}

// The markup of a fragment.
proof fn lemma_fragment(doc: Seq<char>, ids: nat, frags: nat)
    requires
        sound_document(doc),
    ensures
        complete(fragment_markup(doc, frags)),
        defined_ids(fragment_markup(doc, frags)).no_duplicates(),
        all_new(defined_ids(fragment_markup(doc, frags)), ids, frags),
        all_accounted(defined_ids(fragment_markup(doc, frags)), ids, frags + 1),
{
    let inner = inner_svg(doc);
    let prefix = fragment_prefix(frags);
    let names = defined_ids(inner);
    lemma_fragment_prefix(frags);
    lemma_ids_nonempty(inner, 0);
    reveal_strlit("_");
    assert(prefix.len() > 0);
    remap_prefixes_definitions(inner, prefix);
    lemma_renaming_keeps_ends(inner, names, prefix);
    lemma_prefix_all(names, prefix);
    let all = prefix_all(names, prefix);
    assert forall|i: int| 0 <= i < all.len() implies !accounted(ids, frags, #[trigger] all[i]) by {
        assert(all[i] == under(numbered("f"@, frags), names[i]));
        lemma_new_name(ids, frags, true, names[i]);
    }
    assert forall|i: int| 0 <= i < all.len() implies accounted(ids, frags + 1, #[trigger] all[i])
        && plain(all[i]) by {
        assert(all[i] == under(numbered("f"@, frags), names[i]));
        lemma_plain_joined(prefix, names[i]);
    }
}

proof fn lemma_flush(l: LayerView, docs: Seq<Seq<char>>)
    requires
        unique(l),
        sound_documents(docs),
        l.pending matches Some(k) ==> 0 <= k < docs.len(),
    ensures
        unique(l.flushed(docs)),
{
    reveal(unique);
    if let Some(k) = l.pending {
        assert(sound_document(docs[k]));
        if !blank(inner_svg(docs[k])) {
            lemma_fragment(docs[k], l.ids.len(), l.frag_no);
            lemma_add(l, l.flushed(docs), fragment_markup(docs[k], l.frag_no));
        }
    }
}

proof fn lemma_opened(l: LayerView, attrs: Seq<char>, docs: Seq<Seq<char>>)
    requires
        unique(l),
        sound_documents(docs),
        l.pending matches Some(k) ==> 0 <= k < docs.len(),
        free(attrs),
    ensures
        unique(l.opened(attrs, docs)),
{
    broadcast use lemma_free_concat;

    lemma_flush(l, docs);
    let f = l.flushed(docs);
    assert(free("<g "@) && free(">"@)) by {
        reveal(free);
        reveal_strlit("<g ");
        reveal_strlit(">");
    }
    let tag = "<g "@ + attrs + ">"@;
    assert(f.out + tag =~= l.opened(attrs, docs).out);
    assert(free(tag));
    lemma_add_free(f, l.opened(attrs, docs), tag);
}

proof fn lemma_closed(l: LayerView, docs: Seq<Seq<char>>)
    requires
        unique(l),
        sound_documents(docs),
        l.pending matches Some(k) ==> 0 <= k < docs.len(),
    ensures
        unique(l.closed(docs)),
{
    lemma_flush(l, docs);
    assert(free("</g>"@)) by {
        reveal(free);
        reveal_strlit("</g>");
    }
    lemma_add_free(l.flushed(docs), l.closed(docs), "</g>"@);
}

proof fn lemma_attrs(
    opacity: Option<Seq<char>>,
    blend: Option<Seq<char>>,
    filter: Option<Seq<char>>,
)
    requires
        free_if_any(opacity),
        free_if_any(blend),
        free_if_any(filter),
    ensures
        free(effects_attrs(opacity, blend, filter)),
        opacity matches Some(opacity) ==> free(opacity_attr(opacity)),
        filter matches Some(id) ==> {
            &&& free(reference("filter"@, id))
            &&& free(reference("mask"@, id))
            &&& forall|kind: Confinement| #[trigger] free(confinement_attrs(kind, id, opacity))
        },
{
    broadcast use lemma_free_concat;

    lemma_free_empty();
    assert(free("=\"url(#"@) && free(")\""@) && free("opacity=\""@) && free("\""@) && free(" "@)
        && free("style=\"mix-blend-mode:"@) && free("filter"@) && free("mask"@) && free(
        "clip-path"@,
    )) by {
        reveal(free);
        reveal_strlit("=\"url(#");
        reveal_strlit(")\"");
        reveal_strlit("opacity=\"");
        reveal_strlit("\"");
        reveal_strlit(" ");
        reveal_strlit("style=\"mix-blend-mode:");
        reveal_strlit("filter");
        reveal_strlit("mask");
        reveal_strlit("clip-path");
    }
}

proof fn lemma_plain_numbered(p: Seq<char>, n: nat)
    requires
        lettered(p),
    ensures
        plain(numbered(p, n)),
{
    lemma_decimal_digits(n);
    let s = numbered(p, n);
    assert forall|i: int| 0 <= i < s.len() implies !is_delimiter(#[trigger] s[i]) by {
        if i < p.len() {
            assert(s[i] == p[i]);
        } else {
            assert(s[i] == decimal(n)[i - p.len()]);
        }
    }
}

// A definition under the next id, with further new names in it.
proof fn lemma_add_definition(
    l: LayerView,
    to: LayerView,
    prefix: Seq<char>,
    text: Seq<char>,
    names: Seq<Seq<char>>,
)
    requires
        unique(l),
        lettered(prefix),
        to.defs == l.defs + text,
        to.out == l.out,
        to.ids == l.with_id(prefix).ids,
        l.frag_no <= to.frag_no,
        complete(text),
        defined_ids(text) == seq![l.next_id(prefix)] + names,
        names.no_duplicates(),
        all_new(names, l.ids.len() + 1, l.frag_no),
        all_accounted(names, l.ids.len(), to.frag_no),
    ensures
        unique(to),
{
    let id = l.next_id(prefix);
    let one = seq![id];
    let n = l.ids.len();
    lemma_new_id(n, l.frag_no, prefix, n);
    lemma_plain_numbered(prefix, n);
    assert(accounted(n + 1, l.frag_no, id));
    let all = one + names;
    assert(one.no_duplicates());
    assert forall|i: int| 0 <= i < names.len() implies !accounted(
        n,
        l.frag_no,
        #[trigger] names[i],
    ) && names[i] != id by {
        if accounted(n, l.frag_no, names[i]) {
            lemma_accounted_more(n, l.frag_no, n + 1, l.frag_no, names[i]);
        }
    }
    lemma_sum_unique(one, names);
    assert forall|i: int| 0 <= i < all.len() implies !accounted(
        n,
        l.frag_no,
        #[trigger] all[i],
    ) by {
        if i > 0 {
            assert(all[i] == names[i - 1]);
        }
    }
    assert forall|i: int| 0 <= i < all.len() implies accounted(
        n + 1,
        to.frag_no,
        #[trigger] all[i],
    ) && plain(all[i]) by {
        if i > 0 {
            assert(all[i] == names[i - 1]);
            lemma_accounted_more(n, to.frag_no, n + 1, to.frag_no, names[i - 1]);
        } else {
            lemma_accounted_more(n + 1, l.frag_no, n + 1, to.frag_no, id);
        }
    }
    lemma_add(l, to, text);
}

proof fn lemma_confined(
    l: LayerView,
    kind: Confinement,
    prefix: Seq<char>,
    doc: Seq<char>,
)
    requires
        unique(l),
        lettered(prefix),
        sound_document(doc),
    ensures
        unique(l.with_id(prefix).with_confinement(kind, l.next_id(prefix), doc)),
{
    let id = l.next_id(prefix);
    let markup = fragment_markup(doc, l.frag_no);
    lemma_numbered(prefix, l.ids.len());
    lemma_fragment(doc, l.ids.len() + 1, l.frag_no);
    lemma_fragment(doc, l.ids.len(), l.frag_no);
    lemma_confinement_element(kind, id, markup);
    lemma_add_definition(
        l,
        l.with_id(prefix).with_confinement(kind, id, doc),
        prefix,
        confinement_def(kind, id, markup),
        defined_ids(markup),
    );
}

// The names that a mask brings: its own, under an id of the mask, and the id of its
// definition.
proof fn lemma_mask_names(l: LayerView, d: Seq<Seq<char>>, o: Seq<Seq<char>>)
    requires
        d.no_duplicates(),
        o.no_duplicates(),
        apart(d, o),
        forall|i: int| 0 <= i < d.len() ==> plain(#[trigger] d[i]),
        forall|i: int| 0 <= i < o.len() ==> plain(#[trigger] o[i]),
    ensures
        ({
            let p = l.mask_prefix();
            let all = prefix_all(d, p) + (seq![l.mask_id()] + prefix_all(o, p));
            &&& all.no_duplicates()
            &&& all_new(all, l.ids.len(), l.frag_no)
            &&& all_accounted(all, l.ids.len() + 2, l.frag_no)
        }),
{
    let n = l.ids.len();
    let frags = l.frag_no;
    let p = l.mask_prefix();
    let id = l.mask_id();
    let pd = prefix_all(d, p);
    let po = prefix_all(o, p);
    let one = seq![id];
    let rest = one + po;
    let all = pd + rest;
    lemma_letters();
    lemma_mask_prefix(l);
    lemma_prefix_all(d, p);
    lemma_prefix_all(o, p);
    assert(id == numbered("mask"@, n + 1));
    lemma_plain_numbered("mask"@, n + 1);
    lemma_new_id(n, frags, "mask"@, n + 1);
    assert(accounted(n + 2, frags, id));
    assert forall|x: Seq<char>| plain(x) implies {
        &&& #[trigger] (p + x) == under(numbered("m"@, n), x)
        &&& p + x != id
        &&& !accounted(n, frags, p + x)
        &&& accounted(n + 2, frags, p + x)
        &&& plain(p + x)
    } by {
        assert(p + x =~= under(numbered("m"@, n), x));
        under_is_apart("m"@, n, x, "mask"@, n + 1);
        lemma_new_name(n, frags, false, x);
        lemma_plain_joined(p, x);
    }
    assert forall|i: int| 0 <= i < po.len() implies #[trigger] po[i] != id by {
        assert(po[i] == p + o[i]);
    }
    assert(one.no_duplicates());
    lemma_sum_unique(one, po);
    assert forall|i: int, j: int|
        0 <= i < pd.len() && 0 <= j < rest.len() implies #[trigger] pd[i] != #[trigger] rest[j] by {
        assert(pd[i] == p + d[i]);
        if j > 0 {
            assert(rest[j] == p + o[j - 1]);
            assert((p + d[i]).skip(p.len() as int) =~= d[i]);
            assert((p + o[j - 1]).skip(p.len() as int) =~= o[j - 1]);
        }
    }
    lemma_sum_unique(pd, rest);
    assert forall|i: int| 0 <= i < all.len() implies !accounted(n, frags, #[trigger] all[i])
        && accounted(n + 2, frags, all[i]) && plain(all[i]) by {
        if i < pd.len() {
            assert(all[i] == p + d[i]);
        } else if i > pd.len() {
            assert(all[i] == p + o[i - pd.len() - 1]);
        }
    }
}

// A mask that was drawn on a canvas of its own.
proof fn lemma_masked(l: LayerView, mask: LayerView)
    requires
        unique(l),
        unique(mask),
    ensures
        unique(l.with_mask(mask)),
{
    reveal(unique);
    lemma_letters();
    let n = l.ids.len();
    let frags = l.frag_no;
    let to = l.with_mask(mask);
    let prefix = l.mask_prefix();
    let id = l.mask_id();
    let ids = mask.all_ids();
    let d = defined_ids(mask.defs);
    let o = defined_ids(mask.out);
    let defs = remapped_of(mask.defs, ids, prefix);
    let body = remapped_of(mask.out, ids, prefix);
    let def = confinement_def(Confinement::AlphaMask, id, body);
    assert(id == numbered("mask"@, n + 1));
    mask_is_renamed_as_a_whole(l, mask);
    lemma_mask_prefix(l);
    lemma_ids_nonempty(mask.defs, 0);
    lemma_ids_nonempty(mask.out, 0);
    reveal_strlit("_");
    assert(prefix.len() > 0);
    assert forall|i: int| 0 <= i < ids.len() implies plain(#[trigger] ids[i])
        && ids[i].len() > 0 by {
        if i < d.len() {
            assert(ids[i] == d[i]);
        } else {
            assert(ids[i] == o[i - d.len()]);
        }
    }
    lemma_renaming_keeps_ends(mask.defs, ids, prefix);
    lemma_renaming_keeps_ends(mask.out, ids, prefix);
    lemma_numbered("mask"@, n + 1);
    lemma_confinement_element(Confinement::AlphaMask, id, body);
    defined_ids_add_up(defs, def);
    lemma_mask_names(l, d, o);
    assert(to.defs =~= l.defs + (defs + def));
    lemma_add(l, to, defs + def);
}

// Whether no id of a shared filter begins a definition.
spec fn clean_cache(l: LayerView) -> bool {
    forall|body: Seq<char>| #[trigger] l.cache.contains_key(body) ==> free(l.cache[body])
}

// A shared filter.
proof fn lemma_filtered(l: LayerView, prefix: Seq<char>, body: Seq<char>)
    requires
        unique(l),
        clean_cache(l),
        lettered(prefix),
        free(body),
    ensures
        unique(l.with_filter(prefix, body)),
        clean_cache(l.with_filter(prefix, body)),
        free(l.filter_id(prefix, body)),
{
    let id = l.filter_id(prefix, body);
    if !l.cache.contains_key(body) {
        lemma_numbered(prefix, l.ids.len());
        lemma_filter_element(id, body);
        let none = Seq::<Seq<char>>::empty();
        assert(seq![id] + none =~= seq![id]);
        lemma_add_definition(l, l.with_filter(prefix, body), prefix, filter_def(id, body), none);
    }
}

// A canvas whose pending fragment is one of the first `next`.
spec fn holds(l: LayerView, next: nat) -> bool {
    l.pending matches Some(k) ==> 0 <= k < next
}

proof fn lemma_step_unique(l: LayerView, next: nat, op: OpView, docs: Seq<Seq<char>>)
    requires
        unique(l),
        clean_cache(l),
        holds(l, next),
        sound_documents(docs),
        lettered_step(op),
        clean_step(op),
        next + begun(op, l.pending is Some) <= docs.len(),
    ensures
        unique(step(l, next, op, docs).0),
        clean_cache(step(l, next, op, docs).0),
        holds(step(l, next, op, docs).0, step(l, next, op, docs).1),
    decreases op, 0nat,
{
    lemma_letters();
    let (to, behind) = step(l, next, op, docs);
    match op {
        OpView::Draw(_) => {
            assert(unique(to)) by {
                reveal(unique);
            }
        },
        OpView::Effects { opacity, blend, blur } => match blur {
            Some(sigma) => {
                let id = l.next_id("blur"@);
                let with = l.with_id("blur"@).with_def(blur_def(id, sigma));
                lemma_numbered("blur"@, l.ids.len());
                lemma_blur_element(id, sigma);
                let none = Seq::<Seq<char>>::empty();
                assert(seq![id] + none =~= seq![id]);
                lemma_add_definition(l, with, "blur"@, blur_def(id, sigma), none);
                lemma_attrs(opacity, blend, Some(id));
                lemma_opened(with, effects_attrs(opacity, blend, Some(id)), docs);
            },
            None => {
                lemma_attrs(opacity, blend, None);
                lemma_opened(l, effects_attrs(opacity, blend, None), docs);
            },
        },
        OpView::Filter { prefix, body } => {
            lemma_filtered(l, prefix, body);
            let id = l.filter_id(prefix, body);
            lemma_attrs(None, None, Some(id));
            lemma_opened(l.with_filter(prefix, body), reference("filter"@, id), docs);
        },
        OpView::Confine { kind, prefix, opacity, .. } => {
            let id = l.next_id(prefix);
            let doc = docs[next as int];
            lemma_numbered(prefix, l.ids.len());
            assert(sound_document(docs[next as int]));
            lemma_confined(l, kind, prefix, doc);
            lemma_attrs(opacity, None, Some(id));
            lemma_opened(
                l.with_id(prefix).with_confinement(kind, id, doc),
                confinement_attrs(kind, id, opacity),
                docs,
            );
        },
        OpView::Opacity(opacity) => {
            lemma_attrs(Some(opacity), None, None);
            lemma_opened(l, opacity_attr(opacity), docs);
        },
        OpView::AlphaMask(steps) => {
            let start = LayerView::new();
            let (mask, _) = run(start, next, steps, docs);
            lemma_start();
            run_takes_every_fragment(start, next, steps, docs);
            lemma_run_unique(start, next, steps, docs);
            lemma_flush(mask, docs);
            lemma_masked(l, mask.flushed(docs));
            lemma_numbered("mask"@, l.ids.len() + 1);
            assert(l.mask_id() == numbered("mask"@, l.ids.len() + 1));
            lemma_attrs(None, None, Some(l.mask_id()));
            lemma_opened(l.with_mask(mask.flushed(docs)), reference("mask"@, l.mask_id()), docs);
        },
        OpView::Close => {
            lemma_closed(l, docs);
        },
    }
}

proof fn lemma_start()
    ensures
        unique(LayerView::new()),
{
    reveal(unique);
    lemma_free_empty();
    lemma_free(Seq::empty());
}

proof fn lemma_run_unique(l: LayerView, next: nat, ops: Seq<OpView>, docs: Seq<Seq<char>>)
    requires
        unique(l),
        clean_cache(l),
        l.pending is None,
        sound_documents(docs),
        forall|i: int| 0 <= i < ops.len() ==> lettered_step(#[trigger] ops[i]),
        forall|i: int| 0 <= i < ops.len() ==> clean_step(#[trigger] ops[i]),
        next + fragments(ops).len() <= docs.len(),
    ensures
        unique(run(l, next, ops, docs).0),
        clean_cache(run(l, next, ops, docs).0),
        holds(run(l, next, ops, docs).0, run(l, next, ops, docs).1),
    decreases ops, 1nat,
{
    if ops.len() > 0 {
        let init = ops.drop_last();
        let op = ops.last();
        let (before, n) = run(l, next, init, docs);
        lemma_begun(init, op);
        assert(init.push(op) =~= ops);
        run_takes_every_fragment(l, next, init, docs);
        lemma_run_unique(l, next, init, docs);
        assert(run(l, next, ops, docs) == step(before, n, op, docs));
        assert(op == ops[ops.len() - 1]);
        lemma_step_unique(before, n, op, docs);
    }
}

/// No id is defined twice in the definitions and the body of an export.
///
/// The documents of the fragments define each of their ids once, the ids are plain, and
/// no text of a shape, such as a number, begins a definition.
pub proof fn export_defines_ids_once(
    pool: Map<Uuid, Shape>,
    id: Uuid,
    images: bool,
    docs: Seq<Seq<char>>,
)
    requires
        acyclic(pool, id),
        clean_pool(pool),
        sound_documents(docs),
        export_fragments(pool, id, images).len() <= docs.len(),
    ensures
        composed(pool, id, images, docs).all_ids().no_duplicates(),
        plain_ids(composed(pool, id, images, docs).defs),
        plain_ids(composed(pool, id, images, docs).out),
        complete(composed(pool, id, images, docs).defs),
        complete(composed(pool, id, images, docs).out),
{
    let ops = tree_ops(pool, id, images, true);
    let start = LayerView::new();
    let l = run(start, 0, ops, docs).0;
    lemma_start();
    export_is_lettered(pool, id, images, true);
    export_is_clean(pool, id, images, true);
    run_takes_every_fragment(start, 0, ops, docs);
    lemma_run_unique(start, 0, ops, docs);
    lemma_flush(l, docs);
    let done = composed(pool, id, images, docs);
    reveal(unique);
    lemma_sum_unique(defined_ids(done.defs), defined_ids(done.out));
}

// The ids of three texts, of which the second has some.
proof fn lemma_around(before: Seq<char>, text: Seq<char>, behind: Seq<char>)
    requires
        complete(before),
        defined_ids(before) == Seq::<Seq<char>>::empty(),
        complete(text),
        complete(behind),
        defined_ids(behind) == Seq::<Seq<char>>::empty(),
    ensures
        complete(before + text + behind),
        defined_ids(before + text + behind) == defined_ids(text),
{
    defined_ids_add_up(before, text);
    defined_ids_add_up(before + text, behind);
    let none = Seq::<Seq<char>>::empty();
    assert(none + defined_ids(text) + none =~= defined_ids(text));
}

proof fn lemma_defs_element(font_css: Seq<char>, defs: Seq<char>)
    requires
        complete(font_css),
        defined_ids(font_css) == Seq::<Seq<char>>::empty(),
        complete(defs),
    ensures
        complete(defs_element(font_css, defs)),
        defined_ids(defs_element(font_css, defs)) == defined_ids(defs),
{
    let open = "<style type=\"text/css\"><![CDATA["@;
    let close = "]]></style>"@;
    assert(free(open) && free(close) && free("<defs>"@) && free("</defs>"@)) by {
        reveal(free);
        reveal_strlit("<style type=\"text/css\"><![CDATA[");
        reveal_strlit("]]></style>");
        reveal_strlit("<defs>");
        reveal_strlit("</defs>");
    }
    lemma_free(open);
    lemma_free(close);
    lemma_free("<defs>"@);
    lemma_free("</defs>"@);
    lemma_free_empty();
    lemma_free(Seq::empty());
    if font_css.len() == 0 && defs.len() == 0 {
        assert(defs =~= Seq::empty());
    } else {
        let style = if font_css.len() == 0 {
            Seq::empty()
        } else {
            open + font_css + close
        };
        lemma_around(open, font_css, close);
        lemma_around("<defs>"@, style, Seq::empty());
        assert("<defs>"@ + style + Seq::empty() =~= "<defs>"@ + style);
        lemma_around("<defs>"@ + style, defs, "</defs>"@);
    }
}

spec fn document_head(width: Seq<char>, height: Seq<char>) -> Seq<char> {
    "<?xml version=\"1.0\" encoding=\"utf-8\" ?>\n"@
        + "<svg xmlns=\"http://www.w3.org/2000/svg\" xmlns:xlink=\"http://www.w3.org/1999/xlink\" width=\""@
        + width + "\" height=\""@ + height + "\">"@
}

proof fn lemma_document_words()
    ensures
        free("<?xml version=\"1.0\" encoding=\"utf-8\" ?>\n"@),
        free(
            "<svg xmlns=\"http://www.w3.org/2000/svg\" xmlns:xlink=\"http://www.w3.org/1999/xlink\" width=\""@,
        ),
        free("\" height=\""@),
        free("\">"@),
        free("</svg>"@),
{
    reveal(free);
    reveal_strlit("<?xml version=\"1.0\" encoding=\"utf-8\" ?>\n");
    reveal_strlit(
        "<svg xmlns=\"http://www.w3.org/2000/svg\" xmlns:xlink=\"http://www.w3.org/1999/xlink\" width=\"",
    );
    reveal_strlit("\" height=\"");
    reveal_strlit("\">");
    reveal_strlit("</svg>");
}

proof fn lemma_head(width: Seq<char>, height: Seq<char>)
    requires
        free(width),
        free(height),
    ensures
        free(document_head(width, height)),
{
    broadcast use lemma_free_concat;

    lemma_document_words();
}

proof fn lemma_document(
    width: Seq<char>,
    height: Seq<char>,
    font_css: Seq<char>,
    defs: Seq<char>,
    body: Seq<char>,
)
    requires
        free(width),
        free(height),
        complete(font_css),
        defined_ids(font_css) == Seq::<Seq<char>>::empty(),
        complete(defs),
        complete(body),
    ensures
        defined_ids(document(width, height, font_css, defs, body)) == defined_ids(defs)
            + defined_ids(body),
{
    let head = document_head(width, height);
    lemma_head(width, height);
    lemma_document_words();
    lemma_free(head);
    lemma_free("</svg>"@);
    let element = defs_element(font_css, defs);
    lemma_defs_element(font_css, defs);
    defined_ids_add_up(element, body);
    lemma_around(head, element + body, "</svg>"@);
    assert(head + (element + body) + "</svg>"@ =~= head + element + body + "</svg>"@);
    assert(document(width, height, font_css, defs, body) == head + element + body + "</svg>"@);
}

/// Whether `id="x"` stands in a text at one place at most, whatever `x`.
pub open spec fn defines_once(text: Seq<char>) -> bool {
    forall|x: Seq<char>, j: int, k: int|
        x.len() > 0 && !x.contains('"') && #[trigger] occurs_at(text, definition(x), j)
            && #[trigger] occurs_at(text, definition(x), k) ==> j == k
}

/// Whether what an export is made of brings no id twice: the documents of the fragments
/// define plain ids, each once, and neither the rules for the fonts nor a text of a shape
/// or of the page, such as a number, defines one.
pub open spec fn sound_export(pool: Map<Uuid, Shape>, page: Page, docs: Seq<Seq<char>>) -> bool {
    &&& clean_pool(pool)
    &&& free(page.width@)
    &&& free(page.height@)
    &&& complete(page.font_css@)
    &&& defined_ids(page.font_css@) == Seq::<Seq<char>>::empty()
    &&& sound_documents(docs)
}

/// No id is defined twice in a document: its list of ids has no repeats, and `id="x"`
/// stands in it at one place at most, whatever `x`.
pub proof fn document_defines_ids_once(
    pool: Map<Uuid, Shape>,
    id: Uuid,
    images: bool,
    page: Page,
    docs: Seq<Seq<char>>,
)
    requires
        acyclic(pool, id),
        sound_export(pool, page, docs),
        export_fragments(pool, id, images).len() <= docs.len(),
    ensures
        defined_ids(svg_document(pool, id, images, page, docs)).no_duplicates(),
        defines_once(svg_document(pool, id, images, page, docs)),
{
    export_defines_ids_once(pool, id, images, docs);
    let layer = composed(pool, id, images, docs);
    lemma_document(page.width@, page.height@, page.font_css@, layer.defs, layer.out);
    let text = svg_document(pool, id, images, page, docs);
    let ids = defined_ids(text);
    let d = defined_ids(layer.defs);
    let o = defined_ids(layer.out);
    assert forall|i: int| 0 <= i < ids.len() implies plain(#[trigger] ids[i]) by {
        if i < d.len() {
            assert(ids[i] == d[i]);
        } else {
            assert(ids[i] == o[i - d.len()]);
        }
    }
    assert forall|x: Seq<char>, j: int, k: int|
        x.len() > 0 && !x.contains('"') && #[trigger] occurs_at(text, definition(x), j)
            && #[trigger] occurs_at(text, definition(x), k) implies j == k by {
        listed_once_stands_once(text, x, j, k);
    }
}

} // verus!
