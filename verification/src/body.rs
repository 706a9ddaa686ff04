//! The body of a fragment document.
use vstd::prelude::*;
use vstd::string::*;

use crate::text::{chars_of, find, find_below, find_from, find_last, occurs_at, rfind};

verus! {

/// The position behind the opening `<svg ...>` tag of a document.
pub open spec fn body_start(doc: Seq<char>) -> Option<int> {
    match find_from(doc, "<svg"@, 0) {
        Some(s) => match find_from(doc, ">"@, s) {
            Some(e) => Some(e + 1),
            None => None,
        },
        None => None,
    }
}

/// What stands between the opening `<svg ...>` tag and the last `</svg>` of a
/// document; empty where one of them is missing or they stand in the wrong order.
pub open spec fn inner_svg(doc: Seq<char>) -> Seq<char> {
    match (body_start(doc), find_last(doc, "</svg>"@)) {
        (Some(s), Some(e)) => if s <= e {
            doc.subrange(s, e)
        } else {
            Seq::empty()
        },
        _ => Seq::empty(),
    }
}

/// Returns the inner body of an SVG document: everything between the opening
/// `<svg ...>` tag and the closing `</svg>`.
pub fn extract_inner_svg(doc: &str) -> (body: &str)
    ensures
        body@ == inner_svg(doc@),
{
    proof {
        reveal_strlit("<svg");
        reveal_strlit(">");
        reveal_strlit("</svg>");
        reveal_strlit("");
    }
    let chars = chars_of(doc);
    let open = chars_of("<svg");
    let bracket = chars_of(">");
    let close = chars_of("</svg>");
    let start = match find(&chars, &open, 0) {
        Some(s) => match find(&chars, &bracket, s) {
            Some(e) => {
                assert(e < chars.len());
                Some(e + 1)
            },
            None => None,
        },
        None => None,
    };
    let end = rfind(&chars, &close);
    match (start, end) {
        (Some(s), Some(e)) if s <= e => doc.substring_char(s, e),
        _ => {
            proof {
                assert(""@ =~= Seq::<char>::empty());
            }
            ""
        },
    }
}

/// The first occurrence is where the pattern stands and nowhere before.
pub proof fn lemma_find_from(s: Seq<char>, pattern: Seq<char>, from: int, at: int)
    requires
        from <= at,
        occurs_at(s, pattern, at),
        forall|i: int| from <= i < at ==> !occurs_at(s, pattern, i),
    ensures
        find_from(s, pattern, from) == Some(at),
    decreases at - from,
{
    if from < at {
        lemma_find_from(s, pattern, from + 1, at);
    }
}

/// The last occurrence is where the pattern stands and nowhere behind.
pub proof fn lemma_find_below(s: Seq<char>, pattern: Seq<char>, end: int, at: int)
    requires
        at < end,
        occurs_at(s, pattern, at),
        forall|i: int| at < i < end ==> !occurs_at(s, pattern, i),
    ensures
        find_below(s, pattern, end) == Some(at),
    decreases end - at,
{
    if at < end - 1 {
        lemma_find_below(s, pattern, end - 1, at);
    }
}

/// The inner body of a document is its body: of a document that consists of a head,
/// an opening tag, a body, a closing tag and a tail, it is the body, whatever the
/// body holds.
///
/// The head brings no `<svg` of its own, the attributes no `>`, the tail no `</svg>`.
pub proof fn inner_of_document(
    head: Seq<char>,
    attrs: Seq<char>,
    body: Seq<char>,
    tail: Seq<char>,
)
    requires
        forall|i: int| 0 <= i < head.len() ==> !occurs_at(head + "<svg"@, "<svg"@, i),
        !attrs.contains('>'),
        forall|i: int| 0 <= i ==> !occurs_at(tail, "</svg>"@, i),
    ensures
        inner_svg(head + "<svg"@ + attrs + ">"@ + body + "</svg>"@ + tail) == body,
{
    reveal_strlit("<svg");
    reveal_strlit(">");
    reveal_strlit("</svg>");
    let doc = head + "<svg"@ + attrs + ">"@ + body + "</svg>"@ + tail;
    let h = head.len() as int;
    let a = h + 4 + attrs.len();
    let b = a + 1 + body.len();
    assert(doc.subrange(h, h + 4) =~= "<svg"@);
    assert forall|i: int| 0 <= i < h implies !occurs_at(doc, "<svg"@, i) by {
        if occurs_at(doc, "<svg"@, i) {
            assert((head + "<svg"@).subrange(i, i + 4) =~= doc.subrange(i, i + 4));
            assert(occurs_at(head + "<svg"@, "<svg"@, i));
        }
    }
    lemma_find_from(doc, "<svg"@, 0, h);
    assert(doc.subrange(a, a + 1) =~= ">"@);
    assert forall|i: int| h <= i < a implies !occurs_at(doc, ">"@, i) by {
        if occurs_at(doc, ">"@, i) {
            assert(doc.subrange(i, i + 1)[0] == doc[i]);
            if i < h + 4 {
                assert(doc[i] == "<svg"@[i - h]);
            } else {
                assert(doc[i] == attrs[i - h - 4]);
            }
        }
    }
    lemma_find_from(doc, ">"@, h, a);
    assert(doc.subrange(b, b + 6) =~= "</svg>"@);
    assert forall|i: int| b < i < doc.len() + 1 implies !occurs_at(doc, "</svg>"@, i) by {
        if occurs_at(doc, "</svg>"@, i) {
            assert(doc.subrange(i, i + 6)[0] == doc[i]);
            if i < b + 6 {
                assert(doc[i] == "</svg>"@[i - b]);
            } else {
                assert(tail.subrange(i - b - 6, i - b) =~= doc.subrange(i, i + 6));
                assert(occurs_at(tail, "</svg>"@, i - b - 6));
            }
        }
    }
    lemma_find_below(doc, "</svg>"@, doc.len() as int + 1, b);
    assert(doc.subrange(a + 1, b) =~= body);
}

} // verus!
