//! Why the ids of a document do not clash.
//!
//! A definition has an id made of a name and a number (`clip3`). The ids of a fragment,
//! and those of a mask with steps of its own, have such an id and `_` before them.
use vstd::prelude::*;
use vstd::string::*;

use crate::body::inner_svg;
use crate::compose::{fragment_markup, fragment_prefix, LayerView};
use crate::filter::numbered;
use crate::ids::{defined_ids, remapped_of};
use crate::renaming::{
    is_delimiter, lemma_ids_nonempty, names_of, plain, prefix_all, prefixed,
    remap_prefixes_definitions, renaming_prefixes_definitions, renaming_prefixes_names,
};
use crate::text::{decimal, digit, is_digit};

verus! {

/// A name of small letters.
pub open spec fn lettered(name: Seq<char>) -> bool {
    forall|i: int| 0 <= i < name.len() ==> 'a' <= #[trigger] name[i] <= 'z'
}

/// A name that a number can be put behind: it does not end in a digit.
pub open spec fn countable(name: Seq<char>) -> bool {
    name.len() > 0 ==> !is_digit(name.last())
}

/// A lettered name is one.
pub proof fn lemma_lettered_countable(name: Seq<char>)
    requires
        lettered(name),
    ensures
        countable(name),
{
    if name.len() > 0 {
        assert(name[name.len() - 1] == name.last());
    }
}

pub proof fn lemma_decimal_digits(n: nat)
    ensures
        decimal(n).len() > 0,
        forall|i: int| 0 <= i < decimal(n).len() ==> is_digit(#[trigger] decimal(n)[i]),
    decreases n,
{
    if n >= 10 {
        lemma_decimal_digits(n / 10);
    }
}

/// Numbers with the same numeral are the same.
pub proof fn decimal_is_injective(a: nat, b: nat)
    requires
        decimal(a) == decimal(b),
    ensures
        a == b,
    decreases a,
{
    lemma_decimal_digits(a);
    lemma_decimal_digits(b);
    assert(decimal(a).last() == digit(a % 10));
    assert(decimal(b).last() == digit(b % 10));
    assert(a % 10 == b % 10);
    if a >= 10 {
        lemma_decimal_digits(a / 10);
    }
    if b >= 10 {
        lemma_decimal_digits(b / 10);
    }
    if a >= 10 && b >= 10 {
        assert(decimal(a).drop_last() =~= decimal(a / 10));
        assert(decimal(b).drop_last() =~= decimal(b / 10));
        decimal_is_injective(a / 10, b / 10);
    }
}

/// Ids with different numbers, or with different names, are different, as long as no name
/// ends in a digit: `a1` with 0 is `a` with 10.
pub proof fn numbered_is_injective(p: Seq<char>, a: nat, q: Seq<char>, b: nat)
    requires
        countable(p),
        countable(q),
        numbered(p, a) == numbered(q, b),
    ensures
        p == q,
        a == b,
{
    lemma_decimal_digits(a);
    lemma_decimal_digits(b);
    let s = numbered(p, a);
    if p.len() < q.len() {
        let i = q.len() - 1;
        assert(s[i] == decimal(a)[i - p.len()]);
        assert(s[i] == q.last());
    }
    if q.len() < p.len() {
        let i = p.len() - 1;
        assert(s.len() == q.len() + decimal(b).len());
        assert(numbered(q, b)[i] == decimal(b)[i - q.len()]);
        assert(s[i] == p.last());
    }
    assert(s.take(p.len() as int) =~= p);
    assert(s.take(p.len() as int) =~= q);
    assert(s.skip(p.len() as int) =~= decimal(a));
    assert(s.skip(p.len() as int) =~= decimal(b));
    decimal_is_injective(a, b);
}

/// A name that is put under an id: the id, `_` and the name.
pub open spec fn under(id: Seq<char>, name: Seq<char>) -> Seq<char> {
    id + "_"@ + name
}

proof fn lemma_no_underscore(p: Seq<char>, a: nat)
    requires
        lettered(p),
    ensures
        forall|i: int| 0 <= i < numbered(p, a).len() ==> #[trigger] numbered(p, a)[i] != '_',
{
    lemma_decimal_digits(a);
    let s = numbered(p, a);
    assert forall|i: int| 0 <= i < s.len() implies #[trigger] s[i] != '_' by {
        if i < p.len() {
            assert(s[i] == p[i]);
        } else {
            assert(s[i] == decimal(a)[i - p.len()]);
        }
    }
}

/// Names under different ids are different, whatever the names.
pub proof fn under_is_injective(
    p: Seq<char>,
    a: nat,
    x: Seq<char>,
    q: Seq<char>,
    b: nat,
    y: Seq<char>,
)
    requires
        lettered(p),
        lettered(q),
        under(numbered(p, a), x) == under(numbered(q, b), y),
    ensures
        p == q,
        a == b,
        x == y,
{
    reveal_strlit("_");
    let i = numbered(p, a);
    let j = numbered(q, b);
    lemma_no_underscore(p, a);
    lemma_no_underscore(q, b);
    let s = under(i, x);
    assert(s[i.len() as int] == '_');
    assert(under(j, y)[j.len() as int] == '_');
    if i.len() < j.len() {
        assert(s[i.len() as int] == j[i.len() as int]);
    }
    if j.len() < i.len() {
        assert(s[j.len() as int] == i[j.len() as int]);
    }
    assert(s.take(i.len() as int) =~= i);
    assert(s.take(i.len() as int) =~= j);
    assert(s.skip(i.len() as int + 1) =~= x);
    assert(s.skip(i.len() as int + 1) =~= y);
    lemma_lettered_countable(p);
    lemma_lettered_countable(q);
    numbered_is_injective(p, a, q, b);
}

/// A name under an id is never the id of a definition.
pub proof fn under_is_apart(p: Seq<char>, a: nat, x: Seq<char>, q: Seq<char>, b: nat)
    requires
        lettered(p),
        lettered(q),
    ensures
        under(numbered(p, a), x) != numbered(q, b),
{
    reveal_strlit("_");
    let i = numbered(p, a);
    lemma_no_underscore(q, b);
    assert(under(i, x)[i.len() as int] == '_');
    if under(i, x) == numbered(q, b) {
        assert(numbered(q, b)[i.len() as int] == '_');
    }
}

pub proof fn lemma_fragment_prefix(n: nat)
    ensures
        lettered("f"@),
        plain(fragment_prefix(n)),
        forall|x: Seq<char>| #[trigger] (fragment_prefix(n) + x) == under(numbered("f"@, n), x),
{
    reveal_strlit("f");
    reveal_strlit("_");
    lemma_decimal_digits(n);
    let s = fragment_prefix(n);
    assert forall|i: int| 0 <= i < s.len() implies !is_delimiter(#[trigger] s[i]) by {
        if 0 < i < s.len() - 1 {
            assert(s[i] == decimal(n)[i - 1]);
        }
    }
}

/// Whether a fragment document defines plain ids only.
pub open spec fn plain_ids(text: Seq<char>) -> bool {
    forall|i: int| 0 <= i < defined_ids(text).len() ==> plain(#[trigger] defined_ids(text)[i])
}

/// The ids that fragments with different numbers define are different.
pub proof fn fragments_share_no_id(doc: Seq<char>, n: nat, other: Seq<char>, m: nat, i: int, j: int)
    requires
        plain_ids(inner_svg(doc)),
        plain_ids(inner_svg(other)),
        n != m,
        0 <= i < defined_ids(fragment_markup(doc, n)).len(),
        0 <= j < defined_ids(fragment_markup(other, m)).len(),
    ensures
        defined_ids(fragment_markup(doc, n))[i] != defined_ids(fragment_markup(other, m))[j],
{
    lemma_fragment_prefix(n);
    lemma_fragment_prefix(m);
    remap_prefixes_definitions(inner_svg(doc), fragment_prefix(n));
    remap_prefixes_definitions(inner_svg(other), fragment_prefix(m));
    let x = defined_ids(inner_svg(doc))[i];
    let y = defined_ids(inner_svg(other))[j];
    if fragment_prefix(n) + x == fragment_prefix(m) + y {
        under_is_injective("f"@, n, x, "f"@, m, y);
    }
}

/// No id that a fragment defines is the id of a definition.
pub proof fn fragment_ids_are_apart(doc: Seq<char>, n: nat, i: int, p: Seq<char>, a: nat)
    requires
        plain_ids(inner_svg(doc)),
        lettered(p),
        0 <= i < defined_ids(fragment_markup(doc, n)).len(),
    ensures
        defined_ids(fragment_markup(doc, n))[i] != numbered(p, a),
{
    lemma_fragment_prefix(n);
    remap_prefixes_definitions(inner_svg(doc), fragment_prefix(n));
    under_is_apart("f"@, n, defined_ids(inner_svg(doc))[i], p, a);
}

pub proof fn lemma_mask_prefix(l: LayerView)
    ensures
        lettered("m"@),
        plain(l.mask_prefix()),
{
    reveal_strlit("m");
    reveal_strlit("_");
    let n = l.ids.len();
    lemma_decimal_digits(n);
    let s = l.mask_prefix();
    assert forall|i: int| 0 <= i < s.len() implies !is_delimiter(#[trigger] s[i]) by {
        if 0 < i < s.len() - 1 {
            assert(s[i] == decimal(n)[i - 1]);
        }
    }
}

/// The definitions and the body of a mask with steps of its own are renamed alike: in
/// both, every name of an id that one of them defines is put under an id of the mask,
/// and nothing else changes.
pub proof fn mask_is_renamed_as_a_whole(l: LayerView, mask: LayerView)
    requires
        plain_ids(mask.defs),
        plain_ids(mask.out),
    ensures
        l.mask_prefix() == under(l.next_id("m"@), Seq::empty()),
        remapped_of(mask.defs, mask.all_ids(), l.mask_prefix()) == prefixed(
            mask.defs,
            names_of(mask.defs, mask.all_ids()),
            l.mask_prefix(),
        ),
        remapped_of(mask.out, mask.all_ids(), l.mask_prefix()) == prefixed(
            mask.out,
            names_of(mask.out, mask.all_ids()),
            l.mask_prefix(),
        ),
        defined_ids(remapped_of(mask.defs, mask.all_ids(), l.mask_prefix())) == prefix_all(
            defined_ids(mask.defs),
            l.mask_prefix(),
        ),
        defined_ids(remapped_of(mask.out, mask.all_ids(), l.mask_prefix())) == prefix_all(
            defined_ids(mask.out),
            l.mask_prefix(),
        ),
{
    let ids = mask.all_ids();
    let a = defined_ids(mask.defs);
    let b = defined_ids(mask.out);
    assert(l.mask_prefix() =~= under(l.next_id("m"@), Seq::empty()));
    lemma_mask_prefix(l);
    lemma_ids_nonempty(mask.defs, 0);
    lemma_ids_nonempty(mask.out, 0);
    assert forall|i: int| 0 <= i < ids.len() implies plain(#[trigger] ids[i])
        && ids[i].len() > 0 by {
        if i < a.len() {
            assert(ids[i] == a[i]);
        } else {
            assert(ids[i] == b[i - a.len()]);
        }
    }
    assert forall|i: int| 0 <= i < a.len() implies ids.contains(#[trigger] a[i]) by {
        assert(ids[i] == a[i]);
    }
    assert forall|i: int| 0 <= i < b.len() implies ids.contains(#[trigger] b[i]) by {
        assert(ids[a.len() + i] == b[i]);
    }
    renaming_prefixes_names(mask.defs, ids, l.mask_prefix());
    renaming_prefixes_names(mask.out, ids, l.mask_prefix());
    renaming_prefixes_definitions(mask.defs, ids, l.mask_prefix());
    renaming_prefixes_definitions(mask.out, ids, l.mask_prefix());
}

} // verus!
