//! What the renaming of ids does to a text as a whole.
//!
//! Ids are renamed one after the other, each in three textual forms. The laws below
//! say what comes out in one stroke.
use vstd::prelude::*;
use vstd::string::*;
use vstd::utf8::encode_utf8;

use crate::ids::{
    closed_from, defined_from, defined_ids, definition, goes_before, hash_reference, in_order,
    lemma_find_bounds, lemma_goes_before_asymmetric, lemma_rename_order, remapped, remapped_of, rename_order, renamed, url_reference,
};
use crate::text::{find_from, occurs_at, replaced, replaced_from};

verus! {

/// A character that the syntax of definitions and references is made of.
pub open spec fn is_delimiter(c: char) -> bool {
    c == '"' || c == '=' || c == '(' || c == ')' || c == '#'
}

/// A name without such characters.
pub open spec fn plain(name: Seq<char>) -> bool {
    forall|i: int| 0 <= i < name.len() ==> !is_delimiter(#[trigger] name[i])
}

/// Two plain names one behind the other are one.
pub proof fn lemma_plain_joined(a: Seq<char>, b: Seq<char>)
    requires
        plain(a),
        plain(b),
    ensures
        plain(a + b),
{
    let s = a + b;
    assert forall|i: int| 0 <= i < s.len() implies !is_delimiter(#[trigger] s[i]) by {
        if i < a.len() {
            assert(s[i] == a[i]);
        } else {
            assert(s[i] == b[i - a.len()]);
        }
    }
}

/// Whether a definition of `id`, or a reference to it, has its name at position `k`.
pub open spec fn named_at(s: Seq<char>, id: Seq<char>, k: int) -> bool {
    ||| occurs_at(s, definition(id), k - "id=\""@.len())
    ||| occurs_at(s, url_reference(id), k - "url(#"@.len())
    ||| occurs_at(s, hash_reference(id), k - "=\"#"@.len())
}

/// `s` from position `i` on, with `p` put before each marked position.
pub open spec fn prefixed_from(
    s: Seq<char>,
    marks: spec_fn(int) -> bool,
    p: Seq<char>,
    i: int,
) -> Seq<char>
    decreases s.len() - i,
{
    if i < 0 || i >= s.len() {
        Seq::empty()
    } else {
        (if marks(i) {
            p
        } else {
            Seq::empty()
        }) + seq![s[i]] + prefixed_from(s, marks, p, i + 1)
    }
}

/// `s` with `p` put before each marked position.
pub open spec fn prefixed(s: Seq<char>, marks: spec_fn(int) -> bool, p: Seq<char>) -> Seq<char> {
    prefixed_from(s, marks, p, 0)
}

/// The positions at which a text names one of the given ids.
pub open spec fn names_of(s: Seq<char>, ids: Seq<Seq<char>>) -> spec_fn(int) -> bool {
    |k: int| exists|i: int| 0 <= i < ids.len() && named_at(s, #[trigger] ids[i], k)
}

// The three textual forms.
spec fn opener(f: int) -> Seq<char> {
    if f == 0 {
        "id=\""@
    } else if f == 1 {
        "url(#"@
    } else {
        "=\"#"@
    }
}

spec fn closer(f: int) -> Seq<char> {
    if f == 1 {
        ")"@
    } else {
        "\""@
    }
}

spec fn form(f: int, x: Seq<char>) -> Seq<char> {
    opener(f) + x + closer(f)
}

spec fn mark_of(s: Seq<char>, x: Seq<char>, f: int, k: int) -> bool {
    occurs_at(s, form(f, x), k - opener(f).len())
}

spec fn opener_len(f: int) -> int {
    if f == 0 {
        4
    } else if f == 1 {
        5
    } else {
        3
    }
}

// The characters around a marked position.
spec fn stands(s: Seq<char>, x: Seq<char>, f: int, k: int) -> bool {
    let end = k + x.len();
    &&& k >= opener_len(f)
    &&& end < s.len()
    &&& forall|j: int| k <= j < end ==> #[trigger] s[j] == x[j - k]
    &&& f == 0 ==> s[k - 4] == 'i' && s[k - 3] == 'd' && s[k - 2] == '=' && s[k - 1] == '"'
        && s[end] == '"'
    &&& f == 1 ==> s[k - 5] == 'u' && s[k - 4] == 'r' && s[k - 3] == 'l' && s[k - 2] == '('
        && s[k - 1] == '#' && s[end] == ')'
    &&& f == 2 ==> s[k - 3] == '=' && s[k - 2] == '"' && s[k - 1] == '#' && s[end] == '"'
}

proof fn lemma_literals()
    ensures
        "id=\""@ =~= seq!['i', 'd', '=', '"'],
        "url(#"@ =~= seq!['u', 'r', 'l', '(', '#'],
        "=\"#"@ =~= seq!['=', '"', '#'],
        "\""@ =~= seq!['"'],
        ")"@ =~= seq![')'],
{
    reveal_strlit("id=\"");
    reveal_strlit("url(#");
    reveal_strlit("=\"#");
    reveal_strlit("\"");
    reveal_strlit(")");
}

proof fn lemma_form_len(f: int, x: Seq<char>)
    requires
        0 <= f < 3,
    ensures
        opener(f).len() == opener_len(f),
        form(f, x).len() == opener_len(f) + x.len() + 1,
{
    lemma_literals();
}

proof fn lemma_mark_stands(s: Seq<char>, x: Seq<char>, f: int, k: int)
    requires
        0 <= f < 3,
    ensures
        mark_of(s, x, f, k) == stands(s, x, f, k),
{
    lemma_literals();
    lemma_form_len(f, x);
    let o = opener_len(f);
    let pat = form(f, x);
    let n = x.len() as int;
    if mark_of(s, x, f, k) {
        let w = s.subrange(k - o, k - o + pat.len());
        assert(w == pat);
        assert forall|j: int| k <= j < k + n implies #[trigger] s[j] == x[j - k] by {
            assert(w[j - k + o] == pat[j - k + o]);
        }
        assert(w[0] == pat[0]);
        assert(w[1] == pat[1]);
        assert(w[2] == pat[2]);
        if f != 2 {
            assert(w[3] == pat[3]);
        }
        if f == 1 {
            assert(w[4] == pat[4]);
        }
        assert(w[o + n] == pat[o + n]);
    }
    if stands(s, x, f, k) {
        let w = s.subrange(k - o, k - o + pat.len());
        assert forall|j: int| 0 <= j < pat.len() implies w[j] == pat[j] by {
            if o <= j < o + n {
                assert(s[j - o + k] == x[j - o]);
            }
        }
        assert(w =~= pat);
    }
}

/// Two marks of plain names do not cut into each other.
proof fn lemma_marks_apart(
    s: Seq<char>,
    x: Seq<char>,
    f: int,
    k: int,
    x1: Seq<char>,
    f1: int,
    k1: int,
)
    requires
        0 <= f < 3,
        0 <= f1 < 3,
        plain(x),
        plain(x1),
        x.len() > 0,
        x1.len() > 0,
        stands(s, x, f, k),
        stands(s, x1, f1, k1),
        k - opener_len(f) < k1 <= k + x.len(),
    ensures
        k1 == k,
        x1 == x,
        f1 == f,
{
    assert(s[k1] == x1[0]);
    assert(s[k] == x[0]);
    if k1 > k {
        assert(s[k1 - 1] == x[k1 - 1 - k]);
    }
    assert(k1 == k);
    assert(f1 == f);
    let e = k + x.len();
    let e1 = k + x1.len();
    if e < e1 {
        assert(s[e] == x1[e - k]);
    }
    if e1 < e {
        assert(s[e1] == x[e1 - k]);
    }
    assert forall|j: int| 0 <= j < x.len() implies x[j] == x1[j] by {
        assert(s[k + j] == x[j]);
        assert(s[k + j] == x1[j]);
    }
    assert(x =~= x1);
}

/// Two occurrences of one form of one plain name do not overlap.
proof fn lemma_no_overlap(s: Seq<char>, x: Seq<char>, f: int, i: int, j: int)
    requires
        0 <= f < 3,
        plain(x),
        x.len() > 0,
        occurs_at(s, form(f, x), i),
        occurs_at(s, form(f, x), j),
        i < j,
    ensures
        i + form(f, x).len() <= j,
{
    lemma_form_len(f, x);
    let o = opener_len(f);
    let n = x.len() as int;
    lemma_mark_stands(s, x, f, i + o);
    lemma_mark_stands(s, x, f, j + o);
    if j < i + o + n + 1 {
        let k = i + o;
        let k1 = j + o;
        if k1 <= k + n {
            lemma_marks_apart(s, x, f, k, x, f, k1);
        } else {
            // The second opener starts inside the first name or at its closer.
            if k <= k1 - o < k + n {
                assert(s[k1 - o] == x[k1 - o - k]);
            }
            if k <= k1 - o + 1 < k + n {
                assert(s[k1 - o + 1] == x[k1 - o + 1 - k]);
            }
            if k <= k1 - o + 2 < k + n {
                assert(s[k1 - o + 2] == x[k1 - o + 2 - k]);
            }
            if k <= k1 - 2 < k + n {
                assert(s[k1 - 2] == x[k1 - 2 - k]);
            }
            assert(false);
        }
    }
}

// Replacing a form by its prefixed form puts the prefix before each occurrence's name.

proof fn lemma_unmarked_stretch(
    s: Seq<char>,
    marks: spec_fn(int) -> bool,
    p: Seq<char>,
    a: int,
    b: int,
)
    requires
        0 <= a <= b <= s.len(),
        forall|k: int| a <= k < b ==> !#[trigger] marks(k),
    ensures
        prefixed_from(s, marks, p, a) == s.subrange(a, b) + prefixed_from(s, marks, p, b),
    decreases b - a,
{
    if a < b {
        lemma_unmarked_stretch(s, marks, p, a + 1, b);
        let rest = prefixed_from(s, marks, p, b);
        assert(!marks(a));
        assert(Seq::<char>::empty() + seq![s[a]] + (s.subrange(a + 1, b) + rest) =~= s.subrange(
            a,
            b,
        ) + rest);
    } else {
        assert(s.subrange(a, b) + prefixed_from(s, marks, p, b) =~= prefixed_from(s, marks, p, b));
    }
}

spec fn occurrence_marks(s: Seq<char>, x: Seq<char>, f: int) -> spec_fn(int) -> bool {
    |k: int| mark_of(s, x, f, k)
}

proof fn lemma_replace_prefixes(s: Seq<char>, x: Seq<char>, f: int, p: Seq<char>, i: int)
    requires
        0 <= f < 3,
        plain(x),
        x.len() > 0,
        0 <= i <= s.len(),
        forall|j: int|
            j < i && #[trigger] occurs_at(s, form(f, x), j) ==> j + form(f, x).len() <= i,
    ensures
        replaced_from(s, form(f, x), form(f, p + x), i) == prefixed_from(
            s,
            occurrence_marks(s, x, f),
            p,
            i,
        ),
    decreases s.len() - i,
{
    let pat = form(f, x);
    let new = form(f, p + x);
    let o = opener_len(f);
    let n = x.len() as int;
    let marks = occurrence_marks(s, x, f);
    lemma_form_len(f, x);
    if i < s.len() {
        if occurs_at(s, pat, i) {
            let e = i + pat.len();
            assert forall|j: int| j < e && #[trigger] occurs_at(s, pat, j) implies j + pat.len()
                <= e by {
                if j > i {
                    lemma_no_overlap(s, x, f, i, j);
                } else if j < i {
                    assert(j + pat.len() <= i);
                }
            }
            lemma_replace_prefixes(s, x, f, p, e);
            assert forall|k: int| i <= k < i + o implies !#[trigger] marks(k) by {
                if marks(k) {
                    assert(occurs_at(s, pat, k - o));
                }
            }
            assert(marks(i + o)) by {
                assert(i + o - opener(f).len() == i);
            }
            assert forall|k: int| i + o + 1 <= k < e implies !#[trigger] marks(k) by {
                if marks(k) {
                    assert(occurs_at(s, pat, k - o));
                    lemma_no_overlap(s, x, f, i, k - o);
                }
            }
            lemma_unmarked_stretch(s, marks, p, i, i + o);
            lemma_unmarked_stretch(s, marks, p, i + o + 1, e);
            let rest = prefixed_from(s, marks, p, e);
            let w = s.subrange(i, e);
            assert(w == pat);
            assert(s.subrange(i, i + o) =~= opener(f)) by {
                assert forall|j: int| 0 <= j < o implies s[i + j] == opener(f)[j] by {
                    assert(w[j] == pat[j]);
                }
            }
            assert(seq![s[i + o]] + s.subrange(i + o + 1, e) =~= x + closer(f)) by {
                let l = seq![s[i + o]] + s.subrange(i + o + 1, e);
                let r = x + closer(f);
                lemma_literals();
                assert(l.len() == r.len());
                assert forall|j: int| 0 <= j < l.len() implies l[j] == r[j] by {
                    assert(w[o + j] == pat[o + j]);
                }
            }
            assert(new =~= opener(f) + p + (x + closer(f)));
            assert(prefixed_from(s, marks, p, i + o) == p + seq![s[i + o]] + (s.subrange(
                i + o + 1,
                e,
            ) + rest));
            assert(opener(f) + (p + seq![s[i + o]] + (s.subrange(i + o + 1, e) + rest))
                =~= opener(f) + p + (seq![s[i + o]] + s.subrange(i + o + 1, e)) + rest);
        } else {
            assert forall|j: int| j < i + 1 && #[trigger] occurs_at(s, pat, j) implies j + pat.len()
                <= i + 1 by {
                assert(j != i);
            }
            lemma_replace_prefixes(s, x, f, p, i + 1);
            if marks(i) {
                assert(occurs_at(s, pat, i - o));
            }
            let rest = prefixed_from(s, marks, p, i + 1);
            assert(Seq::<char>::empty() + seq![s[i]] + rest =~= seq![s[i]] + rest);
        }
    }
}

// Positions in a prefixed text.

// Where what belongs to position `n` starts in the prefixed text.
spec fn start(marks: spec_fn(int) -> bool, len: nat, n: int) -> int
    decreases n,
{
    if n <= 0 {
        0
    } else {
        start(marks, len, n - 1) + 1 + (if marks(n - 1) {
            len as int
        } else {
            0
        })
    }
}

// Where the character of position `n` stands in the prefixed text.
spec fn pos(marks: spec_fn(int) -> bool, len: nat, n: int) -> int {
    start(marks, len, n) + (if marks(n) {
        len as int
    } else {
        0
    })
}

proof fn lemma_suffix(s: Seq<char>, marks: spec_fn(int) -> bool, p: Seq<char>, n: int)
    requires
        0 <= n <= s.len(),
    ensures
        0 <= start(marks, p.len(), n) <= prefixed(s, marks, p).len(),
        n <= start(marks, p.len(), n),
        prefixed(s, marks, p).skip(start(marks, p.len(), n)) == prefixed_from(s, marks, p, n),
    decreases n,
{
    let t = prefixed(s, marks, p);
    if n == 0 {
        assert(t.skip(0) =~= t);
    } else {
        lemma_suffix(s, marks, p, n - 1);
        let a = start(marks, p.len(), n - 1);
        let b = start(marks, p.len(), n);
        let rest = prefixed_from(s, marks, p, n);
        assert(t.skip(a).len() == b - a + rest.len());
        assert(t.skip(a).skip(b - a) =~= rest);
        assert(t.skip(b) =~= t.skip(a).skip(b - a));
    }
}

proof fn lemma_at(s: Seq<char>, marks: spec_fn(int) -> bool, p: Seq<char>, n: int)
    requires
        0 <= n < s.len(),
    ensures
        n <= pos(marks, p.len(), n) < prefixed(s, marks, p).len(),
        prefixed(s, marks, p)[pos(marks, p.len(), n)] == s[n],
        start(marks, p.len(), n + 1) == pos(marks, p.len(), n) + 1,
        marks(n) ==> forall|j: int|
            0 <= j < p.len() ==> prefixed(s, marks, p)[start(marks, p.len(), n) + j]
                == #[trigger] p[j],
{
    let t = prefixed(s, marks, p);
    lemma_suffix(s, marks, p, n);
    let a = start(marks, p.len(), n);
    let d = pos(marks, p.len(), n) - a;
    let u = t.skip(a);
    assert(u.len() == d + 1 + prefixed_from(s, marks, p, n + 1).len());
    assert(u.len() == t.len() - a);
    assert(u[d] == s[n]);
    assert(t[a + d] == u[d]);
    if marks(n) {
        assert forall|j: int| 0 <= j < p.len() implies t[a + j] == #[trigger] p[j] by {
            assert(u[j] == p[j]);
            assert(t[a + j] == u[j]);
        }
    }
}

proof fn lemma_length(s: Seq<char>, marks: spec_fn(int) -> bool, p: Seq<char>)
    ensures
        prefixed(s, marks, p).len() == start(marks, p.len(), s.len() as int),
{
    lemma_suffix(s, marks, p, s.len() as int);
    let t = prefixed(s, marks, p);
    let e = start(marks, p.len(), s.len() as int);
    assert(t.skip(e).len() == 0);
}

proof fn lemma_start_monotone(marks: spec_fn(int) -> bool, len: nat, a: int, b: int)
    requires
        0 <= a < b,
    ensures
        pos(marks, len, a) < start(marks, len, b),
    decreases b - a,
{
    if a + 1 < b {
        lemma_start_monotone(marks, len, a, b - 1);
    }
}

// Every position of the prefixed text belongs to a position of the text.
proof fn lemma_locate(s: Seq<char>, marks: spec_fn(int) -> bool, p: Seq<char>, q: int, m: int) -> (n:
    int)
    requires
        0 <= m <= s.len(),
        0 <= q < start(marks, p.len(), m),
    ensures
        0 <= n < m,
        start(marks, p.len(), n) <= q <= pos(marks, p.len(), n),
    decreases m,
{
    if q < start(marks, p.len(), m - 1) {
        lemma_locate(s, marks, p, q, m - 1)
    } else {
        m - 1
    }
}

// Positions without a mark between them keep their distance.
proof fn lemma_distance(marks: spec_fn(int) -> bool, len: nat, a: int, b: int)
    requires
        0 <= a <= b,
        forall|k: int| a < k <= b ==> !#[trigger] marks(k),
    ensures
        pos(marks, len, b) == pos(marks, len, a) + (b - a),
    decreases b - a,
{
    if a < b {
        lemma_distance(marks, len, a, b - 1);
        assert(!marks(b));
    }
}

// Prefixing a prefixed text once more.

proof fn lemma_compose(
    s: Seq<char>,
    m: spec_fn(int) -> bool,
    n2: spec_fn(int) -> bool,
    t2: spec_fn(int) -> bool,
    p: Seq<char>,
    n: int,
)
    requires
        0 <= n <= s.len(),
        forall|k: int| 0 <= k < s.len() ==> t2(#[trigger] pos(m, p.len(), k)) == n2(k),
        forall|k: int, q: int|
            0 <= k < s.len() && #[trigger] start(m, p.len(), k) <= q < pos(m, p.len(), k)
                ==> !#[trigger] t2(q),
        forall|k: int| !(#[trigger] m(k) && n2(k)),
    ensures
        prefixed_from(prefixed(s, m, p), t2, p, start(m, p.len(), n)) == prefixed_from(
            s,
            |k: int| m(k) || n2(k),
            p,
            n,
        ),
    decreases s.len() - n,
{
    let t = prefixed(s, m, p);
    let both = |k: int| m(k) || n2(k);
    let a = start(m, p.len(), n);
    lemma_length(s, m, p);
    if n < s.len() {
        lemma_compose(s, m, n2, t2, p, n + 1);
        lemma_at(s, m, p, n);
        lemma_suffix(s, m, p, n);
        let c = pos(m, p.len(), n);
        let rest = prefixed_from(t, t2, p, c + 1);
        lemma_unmarked_stretch(t, t2, p, a, c);
        assert(t2(c) == n2(n));
        if m(n) {
            assert(!n2(n));
            assert(t.subrange(a, c) =~= p);
            assert(p + (Seq::<char>::empty() + seq![s[n]] + rest) =~= p + seq![s[n]] + rest);
        } else {
            assert(t.subrange(a, c) =~= Seq::<char>::empty());
            let step = (if n2(n) {
                p
            } else {
                Seq::empty()
            }) + seq![s[n]] + rest;
            assert(Seq::<char>::empty() + step =~= step);
        }
        assert(both(n) == (m(n) || n2(n)));
    } else {
        assert(t.len() == a);
    }
}

// The forms of a name in a prefixed text are those of the text.

spec fn named(s: Seq<char>, x: Seq<char>, f: int, k: int) -> bool {
    &&& 0 <= f < 3
    &&& plain(x)
    &&& x.len() > 0
    &&& stands(s, x, f, k)
}

// Every mark is a form of a plain name.
spec fn all_named(s: Seq<char>, m: spec_fn(int) -> bool) -> bool {
    forall|k: int| #[trigger]
        m(k) ==> exists|x1: Seq<char>, f1: int| #[trigger] named(s, x1, f1, k)
}

// Every mark is one, and no prefix starts at position `q` of the prefixed text.
spec fn clear_of(s: Seq<char>, m: spec_fn(int) -> bool, p: Seq<char>, q: int) -> bool {
    all_named(s, m) && forall|k: int| #[trigger] m(k) ==> start(m, p.len(), k) != q
}

// Each mark is a form of a plain name; none is form `f` of `x`, and no prefixed name
// is `x`.
spec fn apart_from(
    s: Seq<char>,
    m: spec_fn(int) -> bool,
    p: Seq<char>,
    x: Seq<char>,
    f: int,
) -> bool {
    forall|k: int| #[trigger]
        m(k) ==> exists|x1: Seq<char>, f1: int| #[trigger]
            named(s, x1, f1, k) && p + x1 != x && !(x1 == x && f1 == f)
}

// The word that a prefix is part of.
proof fn lemma_prefixed_word(
    s: Seq<char>,
    m: spec_fn(int) -> bool,
    p: Seq<char>,
    x1: Seq<char>,
    f1: int,
    k: int,
)
    requires
        plain(p),
        all_named(s, m),
        m(k),
        named(s, x1, f1, k),
    ensures
        1 <= k,
        k + x1.len() < s.len(),
        start(m, p.len(), k) >= 1,
        is_delimiter(prefixed(s, m, p)[start(m, p.len(), k) - 1]),
        pos(m, p.len(), k) + x1.len() < prefixed(s, m, p).len(),
        ({
            let c = prefixed(s, m, p)[pos(m, p.len(), k) + x1.len()];
            c == '"' || c == ')'
        }),
        forall|j: int|
            0 <= j < x1.len() ==> prefixed(s, m, p)[pos(m, p.len(), k) + j] == #[trigger] x1[j],
        forall|j: int|
            start(m, p.len(), k) <= j < pos(m, p.len(), k) + x1.len() ==> !is_delimiter(
                #[trigger] prefixed(s, m, p)[j],
            ),
{
    let t = prefixed(s, m, p);
    let n = x1.len() as int;
    assert forall|j: int| k < j <= k + n implies !#[trigger] m(j) by {
        if m(j) {
            let (x2, f2) = choose|x2: Seq<char>, f2: int| #[trigger] named(s, x2, f2, j);
            lemma_marks_apart(s, x1, f1, k, x2, f2, j);
        }
    }
    lemma_at(s, m, p, k - 1);
    assert forall|j: int| 0 <= j <= n implies t[pos(m, p.len(), k) + j] == #[trigger] s[k + j] by {
        lemma_distance(m, p.len(), k, k + j);
        lemma_at(s, m, p, k + j);
    }
    assert forall|j: int| 0 <= j < n implies t[pos(m, p.len(), k) + j] == #[trigger] x1[j] by {
        assert(s[k + j] == x1[j]);
    }
    assert(t[pos(m, p.len(), k) + n] == s[k + n]);
    lemma_distance(m, p.len(), k, k + n);
    lemma_at(s, m, p, k + n);
    lemma_at(s, m, p, k);
    let a = start(m, p.len(), k);
    let b = pos(m, p.len(), k);
    assert forall|j: int| a <= j < b + n implies !is_delimiter(#[trigger] t[j]) by {
        if j < b {
            assert(t[a + (j - a)] == p[j - a]);
        } else {
            assert(t[b + (j - b)] == x1[j - b]);
        }
    }
}

// A name that starts with a prefix is a prefixed name.
proof fn lemma_name_at_mark(
    s: Seq<char>,
    m: spec_fn(int) -> bool,
    p: Seq<char>,
    x: Seq<char>,
    f: int,
    x1: Seq<char>,
    f1: int,
    k: int,
)
    requires
        0 <= f < 3,
        plain(x),
        plain(p),
        all_named(s, m),
        m(k),
        named(s, x1, f1, k),
        stands(prefixed(s, m, p), x, f, start(m, p.len(), k)),
    ensures
        p + x1 == x,
{
    let t = prefixed(s, m, p);
    lemma_prefixed_word(s, m, p, x1, f1, k);
    lemma_at(s, m, p, k);
    let q = start(m, p.len(), k);
    let b = pos(m, p.len(), k);
    let e = b + x1.len();
    assert(is_delimiter(t[q + x.len()]));
    assert forall|j: int| q <= j < q + x.len() implies !is_delimiter(#[trigger] t[j]) by {
        assert(t[j] == x[j - q]);
    }
    assert(is_delimiter(t[e]));
    assert(e == q + x.len());
    assert forall|j: int| 0 <= j < x.len() implies (p + x1)[j] == x[j] by {
        assert(t[q + j] == x[j]);
        if j < p.len() {
            assert(t[q + j] == p[j]);
        } else {
            assert(t[b + (j - p.len())] == x1[j - p.len()]);
        }
    }
    assert(p + x1 =~= x);
}

proof fn lemma_clear(
    s: Seq<char>,
    m: spec_fn(int) -> bool,
    p: Seq<char>,
    x: Seq<char>,
    f: int,
    q: int,
)
    requires
        0 <= f < 3,
        plain(x),
        plain(p),
        apart_from(s, m, p, x, f),
        stands(prefixed(s, m, p), x, f, q),
    ensures
        clear_of(s, m, p, q),
{
    assert(all_named(s, m));
    assert forall|k: int| #[trigger] m(k) implies start(m, p.len(), k) != q by {
        let (x1, f1) = choose|x1: Seq<char>, f1: int| #[trigger]
            named(s, x1, f1, k) && p + x1 != x && !(x1 == x && f1 == f);
        if start(m, p.len(), k) == q {
            lemma_name_at_mark(s, m, p, x, f, x1, f1, k);
        }
    }
}

proof fn lemma_forward(
    s: Seq<char>,
    m: spec_fn(int) -> bool,
    p: Seq<char>,
    x: Seq<char>,
    f: int,
    n: int,
)
    requires
        apart_from(s, m, p, x, f),
        named(s, x, f, n),
    ensures
        !m(n),
        stands(prefixed(s, m, p), x, f, pos(m, p.len(), n)),
{
    let t = prefixed(s, m, p);
    let o = opener_len(f);
    let l = x.len() as int;
    assert forall|j: int| n - o < j <= n + l implies !#[trigger] m(j) by {
        if m(j) {
            let (x1, f1) = choose|x1: Seq<char>, f1: int| #[trigger]
                named(s, x1, f1, j) && p + x1 != x && !(x1 == x && f1 == f);
            lemma_marks_apart(s, x, f, n, x1, f1, j);
        }
    }
    let q = pos(m, p.len(), n);
    lemma_distance(m, p.len(), n - o, n);
    assert forall|j: int| n - o <= j <= n + l implies t[q + (j - n)] == #[trigger] s[j] by {
        lemma_distance(m, p.len(), n - o, j);
        lemma_at(s, m, p, j);
    }
    lemma_at(s, m, p, n - o);
    lemma_distance(m, p.len(), n - o, n + l);
    lemma_at(s, m, p, n + l);
    assert forall|j: int| q <= j < q + l implies #[trigger] t[j] == x[j - q] by {
        assert(s[n + (j - q)] == x[j - q]);
    }
    assert(t[q + l] == s[n + l]);
    assert(t[q - 1] == s[n - 1]);
    assert(t[q - 2] == s[n - 2]);
    assert(t[q - 3] == s[n - 3]);
    if f != 2 {
        assert(t[q - 4] == s[n - 4]);
    }
    if f == 1 {
        assert(t[q - 5] == s[n - 5]);
    }
}

// No position of a form in the prefixed text lies in a prefix.
proof fn lemma_outside_prefixes(
    s: Seq<char>,
    m: spec_fn(int) -> bool,
    p: Seq<char>,
    x: Seq<char>,
    f: int,
    q: int,
    w: int,
    k: int,
)
    requires
        0 <= f < 3,
        plain(x),
        plain(p),
        x.len() > 0,
        clear_of(s, m, p, q),
        stands(prefixed(s, m, p), x, f, q),
        q - opener_len(f) <= w <= q + x.len(),
        0 <= k < s.len(),
    ensures
        !(start(m, p.len(), k) <= w < pos(m, p.len(), k)),
{
    let t = prefixed(s, m, p);
    if start(m, p.len(), k) <= w < pos(m, p.len(), k) {
        assert(m(k));
        let (x1, f1) = choose|x1: Seq<char>, f1: int| #[trigger] named(s, x1, f1, k);
        lemma_prefixed_word(s, m, p, x1, f1, k);
        let a = start(m, p.len(), k);
        let b = pos(m, p.len(), k);
        let e = b + x1.len();
        assert(!is_delimiter(t[w]));
        if w >= q {
            // The prefix would start where the name does.
            assert(w < q + x.len());
            assert(is_delimiter(t[q - 1]));
            assert forall|j: int| q <= j < q + x.len() implies !is_delimiter(#[trigger] t[j]) by {
                assert(t[j] == x[j - q]);
            }
            if a < q {
                assert(!is_delimiter(t[q - 1]));
            }
            if a > q {
                assert(is_delimiter(t[a - 1]));
            }
            assert(a == q);
        } else {
            // The prefix stands in the letters of the opener.
            assert(f != 2);
            assert(is_delimiter(t[q - 2]));
            assert(w < q - 2);
            assert(e == q - 2) by {
                assert(is_delimiter(t[e]));
                if e > q - 2 {
                    assert(!is_delimiter(t[q - 2]));
                }
                if e < q - 2 {
                    assert(w < e);
                    assert(e == q - 3 || e == q - 4);
                }
            }
        }
    }
}

proof fn lemma_backward(
    s: Seq<char>,
    m: spec_fn(int) -> bool,
    p: Seq<char>,
    x: Seq<char>,
    f: int,
    q: int,
) -> (n: int)
    requires
        0 <= f < 3,
        plain(x),
        plain(p),
        p.len() > 0,
        x.len() > 0,
        clear_of(s, m, p, q),
        stands(prefixed(s, m, p), x, f, q),
    ensures
        0 <= n < s.len(),
        pos(m, p.len(), n) == q,
        stands(s, x, f, n),
{
    let t = prefixed(s, m, p);
    let o = opener_len(f);
    let l = x.len() as int;
    lemma_length(s, m, p);
    let a = lemma_locate(s, m, p, q - o, s.len() as int);
    lemma_outside_prefixes(s, m, p, x, f, q, q - o, a);
    assert(pos(m, p.len(), a) == q - o);
    lemma_contiguous(s, m, p, x, f, q, a, o + l);
    let n = a + o;
    assert forall|j: int| 0 <= j <= o + l implies s[a + j] == #[trigger] t[q - o + j] by {
        lemma_contiguous(s, m, p, x, f, q, a, j);
        lemma_at(s, m, p, a + j);
    }
    lemma_contiguous(s, m, p, x, f, q, a, o);
    assert forall|j: int| n <= j < n + l implies #[trigger] s[j] == x[j - n] by {
        assert(t[q - o + (j - a)] == x[j - n]);
    }
    assert(s[n + l] == t[q + l]) by {
        assert(t[q - o + (o + l)] == s[a + (o + l)]);
    }
    assert(s[n - 1] == t[q - 1]) by {
        assert(t[q - o + (o - 1)] == s[a + (o - 1)]);
    }
    assert(s[n - 2] == t[q - 2]) by {
        assert(t[q - o + (o - 2)] == s[a + (o - 2)]);
    }
    assert(s[n - 3] == t[q - 3]) by {
        assert(t[q - o + (o - 3)] == s[a + (o - 3)]);
    }
    if f != 2 {
        assert(t[q - o + (o - 4)] == s[a + (o - 4)]);
    }
    if f == 1 {
        assert(t[q - o + (o - 5)] == s[a + (o - 5)]);
    }
    n
}

// The positions of a form in the prefixed text belong to consecutive positions.
proof fn lemma_contiguous(
    s: Seq<char>,
    m: spec_fn(int) -> bool,
    p: Seq<char>,
    x: Seq<char>,
    f: int,
    q: int,
    a: int,
    j: int,
)
    requires
        0 <= f < 3,
        plain(x),
        plain(p),
        p.len() > 0,
        x.len() > 0,
        clear_of(s, m, p, q),
        stands(prefixed(s, m, p), x, f, q),
        0 <= a < s.len(),
        pos(m, p.len(), a) == q - opener_len(f),
        0 <= j <= opener_len(f) + x.len(),
    ensures
        a + j < s.len(),
        pos(m, p.len(), a + j) == q - opener_len(f) + j,
    decreases j,
{
    if j > 0 {
        lemma_contiguous(s, m, p, x, f, q, a, j - 1);
        lemma_at(s, m, p, a + j - 1);
        let w = q - opener_len(f) + j;
        assert(start(m, p.len(), a + j) == w);
        lemma_length(s, m, p);
        if a + j >= s.len() {
            assert(a + j == s.len());
            assert(prefixed(s, m, p).len() == w);
            assert(false);
        }
        lemma_outside_prefixes(s, m, p, x, f, q, w, a + j);
    }
}

/// Replacing one form of a name in a prefixed text adds the marks of that form.
proof fn lemma_rename_step(
    s: Seq<char>,
    m: spec_fn(int) -> bool,
    p: Seq<char>,
    x: Seq<char>,
    f: int,
)
    requires
        0 <= f < 3,
        plain(x),
        plain(p),
        p.len() > 0,
        x.len() > 0,
        apart_from(s, m, p, x, f),
    ensures
        replaced(prefixed(s, m, p), form(f, x), form(f, p + x)) == prefixed(
            s,
            |k: int| m(k) || mark_of(s, x, f, k),
            p,
        ),
{
    let t = prefixed(s, m, p);
    let n2 = |k: int| mark_of(s, x, f, k);
    let t2 = occurrence_marks(t, x, f);
    lemma_replace_prefixes(t, x, f, p, 0);
    assert forall|k: int| 0 <= k < s.len() implies t2(#[trigger] pos(m, p.len(), k)) == n2(k) by {
        let q = pos(m, p.len(), k);
        lemma_mark_stands(s, x, f, k);
        lemma_mark_stands(t, x, f, q);
        if n2(k) {
            lemma_forward(s, m, p, x, f, k);
        }
        if t2(q) {
            lemma_clear(s, m, p, x, f, q);
            let n = lemma_backward(s, m, p, x, f, q);
            if n < k {
                lemma_start_monotone(m, p.len(), n, k);
            } else if k < n {
                lemma_start_monotone(m, p.len(), k, n);
            }
        }
    }
    assert forall|k: int, q: int|
        0 <= k < s.len() && #[trigger] start(m, p.len(), k) <= q < pos(m, p.len(), k) implies !(
    #[trigger] t2(q)) by {
        lemma_mark_stands(t, x, f, q);
        if t2(q) {
            lemma_clear(s, m, p, x, f, q);
            lemma_outside_prefixes(s, m, p, x, f, q, q, k);
        }
    }
    assert forall|k: int| !(#[trigger] m(k) && n2(k)) by {
        lemma_mark_stands(s, x, f, k);
        if n2(k) {
            lemma_forward(s, m, p, x, f, k);
        }
    }
    lemma_compose(s, m, n2, t2, p, 0);
    lemma_same_marks(s, |k: int| m(k) || n2(k), |k: int| m(k) || mark_of(s, x, f, k), p, 0);
}

proof fn lemma_same_marks(
    s: Seq<char>,
    m1: spec_fn(int) -> bool,
    m2: spec_fn(int) -> bool,
    p: Seq<char>,
    i: int,
)
    requires
        0 <= i,
        forall|k: int| 0 <= k < s.len() ==> #[trigger] m1(k) == m2(k),
    ensures
        prefixed_from(s, m1, p, i) == prefixed_from(s, m2, p, i),
    decreases s.len() - i,
{
    if i < s.len() {
        lemma_same_marks(s, m1, m2, p, i + 1);
        assert(m1(i) == m2(i));
    }
}

proof fn lemma_encoded_length(a: Seq<char>, b: Seq<char>)
    ensures
        encode_utf8(a + b).len() == encode_utf8(a).len() + encode_utf8(b).len(),
        encode_utf8(a).len() >= a.len(),
    decreases a.len(),
{
    if a.len() == 0 {
        assert(a + b =~= b);
    } else {
        lemma_encoded_length(a.drop_first(), b);
        assert((a + b).drop_first() =~= a.drop_first() + b);
        vstd::utf8::char_is_scalar(a[0]);
    }
}

proof fn lemma_replaced_same(s: Seq<char>, x: Seq<char>, i: int)
    requires
        0 <= i <= s.len(),
    ensures
        replaced_from(s, x, x, i) == s.skip(i),
    decreases s.len() - i,
{
    if i == s.len() {
        assert(s.skip(i) =~= Seq::<char>::empty());
    } else if x.len() > 0 && occurs_at(s, x, i) {
        lemma_replaced_same(s, x, i + x.len());
        assert(s.skip(i) =~= s.subrange(i, i + x.len()) + s.skip(i + x.len()));
    } else {
        lemma_replaced_same(s, x, i + 1);
        assert(s.skip(i) =~= seq![s[i]] + s.skip(i + 1));
    }
}

proof fn lemma_unprefixed(s: Seq<char>, marks: spec_fn(int) -> bool, i: int)
    requires
        0 <= i <= s.len(),
    ensures
        prefixed_from(s, marks, Seq::empty(), i) == s.skip(i),
    decreases s.len() - i,
{
    if i == s.len() {
        assert(s.skip(i) =~= Seq::<char>::empty());
    } else {
        lemma_unprefixed(s, marks, i + 1);
        assert(s.skip(i) =~= Seq::<char>::empty() + seq![s[i]] + s.skip(i + 1));
    }
}

proof fn lemma_renamed_by_nothing(s: Seq<char>, order: Seq<Seq<char>>)
    ensures
        renamed(s, order, Seq::empty()) == s,
    decreases order.len(),
{
    if order.len() > 0 {
        lemma_renamed_by_nothing(s, order.drop_last());
        let x = order.last();
        assert(Seq::<char>::empty() + x =~= x);
        lemma_replaced_same(s, definition(x), 0);
        lemma_replaced_same(s, url_reference(x), 0);
        lemma_replaced_same(s, hash_reference(x), 0);
        assert(s.skip(0) =~= s);
    }
}

proof fn lemma_renamed_is_prefixed(
    s: Seq<char>,
    order: Seq<Seq<char>>,
    p: Seq<char>,
)
    requires
        plain(p),
        p.len() > 0,
        in_order(order),
        forall|i: int| 0 <= i < order.len() ==> plain(#[trigger] order[i]) && order[i].len() > 0,
    ensures
        renamed(s, order, p) == prefixed(s, names_of(s, order), p),
    decreases order.len(),
{
    let m = names_of(s, order);
    if order.len() == 0 {
        lemma_unmarked_stretch(s, m, p, 0, s.len() as int);
        assert(s.subrange(0, s.len() as int) + Seq::<char>::empty() =~= s);
    } else {
        let init = order.drop_last();
        let x = order.last();
        let j = order.len() - 1;
        assert forall|a: int, b: int| 0 <= a < b < init.len() implies goes_before(init[a], init[b]) by {
            assert(goes_before(order[a], order[b]));
        }
        assert forall|i: int| 0 <= i < init.len() implies plain(#[trigger] init[i])
            && init[i].len() > 0 by {
            assert(plain(order[i]));
        }
        lemma_renamed_is_prefixed(s, init, p);
        let m0 = names_of(s, init);
        let m1 = |k: int| m0(k) || mark_of(s, x, 0, k);
        let m2 = |k: int| m1(k) || mark_of(s, x, 1, k);
        let m3 = |k: int| m2(k) || mark_of(s, x, 2, k);
        assert(plain(order[j]));
        lemma_encoded_length(p, x);
        assert(p + x != x);
        // Names that were prefixed before are not form `f` of `x`, and do not become `x`.
        assert forall|k: int| #[trigger] m0(k) implies exists|x1: Seq<char>, f1: int| #[trigger]
            named(s, x1, f1, k) && p + x1 != x && x1 != x by {
            let i = choose|i: int| 0 <= i < init.len() && named_at(s, #[trigger] init[i], k);
            let x1 = init[i];
            assert(x1 == order[i]);
            assert(plain(order[i]));
            assert(goes_before(order[i], order[j]));
            lemma_encoded_length(p, x1);
            if x1 == x {
                crate::ids::lemma_goes_before_asymmetric(x1, x);
            }
            lemma_mark_stands(s, x1, 0, k);
            lemma_mark_stands(s, x1, 1, k);
            lemma_mark_stands(s, x1, 2, k);
            assert(named(s, x1, 0, k) || named(s, x1, 1, k) || named(s, x1, 2, k));
        }
        assert forall|k: int, f: int| 0 <= f < 3 && #[trigger] mark_of(s, x, f, k) implies named(
            s,
            x,
            f,
            k,
        ) by {
            lemma_mark_stands(s, x, f, k);
        }
        assert(apart_from(s, m0, p, x, 0));
        lemma_rename_step(s, m0, p, x, 0);
        assert(apart_from(s, m1, p, x, 1)) by {
            assert forall|k: int| #[trigger] m1(k) implies exists|x1: Seq<char>, f1: int| #[trigger]
                named(s, x1, f1, k) && p + x1 != x && !(x1 == x && f1 == 1) by {
                if !m0(k) {
                    assert(named(s, x, 0, k));
                }
            }
        }
        lemma_rename_step(s, m1, p, x, 1);
        assert(apart_from(s, m2, p, x, 2)) by {
            assert forall|k: int| #[trigger] m2(k) implies exists|x1: Seq<char>, f1: int| #[trigger]
                named(s, x1, f1, k) && p + x1 != x && !(x1 == x && f1 == 2) by {
                if !m0(k) {
                    if mark_of(s, x, 0, k) {
                        assert(named(s, x, 0, k));
                    } else {
                        assert(named(s, x, 1, k));
                    }
                }
            }
        }
        lemma_rename_step(s, m2, p, x, 2);
        assert forall|k: int| 0 <= k < s.len() implies #[trigger] m3(k) == m(k) by {
            if m(k) {
                let i = choose|i: int| 0 <= i < order.len() && named_at(s, #[trigger] order[i], k);
                if i < j {
                    assert(named_at(s, init[i], k));
                }
            }
            if m0(k) {
                let i = choose|i: int| 0 <= i < init.len() && named_at(s, #[trigger] init[i], k);
                assert(named_at(s, order[i], k));
            }
            if m3(k) && !m0(k) {
                assert(named_at(s, order[j], k));
            }
        }
        lemma_same_marks(s, m3, m, p, 0);
    }
}

/// Renaming ids puts the prefix before every name of one of them, in definitions and
/// references alike, and changes nothing else.
///
/// The ids and the prefix are plain. An id with a delimiter in it can hold a reference
/// to another id, or overlap with itself.
pub proof fn renaming_prefixes_names(body: Seq<char>, ids: Seq<Seq<char>>, prefix: Seq<char>)
    requires
        plain(prefix),
        forall|i: int| 0 <= i < ids.len() ==> plain(#[trigger] ids[i]) && ids[i].len() > 0,
    ensures
        remapped_of(body, ids, prefix) == prefixed(body, names_of(body, ids), prefix),
{
    let order = rename_order(ids);
    lemma_rename_order(ids);
    if prefix.len() == 0 {
        assert(prefix =~= Seq::empty());
        lemma_renamed_by_nothing(body, order);
        lemma_unprefixed(body, names_of(body, ids), 0);
        assert(body.skip(0) =~= body);
    } else {
        assert forall|i: int| 0 <= i < order.len() implies plain(#[trigger] order[i])
            && order[i].len() > 0 && ids.contains(order[i]) by {
            assert(order.to_set().contains(order[i]));
            assert(ids.to_set().contains(order[i]));
            let k = choose|k: int| 0 <= k < ids.len() && ids[k] == order[i];
            assert(plain(ids[k]));
        }
        lemma_renamed_is_prefixed(body, order, prefix);
        let m1 = names_of(body, order);
        let m2 = names_of(body, ids);
        assert forall|k: int| 0 <= k < body.len() implies #[trigger] m1(k) == m2(k) by {
            if m1(k) {
                let i = choose|i: int| 0 <= i < order.len() && named_at(body, #[trigger] order[i], k);
                assert(ids.contains(order[i]));
                let l = choose|l: int| 0 <= l < ids.len() && ids[l] == order[i];
                assert(named_at(body, ids[l], k));
            }
            if m2(k) {
                let i = choose|i: int| 0 <= i < ids.len() && named_at(body, #[trigger] ids[i], k);
                assert(ids.to_set().contains(ids[i]));
                assert(order.to_set().contains(ids[i]));
                let l = choose|l: int| 0 <= l < order.len() && order[l] == ids[i];
                assert(named_at(body, order[l], k));
            }
        }
        lemma_same_marks(body, m1, m2, prefix, 0);
    }
}

/// Merging a fragment puts the prefix before every name of an id that it defines, in
/// definitions and references alike, and changes nothing else.
///
/// The ids and the prefix are plain. An id with a delimiter in it can hold a reference
/// to another id, or overlap with itself.
pub proof fn remap_prefixes_names(body: Seq<char>, prefix: Seq<char>)
    requires
        plain(prefix),
        forall|i: int|
            0 <= i < defined_ids(body).len() ==> plain(#[trigger] defined_ids(body)[i]),
    ensures
        remapped(body, prefix) == prefixed(body, names_of(body, defined_ids(body)), prefix),
{
    lemma_ids_nonempty(body, 0);
    renaming_prefixes_names(body, defined_ids(body), prefix);
}

pub proof fn lemma_ids_nonempty(body: Seq<char>, offset: int)
    requires
        0 <= offset,
    ensures
        forall|i: int|
            0 <= i < defined_from(body, offset).len() ==> (#[trigger] defined_from(
                body,
                offset,
            )[i]).len() > 0,
    decreases body.len() - offset,
{
    lemma_literals();
    if let Some(p) = find_from(body, "id=\""@, offset) {
        let start = p + "id=\""@.len();
        lemma_find_bounds(body, "id=\""@, offset);
        if let Some(end) = find_from(body, "\""@, start) {
            lemma_find_bounds(body, "\""@, start);
            lemma_ids_nonempty(body, end + 1);
            let id = body.subrange(start, end);
            let all = defined_from(body, offset);
            let rest = defined_from(body, end + 1);
            let shift: int = if id.len() > 0 {
                1
            } else {
                0
            };
            assert forall|i: int| 0 <= i < all.len() implies (#[trigger] all[i]).len() > 0 by {
                if i >= shift {
                    assert(all[i] == rest[i - shift]);
                }
            }
        }
    }
}

// The ids of a renamed text.

pub proof fn lemma_find_none(s: Seq<char>, pattern: Seq<char>, from: int, i: int)
    requires
        find_from(s, pattern, from) is None,
        from <= i,
    ensures
        !occurs_at(s, pattern, i),
    decreases i - from,
{
    if from < i && from + pattern.len() <= s.len() {
        lemma_find_none(s, pattern, from + 1, i);
    }
}

pub proof fn lemma_find_first(s: Seq<char>, pattern: Seq<char>, from: int, i: int)
    requires
        0 <= from,
        find_from(s, pattern, from) matches Some(at) && i < at,
        from <= i,
    ensures
        !occurs_at(s, pattern, i),
    decreases i - from,
{
    if from < i && !occurs_at(s, pattern, from) {
        lemma_find_first(s, pattern, from + 1, i);
    }
}

pub proof fn lemma_finds_none(s: Seq<char>, pattern: Seq<char>, from: int)
    requires
        forall|i: int| from <= i ==> !#[trigger] occurs_at(s, pattern, i),
    ensures
        find_from(s, pattern, from) is None,
    decreases s.len() + 1 - from,
{
    if from + pattern.len() <= s.len() {
        lemma_finds_none(s, pattern, from + 1);
    }
}

// The occurrences of a pattern in the prefixed text are those of the text.
spec fn carries_over(
    s: Seq<char>,
    m: spec_fn(int) -> bool,
    p: Seq<char>,
    pattern: Seq<char>,
) -> bool {
    &&& forall|n: int| #[trigger]
        occurs_at(s, pattern, n) ==> 0 <= n < s.len() && occurs_at(
            prefixed(s, m, p),
            pattern,
            pos(m, p.len(), n),
        )
    &&& forall|q: int| #[trigger]
        occurs_at(prefixed(s, m, p), pattern, q) ==> exists|n: int|
            0 <= n < s.len() && #[trigger] pos(m, p.len(), n) == q && occurs_at(s, pattern, n)
}

proof fn lemma_find_carries_over(
    s: Seq<char>,
    m: spec_fn(int) -> bool,
    p: Seq<char>,
    pattern: Seq<char>,
    o: int,
)
    requires
        0 <= o <= s.len(),
        carries_over(s, m, p, pattern),
    ensures
        match find_from(s, pattern, o) {
            Some(n) => find_from(prefixed(s, m, p), pattern, start(m, p.len(), o)) == Some(
                pos(m, p.len(), n),
            ),
            None => find_from(prefixed(s, m, p), pattern, start(m, p.len(), o)) is None,
        },
{
    let t = prefixed(s, m, p);
    let a = start(m, p.len(), o);
    lemma_suffix(s, m, p, o);
    lemma_find_bounds(s, pattern, o);
    // What stands at or behind the start belongs to a position at or behind `o`.
    assert forall|q: int| a <= q && #[trigger] occurs_at(t, pattern, q) implies exists|n: int|
        o <= n < s.len() && #[trigger] pos(m, p.len(), n) == q && occurs_at(s, pattern, n) by {
        let n = choose|n: int|
            0 <= n < s.len() && #[trigger] pos(m, p.len(), n) == q && occurs_at(s, pattern, n);
        if n < o {
            lemma_start_monotone(m, p.len(), n, o);
        }
    }
    match find_from(s, pattern, o) {
        Some(n) => {
            let q = pos(m, p.len(), n);
            if o < n {
                lemma_start_monotone(m, p.len(), o, n);
            }
            assert forall|r: int| a <= r < q implies !occurs_at(t, pattern, r) by {
                if occurs_at(t, pattern, r) {
                    let l = choose|l: int|
                        o <= l < s.len() && #[trigger] pos(m, p.len(), l) == r && occurs_at(
                            s,
                            pattern,
                            l,
                        );
                    if l < n {
                        lemma_find_first(s, pattern, o, l);
                    } else if n < l {
                        lemma_start_monotone(m, p.len(), n, l);
                    }
                }
            }
            crate::body::lemma_find_from(t, pattern, a, q);
        },
        None => {
            assert forall|r: int| a <= r implies !#[trigger] occurs_at(t, pattern, r) by {
                if occurs_at(t, pattern, r) {
                    let l = choose|l: int|
                        o <= l < s.len() && #[trigger] pos(m, p.len(), l) == r && occurs_at(
                            s,
                            pattern,
                            l,
                        );
                    lemma_find_none(s, pattern, o, l);
                }
            }
            lemma_finds_none(t, pattern, a);
        },
    }
}

proof fn lemma_quotes_carry_over(s: Seq<char>, m: spec_fn(int) -> bool, p: Seq<char>)
    requires
        plain(p),
    ensures
        carries_over(s, m, p, "\""@),
{
    lemma_literals();
    let t = prefixed(s, m, p);
    let quote = "\""@;
    assert forall|n: int| #[trigger] occurs_at(s, quote, n) implies 0 <= n < s.len() && occurs_at(
        t,
        quote,
        pos(m, p.len(), n),
    ) by {
        assert(s.subrange(n, n + 1)[0] == '"');
        lemma_at(s, m, p, n);
        let q = pos(m, p.len(), n);
        assert(t.subrange(q, q + 1) =~= quote);
    }
    assert forall|q: int| #[trigger] occurs_at(t, quote, q) implies exists|n: int|
        0 <= n < s.len() && #[trigger] pos(m, p.len(), n) == q && occurs_at(s, quote, n) by {
        assert(t.subrange(q, q + 1)[0] == '"');
        lemma_length(s, m, p);
        let n = lemma_locate(s, m, p, q, s.len() as int);
        lemma_at(s, m, p, n);
        let a = start(m, p.len(), n);
        if q < pos(m, p.len(), n) {
            assert(t[a + (q - a)] == p[q - a]);
        }
        assert(s.subrange(n, n + 1) =~= quote);
    }
}

proof fn lemma_needles_carry_over(s: Seq<char>, m: spec_fn(int) -> bool, p: Seq<char>)
    requires
        plain(p),
        p.len() > 0,
        all_named(s, m),
    ensures
        carries_over(s, m, p, "id=\""@),
{
    lemma_literals();
    let t = prefixed(s, m, p);
    let needle = "id=\""@;
    assert forall|n: int| #[trigger] occurs_at(s, needle, n) implies 0 <= n < s.len() && occurs_at(
        t,
        needle,
        pos(m, p.len(), n),
    ) by {
        let w = s.subrange(n, n + 4);
        assert(w[0] == 'i' && w[1] == 'd' && w[2] == '=' && w[3] == '"');
        assert forall|k: int| n < k <= n + 3 implies !#[trigger] m(k) by {
            if m(k) {
                let (x1, f1) = choose|x1: Seq<char>, f1: int| #[trigger] named(s, x1, f1, k);
                assert(s[k - 1] == w[k - 1 - n]);
            }
        }
        let q = pos(m, p.len(), n);
        assert forall|j: int| 0 <= j < 4 implies t[q + j] == #[trigger] w[j] by {
            lemma_distance(m, p.len(), n, n + j);
            lemma_at(s, m, p, n + j);
        }
        lemma_distance(m, p.len(), n, n + 3);
        lemma_at(s, m, p, n + 3);
        lemma_at(s, m, p, n);
        assert(t.subrange(q, q + 4) =~= needle) by {
            assert forall|j: int| 0 <= j < 4 implies t.subrange(q, q + 4)[j] == needle[j] by {
                assert(t[q + j] == w[j]);
            }
        }
    }
    assert forall|q: int| #[trigger] occurs_at(t, needle, q) implies exists|n: int|
        0 <= n < s.len() && #[trigger] pos(m, p.len(), n) == q && occurs_at(s, needle, n) by {
        let w = t.subrange(q, q + 4);
        assert(w[0] == t[q] && w[1] == t[q + 1] && w[2] == t[q + 2] && w[3] == t[q + 3]);
        lemma_length(s, m, p);
        let n = lemma_locate(s, m, p, q, s.len() as int);
        lemma_needle_outside(s, m, p, q, q, n);
        lemma_needle_contiguous(s, m, p, q, n, 3);
        lemma_needle_contiguous(s, m, p, q, n, 2);
        lemma_needle_contiguous(s, m, p, q, n, 1);
        lemma_at(s, m, p, n);
        lemma_at(s, m, p, n + 1);
        lemma_at(s, m, p, n + 2);
        lemma_at(s, m, p, n + 3);
        assert(s.subrange(n, n + 4) =~= needle);
    }
}

proof fn lemma_needle_outside(
    s: Seq<char>,
    m: spec_fn(int) -> bool,
    p: Seq<char>,
    q: int,
    w: int,
    k: int,
)
    requires
        plain(p),
        all_named(s, m),
        0 <= q,
        q + 4 <= prefixed(s, m, p).len(),
        prefixed(s, m, p)[q] == 'i',
        prefixed(s, m, p)[q + 1] == 'd',
        prefixed(s, m, p)[q + 2] == '=',
        prefixed(s, m, p)[q + 3] == '"',
        q <= w <= q + 3,
        0 <= k < s.len(),
    ensures
        !(start(m, p.len(), k) <= w < pos(m, p.len(), k)),
{
    let t = prefixed(s, m, p);
    if start(m, p.len(), k) <= w < pos(m, p.len(), k) {
        assert(m(k));
        let (x1, f1) = choose|x1: Seq<char>, f1: int| #[trigger] named(s, x1, f1, k);
        lemma_prefixed_word(s, m, p, x1, f1, k);
        let a = start(m, p.len(), k);
        let b = pos(m, p.len(), k);
        let e = b + x1.len();
        assert(!is_delimiter(t[w]));
        assert(w < q + 2);
        if e > q + 2 {
            assert(!is_delimiter(t[q + 2]));
        }
        assert(e == q + 1 || e == q + 2);
    }
}

proof fn lemma_needle_contiguous(
    s: Seq<char>,
    m: spec_fn(int) -> bool,
    p: Seq<char>,
    q: int,
    n: int,
    j: int,
)
    requires
        plain(p),
        p.len() > 0,
        all_named(s, m),
        0 <= q,
        q + 4 <= prefixed(s, m, p).len(),
        prefixed(s, m, p)[q] == 'i',
        prefixed(s, m, p)[q + 1] == 'd',
        prefixed(s, m, p)[q + 2] == '=',
        prefixed(s, m, p)[q + 3] == '"',
        0 <= n < s.len(),
        pos(m, p.len(), n) == q,
        0 <= j <= 3,
    ensures
        n + j < s.len(),
        pos(m, p.len(), n + j) == q + j,
    decreases j,
{
    if j > 0 {
        lemma_needle_contiguous(s, m, p, q, n, j - 1);
        lemma_at(s, m, p, n + j - 1);
        lemma_length(s, m, p);
        if n + j >= s.len() {
            assert(n + j == s.len());
            assert(prefixed(s, m, p).len() == q + j);
            assert(false);
        }
        lemma_needle_outside(s, m, p, q, q + j, n + j);
    }
}

/// The given names with a prefix before each.
pub open spec fn prefix_all(names: Seq<Seq<char>>, prefix: Seq<char>) -> Seq<Seq<char>> {
    names.map_values(|x: Seq<char>| prefix + x)
}

// The search for the next definition finds the same in the prefixed text.
proof fn lemma_scan_carries_over(s: Seq<char>, ids: Seq<Seq<char>>, p: Seq<char>, o: int)
    requires
        plain(p),
        p.len() > 0,
        0 <= o <= s.len(),
        forall|i: int| 0 <= i < ids.len() ==> plain(#[trigger] ids[i]) && ids[i].len() > 0,
    ensures
        ({
            let m = names_of(s, ids);
            let t = prefixed(s, m, p);
            match find_from(s, "id=\""@, o) {
                None => find_from(t, "id=\""@, start(m, p.len(), o)) is None,
                Some(n) => {
                    let b = n + 4;
                    &&& o <= n
                    &&& b <= s.len()
                    &&& occurs_at(s, "id=\""@, n)
                    &&& find_from(t, "id=\""@, start(m, p.len(), o)) == Some(pos(m, p.len(), n))
                    &&& start(m, p.len(), b) == pos(m, p.len(), n) + 4
                    &&& match find_from(s, "\""@, b) {
                        None => find_from(t, "\""@, start(m, p.len(), b)) is None,
                        Some(e) => {
                            &&& b <= e < s.len()
                            &&& s[e] == '"'
                            &&& find_from(t, "\""@, start(m, p.len(), b)) == Some(
                                pos(m, p.len(), e),
                            )
                            &&& start(m, p.len(), e + 1) == pos(m, p.len(), e) + 1
                        },
                    }
                },
            }
        }),
        all_named(s, names_of(s, ids)),
        0 <= start(names_of(s, ids), p.len(), o),
{
    let m = names_of(s, ids);
    lemma_literals();
    assert(all_named(s, m)) by {
        assert forall|k: int| #[trigger] m(k) implies exists|x1: Seq<char>, f1: int| #[trigger]
            named(s, x1, f1, k) by {
            let i = choose|i: int| 0 <= i < ids.len() && named_at(s, #[trigger] ids[i], k);
            lemma_mark_stands(s, ids[i], 0, k);
            lemma_mark_stands(s, ids[i], 1, k);
            lemma_mark_stands(s, ids[i], 2, k);
            assert(named(s, ids[i], 0, k) || named(s, ids[i], 1, k) || named(s, ids[i], 2, k));
        }
    }
    lemma_needles_carry_over(s, m, p);
    lemma_quotes_carry_over(s, m, p);
    lemma_suffix(s, m, p, o);
    lemma_find_carries_over(s, m, p, "id=\""@, o);
    lemma_find_bounds(s, "id=\""@, o);
    if let Some(n) = find_from(s, "id=\""@, o) {
        let w = s.subrange(n, n + 4);
        assert(w[0] == 'i' && w[1] == 'd' && w[2] == '=' && w[3] == '"');
        assert forall|k: int| n < k <= n + 3 implies !#[trigger] m(k) by {
            if m(k) {
                let (x1, f1) = choose|x1: Seq<char>, f1: int| #[trigger] named(s, x1, f1, k);
                assert(s[k - 1] == w[k - 1 - n]);
            }
        }
        lemma_distance(m, p.len(), n, n + 3);
        lemma_at(s, m, p, n + 3);
        let b = n + 4;
        lemma_find_carries_over(s, m, p, "\""@, b);
        lemma_find_bounds(s, "\""@, b);
        if let Some(e) = find_from(s, "\""@, b) {
            assert(s.subrange(e, e + 1)[0] == '"');
            lemma_at(s, m, p, e);
        }
    }
}

// An id behind `id="` is prefixed, and one that is not there stays away.
proof fn lemma_id_carries_over(
    s: Seq<char>,
    ids: Seq<Seq<char>>,
    p: Seq<char>,
    b: int,
    e: int,
)
    requires
        plain(p),
        p.len() > 0,
        4 <= b <= e < s.len(),
        occurs_at(s, "id=\""@, b - 4),
        find_from(s, "\""@, b) == Some(e),
        s[e] == '"',
        forall|i: int| 0 <= i < ids.len() ==> plain(#[trigger] ids[i]) && ids[i].len() > 0,
        b < e ==> ids.contains(s.subrange(b, e)),
        all_named(s, names_of(s, ids)),
    ensures
        ({
            let m = names_of(s, ids);
            let new_id = prefixed(s, m, p).subrange(start(m, p.len(), b), pos(m, p.len(), e));
            if b < e {
                new_id == p + s.subrange(b, e)
            } else {
                new_id.len() == 0
            }
        }),
{
    let m = names_of(s, ids);
    let t = prefixed(s, m, p);
    lemma_literals();
    let id = s.subrange(b, e);
    let new_id = t.subrange(start(m, p.len(), b), pos(m, p.len(), e));
    lemma_suffix(s, m, p, b);
    lemma_at(s, m, p, e);
    if b < e {
        let i = choose|i: int| 0 <= i < ids.len() && ids[i] == id;
        assert(plain(ids[i]));
        let w = s.subrange(b - 4, b);
        assert(w[0] == 'i' && w[1] == 'd' && w[2] == '=' && w[3] == '"');
        assert(stands(s, id, 0, b));
        lemma_mark_stands(s, id, 0, b);
        assert(named_at(s, ids[i], b));
        assert(m(b));
        assert forall|k: int| b < k <= e implies !#[trigger] m(k) by {
            if m(k) {
                let (x1, f1) = choose|x1: Seq<char>, f1: int| #[trigger] named(s, x1, f1, k);
                lemma_marks_apart(s, id, 0, b, x1, f1, k);
            }
        }
        lemma_distance(m, p.len(), b, e);
        lemma_at(s, m, p, b);
        let a = start(m, p.len(), b);
        assert(new_id.len() == p.len() + id.len());
        assert forall|j: int| 0 <= j < new_id.len() implies new_id[j] == (p + id)[j] by {
            if j < p.len() {
                assert(t[a + j] == p[j]);
            } else {
                lemma_distance(m, p.len(), b, b + (j - p.len()));
                lemma_at(s, m, p, b + (j - p.len()));
            }
        }
        assert(new_id =~= p + id);
    } else {
        if m(b) {
            let (x1, f1) = choose|x1: Seq<char>, f1: int| #[trigger] named(s, x1, f1, b);
            assert(s[b] == x1[0]);
        }
    }
}

proof fn lemma_defined_carries_over(s: Seq<char>, ids: Seq<Seq<char>>, p: Seq<char>, o: int)
    requires
        plain(p),
        p.len() > 0,
        0 <= o <= s.len(),
        forall|i: int| 0 <= i < ids.len() ==> plain(#[trigger] ids[i]) && ids[i].len() > 0,
        forall|i: int|
            0 <= i < defined_from(s, o).len() ==> ids.contains(#[trigger] defined_from(s, o)[i]),
    ensures
        defined_from(prefixed(s, names_of(s, ids), p), start(names_of(s, ids), p.len(), o))
            == prefix_all(defined_from(s, o), p),
    decreases s.len() - o,
{
    let m = names_of(s, ids);
    let t = prefixed(s, m, p);
    lemma_literals();
    lemma_scan_carries_over(s, ids, p, o);
    assert(prefix_all(Seq::empty(), p) =~= Seq::<Seq<char>>::empty());
    if let Some(n) = find_from(s, "id=\""@, o) {
        let b = n + 4;
        if let Some(e) = find_from(s, "\""@, b) {
            let id = s.subrange(b, e);
            let all = defined_from(s, o);
            let rest = defined_from(s, e + 1);
            let shift: int = if id.len() > 0 {
                1
            } else {
                0
            };
            assert forall|i: int| 0 <= i < rest.len() implies ids.contains(#[trigger] rest[i]) by {
                assert(rest[i] == all[i + shift]);
            }
            lemma_defined_carries_over(s, ids, p, e + 1);
            if id.len() > 0 {
                assert(all[0] == id);
                assert(ids.contains(id));
                assert(prefix_all(seq![id] + rest, p) =~= seq![p + id] + prefix_all(rest, p));
            } else {
                assert(Seq::<Seq<char>>::empty() + rest =~= rest);
                assert(Seq::<Seq<char>>::empty() + prefix_all(rest, p) =~= prefix_all(rest, p));
            }
            lemma_id_carries_over(s, ids, p, b, e);
        }
    }
}

proof fn lemma_closed_carries_over(s: Seq<char>, ids: Seq<Seq<char>>, p: Seq<char>, o: int)
    requires
        plain(p),
        p.len() > 0,
        0 <= o <= s.len(),
        forall|i: int| 0 <= i < ids.len() ==> plain(#[trigger] ids[i]) && ids[i].len() > 0,
    ensures
        closed_from(prefixed(s, names_of(s, ids), p), start(names_of(s, ids), p.len(), o))
            == closed_from(s, o),
    decreases s.len() - o,
{
    lemma_literals();
    lemma_scan_carries_over(s, ids, p, o);
    if let Some(n) = find_from(s, "id=\""@, o) {
        if let Some(e) = find_from(s, "\""@, n + 4) {
            lemma_closed_carries_over(s, ids, p, e + 1);
        }
    }
}

/// Renaming ids closes or opens no definition, and keeps the last character.
pub proof fn lemma_renaming_keeps_ends(body: Seq<char>, ids: Seq<Seq<char>>, prefix: Seq<char>)
    requires
        plain(prefix),
        prefix.len() > 0,
        forall|i: int| 0 <= i < ids.len() ==> plain(#[trigger] ids[i]) && ids[i].len() > 0,
    ensures
        closed_from(remapped_of(body, ids, prefix), 0) == closed_from(body, 0),
        (remapped_of(body, ids, prefix).len() == 0) == (body.len() == 0),
        body.len() > 0 ==> remapped_of(body, ids, prefix).last() == body.last(),
{
    let m = names_of(body, ids);
    renaming_prefixes_names(body, ids, prefix);
    lemma_closed_carries_over(body, ids, prefix, 0);
    lemma_length(body, m, prefix);
    if body.len() > 0 {
        lemma_at(body, m, prefix, body.len() - 1);
    }
}

/// After ids are renamed, all that a text defines among them, a text defines the same
/// ids, in the same order, each with the prefix.
pub proof fn renaming_prefixes_definitions(
    body: Seq<char>,
    ids: Seq<Seq<char>>,
    prefix: Seq<char>,
)
    requires
        plain(prefix),
        forall|i: int| 0 <= i < ids.len() ==> plain(#[trigger] ids[i]) && ids[i].len() > 0,
        forall|i: int|
            0 <= i < defined_ids(body).len() ==> ids.contains(#[trigger] defined_ids(body)[i]),
    ensures
        defined_ids(remapped_of(body, ids, prefix)) == prefix_all(defined_ids(body), prefix),
{
    let defined = defined_ids(body);
    if prefix.len() == 0 {
        assert(prefix =~= Seq::empty());
        lemma_renamed_by_nothing(body, rename_order(ids));
        assert(prefix_all(defined, prefix) =~= defined) by {
            assert forall|i: int| 0 <= i < defined.len() implies prefix_all(defined, prefix)[i]
                == defined[i] by {
                assert(Seq::<char>::empty() + defined[i] =~= defined[i]);
            }
        }
    } else {
        renaming_prefixes_names(body, ids, prefix);
        lemma_defined_carries_over(body, ids, prefix, 0);
    }
}

/// A merged fragment defines the ids that it defined before, in the same order, each
/// with the prefix.
pub proof fn remap_prefixes_definitions(body: Seq<char>, prefix: Seq<char>)
    requires
        plain(prefix),
        forall|i: int|
            0 <= i < defined_ids(body).len() ==> plain(#[trigger] defined_ids(body)[i]),
    ensures
        defined_ids(remapped(body, prefix)) == prefix_all(defined_ids(body), prefix),
{
    let ids = defined_ids(body);
    lemma_ids_nonempty(body, 0);
    assert forall|i: int| 0 <= i < ids.len() implies ids.contains(#[trigger] ids[i]) by {}
    renaming_prefixes_definitions(body, ids, prefix);
}

// Where definitions stand in a text with plain ids.

// No definition begins in the midst of another.
proof fn lemma_next_definition(s: Seq<char>, n: int, e: int, k: int)
    requires
        0 <= n,
        occurs_at(s, "id=\""@, n),
        find_from(s, "\""@, n + 4) == Some(e),
        plain(s.subrange(n + 4, e)),
        n < k,
        occurs_at(s, "id=\""@, k),
    ensures
        e < k,
{
    lemma_literals();
    lemma_find_bounds(s, "\""@, n + 4);
    assert(s.subrange(e, e + 1)[0] == '"');
    let v = s.subrange(n, n + 4);
    assert(v[0] == 'i' && v[1] == 'd' && v[2] == '=' && v[3] == '"');
    let w = s.subrange(k, k + 4);
    assert(w[0] == 'i' && w[1] == 'd' && w[2] == '=' && w[3] == '"');
    assert(s[k] == w[0] && s[k + 1] == w[1] && s[k + 2] == w[2] && s[k + 3] == w[3]);
    if k < n + 4 {
        assert(s[k] == v[k - n]);
        assert(k == n);
    } else if k + 2 < e {
        let id = s.subrange(n + 4, e);
        assert(id[k + 2 - (n + 4)] == '=');
        assert(is_delimiter(id[k + 2 - (n + 4)]));
    }
}

proof fn lemma_definition_stands(s: Seq<char>, x: Seq<char>, k: int)
    requires
        occurs_at(s, definition(x), k),
        !x.contains('"'),
    ensures
        occurs_at(s, "id=\""@, k),
        find_from(s, "\""@, k + 4) == Some(k + 4 + x.len()),
        s.subrange(k + 4, k + 4 + x.len()) == x,
{
    lemma_literals();
    let pat = definition(x);
    let w = s.subrange(k, k + pat.len());
    let e = k + 4 + x.len();
    assert(s.subrange(k, k + 4) =~= "id=\""@) by {
        assert forall|j: int| 0 <= j < 4 implies s[k + j] == "id=\""@[j] by {
            assert(w[j] == pat[j]);
        }
    }
    assert forall|j: int| 0 <= j < x.len() implies #[trigger] s[k + 4 + j] == x[j] by {
        assert(w[4 + j] == pat[4 + j]);
    }
    assert(s[e] == '"') by {
        let l = x.len() as int;
        assert(w[4 + l] == pat[4 + l]);
    }
    assert(s.subrange(e, e + 1) =~= "\""@);
    assert forall|i: int| k + 4 <= i < e implies !occurs_at(s, "\""@, i) by {
        if occurs_at(s, "\""@, i) {
            assert(s.subrange(i, i + 1)[0] == '"');
            assert(s[k + 4 + (i - k - 4)] == x[i - k - 4]);
        }
    }
    crate::body::lemma_find_from(s, "\""@, k + 4, e);
    let id = s.subrange(k + 4, e);
    assert forall|j: int| 0 <= j < x.len() implies id[j] == x[j] by {
        assert(s[k + 4 + j] == x[j]);
    }
    assert(id =~= x);
}

// The first definition at or behind `o`, where there is one at `k`.
proof fn lemma_first_definition(s: Seq<char>, o: int, x: Seq<char>, k: int) -> (r: (int, int))
    requires
        0 <= o <= k,
        occurs_at(s, definition(x), k),
        !x.contains('"'),
        forall|i: int| 0 <= i < defined_from(s, o).len() ==> plain(#[trigger] defined_from(s, o)[i]),
    ensures
        ({
            let (n, e) = r;
            let id = s.subrange(n + 4, e);
            let first = if id.len() > 0 {
                seq![id]
            } else {
                Seq::empty()
            };
            &&& o <= n <= k
            &&& n + 4 <= e < s.len()
            &&& occurs_at(s, "id=\""@, n)
            &&& find_from(s, "\""@, n + 4) == Some(e)
            &&& plain(id)
            &&& defined_from(s, o) == first + defined_from(s, e + 1)
            &&& n == k ==> e == k + 4 + x.len() && id == x
            &&& n < k ==> e < k
        }),
{
    lemma_literals();
    lemma_definition_stands(s, x, k);
    if find_from(s, "id=\""@, o) is None {
        lemma_find_none(s, "id=\""@, o, k);
    }
    let n = find_from(s, "id=\""@, o)->0;
    lemma_find_bounds(s, "id=\""@, o);
    if n > k {
        lemma_find_first(s, "id=\""@, o, k);
    }
    let q = k + 4 + x.len();
    lemma_find_bounds(s, "\""@, k + 4);
    if find_from(s, "\""@, n + 4) is None {
        lemma_find_none(s, "\""@, n + 4, q);
    }
    let e = find_from(s, "\""@, n + 4)->0;
    lemma_find_bounds(s, "\""@, n + 4);
    let id = s.subrange(n + 4, e);
    if id.len() > 0 {
        assert(defined_from(s, o)[0] == id);
    }
    if n < k {
        lemma_next_definition(s, n, e, k);
    }
    (n, e)
}

proof fn lemma_plain_rest(first: Seq<Seq<char>>, rest: Seq<Seq<char>>)
    requires
        forall|i: int| 0 <= i < (first + rest).len() ==> plain(#[trigger] (first + rest)[i]),
    ensures
        forall|i: int| 0 <= i < rest.len() ==> plain(#[trigger] rest[i]),
{
    assert forall|i: int| 0 <= i < rest.len() implies plain(#[trigger] rest[i]) by {
        assert((first + rest)[first.len() + i] == rest[i]);
    }
}

// Every `id="..."` at or behind `o` defines its id.
proof fn lemma_definition_counts(s: Seq<char>, o: int, x: Seq<char>, k: int)
    requires
        0 <= o <= k,
        occurs_at(s, definition(x), k),
        x.len() > 0,
        !x.contains('"'),
        forall|i: int| 0 <= i < defined_from(s, o).len() ==> plain(#[trigger] defined_from(s, o)[i]),
    ensures
        defined_from(s, o).contains(x),
    decreases s.len() - o,
{
    let (n, e) = lemma_first_definition(s, o, x, k);
    let all = defined_from(s, o);
    let rest = defined_from(s, e + 1);
    let shift = all.len() - rest.len();
    if n == k {
        assert(all[0] == x);
    } else {
        assert(all.take(shift) + rest =~= all);
        lemma_plain_rest(all.take(shift), rest);
        lemma_definition_counts(s, e + 1, x, k);
        let i = choose|i: int| 0 <= i < rest.len() && rest[i] == x;
        assert(all[shift + i] == x);
    }
}

// Two definitions of one id are two entries.
proof fn lemma_definitions_count(s: Seq<char>, o: int, x: Seq<char>, j: int, k: int)
    requires
        0 <= o <= j < k,
        occurs_at(s, definition(x), j),
        occurs_at(s, definition(x), k),
        x.len() > 0,
        !x.contains('"'),
        forall|i: int| 0 <= i < defined_from(s, o).len() ==> plain(#[trigger] defined_from(s, o)[i]),
    ensures
        !defined_from(s, o).no_duplicates(),
    decreases s.len() - o,
{
    let (n, e) = lemma_first_definition(s, o, x, j);
    let all = defined_from(s, o);
    let rest = defined_from(s, e + 1);
    let shift = all.len() - rest.len();
    assert(all.take(shift) + rest =~= all);
    lemma_plain_rest(all.take(shift), rest);
    if n == j {
        lemma_definition_stands(s, x, k);
        lemma_next_definition(s, n, e, k);
        lemma_definition_counts(s, e + 1, x, k);
        let i = choose|i: int| 0 <= i < rest.len() && rest[i] == x;
        assert(all[0] == x);
        assert(all[shift + i] == x);
    } else {
        lemma_definitions_count(s, e + 1, x, j, k);
        if all.no_duplicates() {
            assert forall|a: int, b: int|
                0 <= a < rest.len() && 0 <= b < rest.len() && a != b implies rest[a] != rest[b] by {
                assert(all[shift + a] == rest[a]);
                assert(all[shift + b] == rest[b]);
            }
        }
    }
}

/// Where the ids of a text are plain and none is listed twice, `id="x"` stands in it at
/// one place at most, whatever `x`.
pub proof fn listed_once_stands_once(s: Seq<char>, x: Seq<char>, j: int, k: int)
    requires
        defined_ids(s).no_duplicates(),
        forall|i: int| 0 <= i < defined_ids(s).len() ==> plain(#[trigger] defined_ids(s)[i]),
        x.len() > 0,
        !x.contains('"'),
        occurs_at(s, definition(x), j),
        occurs_at(s, definition(x), k),
    ensures
        j == k,
{
    if j < k {
        lemma_definitions_count(s, 0, x, j, k);
    } else if k < j {
        lemma_definitions_count(s, 0, x, k, j);
    }
}

// Renaming twice.

/// Whether a text refers to an id.
pub open spec fn refers_to(s: Seq<char>, x: Seq<char>) -> bool {
    ||| exists|k: int| occurs_at(s, url_reference(x), k)
    ||| exists|k: int| occurs_at(s, hash_reference(x), k)
}

// A prefixed name stands where its prefix starts.
proof fn lemma_prefixed_stands(
    s: Seq<char>,
    m: spec_fn(int) -> bool,
    p: Seq<char>,
    x: Seq<char>,
    f: int,
    k: int,
)
    requires
        plain(p),
        all_named(s, m),
        m(k),
        named(s, x, f, k),
    ensures
        stands(prefixed(s, m, p), p + x, f, start(m, p.len(), k)),
{
    let t = prefixed(s, m, p);
    let o = opener_len(f);
    let q = start(m, p.len(), k);
    let b = pos(m, p.len(), k);
    let l = x.len() as int;
    lemma_prefixed_word(s, m, p, x, f, k);
    lemma_at(s, m, p, k);
    assert forall|j: int| k - o < j < k implies !#[trigger] m(j) by {
        if m(j) {
            let (x1, f1) = choose|x1: Seq<char>, f1: int| #[trigger] named(s, x1, f1, j);
            lemma_marks_apart(s, x, f, k, x1, f1, j);
        }
    }
    lemma_distance(m, p.len(), k - o, k - 1);
    lemma_at(s, m, p, k - 1);
    assert(pos(m, p.len(), k - 1) == q - 1);
    assert forall|j: int| k - o <= j < k implies t[q + (j - k)] == #[trigger] s[j] by {
        lemma_distance(m, p.len(), k - o, j);
        lemma_at(s, m, p, j);
    }
    lemma_at(s, m, p, k - o);
    assert(t[q - 1] == s[k - 1]);
    assert(t[q - 2] == s[k - 2]);
    assert(t[q - 3] == s[k - 3]);
    if f != 2 {
        assert(t[q - 4] == s[k - 4]);
    }
    if f == 1 {
        assert(t[q - 5] == s[k - 5]);
    }
    assert forall|j: int| q <= j < q + (p + x).len() implies #[trigger] t[j] == (p + x)[j - q] by {
        if j < b {
            assert(t[q + (j - q)] == p[j - q]);
        } else {
            assert(t[b + (j - b)] == x[j - b]);
        }
    }
    assert forall|j: int| k < j <= k + l implies !#[trigger] m(j) by {
        if m(j) {
            let (x1, f1) = choose|x1: Seq<char>, f1: int| #[trigger] named(s, x1, f1, j);
            lemma_marks_apart(s, x, f, k, x1, f1, j);
        }
    }
    lemma_distance(m, p.len(), k, k + l);
    lemma_at(s, m, p, k + l);
    assert(t[b + l] == s[k + l]);
}

// What stands in front of a name is no part of a prefix.
proof fn lemma_name_starts(
    s: Seq<char>,
    m: spec_fn(int) -> bool,
    p: Seq<char>,
    x: Seq<char>,
    f: int,
    w: int,
) -> (n: int)
    requires
        0 <= f < 3,
        plain(p),
        stands(prefixed(s, m, p), x, f, w),
    ensures
        0 <= n < s.len(),
        start(m, p.len(), n) == w,
{
    let t = prefixed(s, m, p);
    lemma_length(s, m, p);
    let before = lemma_locate(s, m, p, w - 1, s.len() as int);
    let a = start(m, p.len(), before);
    lemma_at(s, m, p, before);
    assert(is_delimiter(t[w - 1]));
    if w - 1 < pos(m, p.len(), before) {
        assert(t[a + (w - 1 - a)] == p[w - 1 - a]);
    }
    if before + 1 == s.len() {
        assert(t.len() == w);
    }
    before + 1
}

// The names of the prefixed text are the prefixed ones.
proof fn lemma_names_twice(s: Seq<char>, p: Seq<char>, k: int, w: int)
    requires
        plain(p),
        p.len() > 0,
        forall|i: int| 0 <= i < defined_ids(s).len() ==> plain(#[trigger] defined_ids(s)[i]),
        forall|v: Seq<char>| #[trigger]
            defined_ids(s).contains(v) && !defined_ids(s).contains(p + v) ==> !refers_to(s, p + v),
        0 <= k < s.len(),
        start(names_of(s, defined_ids(s)), p.len(), k) <= w <= pos(
            names_of(s, defined_ids(s)),
            p.len(),
            k,
        ),
    ensures
        ({
            let ids = defined_ids(s);
            let m = names_of(s, ids);
            names_of(prefixed(s, m, p), prefix_all(ids, p))(w) == (m(k) && w == start(
                m,
                p.len(),
                k,
            ))
        }),
{
    let ids = defined_ids(s);
    let m = names_of(s, ids);
    let t = prefixed(s, m, p);
    let all = prefix_all(ids, p);
    let m2 = names_of(t, all);
    lemma_ids_nonempty(s, 0);
    lemma_scan_carries_over(s, ids, p, 0);
    if m(k) && w == start(m, p.len(), k) {
        let i = choose|i: int| 0 <= i < ids.len() && named_at(s, #[trigger] ids[i], k);
        let v = ids[i];
        lemma_mark_stands(s, v, 0, k);
        lemma_mark_stands(s, v, 1, k);
        lemma_mark_stands(s, v, 2, k);
        let f: int = if mark_of(s, v, 0, k) {
            0
        } else if mark_of(s, v, 1, k) {
            1
        } else {
            2
        };
        assert(named(s, v, f, k));
        lemma_prefixed_stands(s, m, p, v, f, k);
        lemma_mark_stands(t, p + v, f, w);
        assert(all[i] == p + v);
        assert(named_at(t, all[i], w));
    }
    if m2(w) {
        let i = choose|i: int| 0 <= i < all.len() && named_at(t, #[trigger] all[i], w);
        let v = ids[i];
        let x = p + v;
        assert(all[i] == x);
        lemma_mark_stands(t, x, 0, w);
        lemma_mark_stands(t, x, 1, w);
        lemma_mark_stands(t, x, 2, w);
        let f: int = if mark_of(t, x, 0, w) {
            0
        } else if mark_of(t, x, 1, w) {
            1
        } else {
            2
        };
        assert(stands(t, x, f, w));
        let n = lemma_name_starts(s, m, p, x, f, w);
        if n < k {
            lemma_start_monotone(m, p.len(), n, k);
        } else if k < n {
            lemma_start_monotone(m, p.len(), k, n);
        }
        assert(n == k);
        assert(ids.contains(v));
        lemma_no_stray_name(s, m, p, v, f, k);
    }
}

// A prefixed name in the prefixed text was marked: it would be a stray reference else.
proof fn lemma_no_stray_name(
    s: Seq<char>,
    m: spec_fn(int) -> bool,
    p: Seq<char>,
    v: Seq<char>,
    f: int,
    k: int,
)
    requires
        plain(p),
        p.len() > 0,
        plain(v),
        v.len() > 0,
        0 <= f < 3,
        forall|i: int| 0 <= i < defined_ids(s).len() ==> plain(#[trigger] defined_ids(s)[i]),
        !defined_ids(s).contains(p + v) ==> !refers_to(s, p + v),
        m == names_of(s, defined_ids(s)),
        all_named(s, m),
        0 <= k < s.len(),
        stands(prefixed(s, m, p), p + v, f, start(m, p.len(), k)),
    ensures
        m(k),
{
    let ids = defined_ids(s);
    let x = p + v;
    let w = start(m, p.len(), k);
    assert forall|j: int| 0 <= j < x.len() implies !is_delimiter(#[trigger] x[j]) by {
        if j < p.len() {
            assert(x[j] == p[j]);
        } else {
            assert(x[j] == v[j - p.len()]);
        }
    }
    if !m(k) {
        assert(clear_of(s, m, p, w)) by {
            assert forall|j: int| #[trigger] m(j) implies start(m, p.len(), j) != w by {
                let (x1, f1) = choose|x1: Seq<char>, f1: int| #[trigger] named(s, x1, f1, j);
                if j < k {
                    lemma_start_monotone(m, p.len(), j, k);
                } else if k < j {
                    lemma_start_monotone(m, p.len(), k, j);
                }
            }
        }
        let n = lemma_backward(s, m, p, x, f, w);
        if n < k {
            lemma_start_monotone(m, p.len(), n, k);
        } else if k < n {
            lemma_start_monotone(m, p.len(), k, n);
        }
        lemma_mark_stands(s, x, f, k);
        lemma_form_len(f, x);
        lemma_literals();
        if f == 0 {
            if x.contains('"') {
                let j = choose|j: int| 0 <= j < x.len() && x[j] == '"';
                assert(is_delimiter(x[j]));
            }
            lemma_definition_counts(s, 0, x, k - 4);
        } else if !ids.contains(x) {
            if f == 1 {
                assert(occurs_at(s, url_reference(x), k - 5));
            } else {
                assert(occurs_at(s, hash_reference(x), k - 3));
            }
            assert(refers_to(s, x));
        }
        let i = choose|i: int| 0 <= i < ids.len() && ids[i] == x;
        assert(named_at(s, ids[i], k));
    }
}

// A prefix in front of each prefix.
proof fn lemma_prefixed_twice(
    s: Seq<char>,
    m: spec_fn(int) -> bool,
    t2: spec_fn(int) -> bool,
    p: Seq<char>,
    q: Seq<char>,
    n: int,
)
    requires
        p.len() > 0,
        0 <= n <= s.len(),
        forall|k: int, w: int|
            0 <= k < s.len() && #[trigger] start(m, p.len(), k) <= w <= pos(m, p.len(), k) ==> (
            #[trigger] t2(w) == (m(k) && w == start(m, p.len(), k))),
    ensures
        prefixed_from(prefixed(s, m, p), t2, q, start(m, p.len(), n)) == prefixed_from(
            s,
            m,
            q + p,
            n,
        ),
    decreases s.len() - n,
{
    let t = prefixed(s, m, p);
    let a = start(m, p.len(), n);
    lemma_length(s, m, p);
    if n < s.len() {
        lemma_prefixed_twice(s, m, t2, p, q, n + 1);
        lemma_at(s, m, p, n);
        lemma_suffix(s, m, p, n);
        let c = pos(m, p.len(), n);
        let rest = prefixed_from(t, t2, q, c + 1);
        if m(n) {
            assert(t2(a));
            assert forall|w: int| a < w <= c implies !#[trigger] t2(w) by {
                assert(start(m, p.len(), n) <= w <= pos(m, p.len(), n));
            }
            lemma_unmarked_stretch(t, t2, q, a + 1, c);
            let step = Seq::<char>::empty() + seq![s[n]] + rest;
            assert(prefixed_from(t, t2, q, c) == step);
            assert(seq![t[a]] + t.subrange(a + 1, c) =~= p) by {
                assert forall|j: int| 0 <= j < p.len() implies (seq![t[a]] + t.subrange(
                    a + 1,
                    c,
                ))[j] == p[j] by {
                    assert(t[a + j] == p[j]);
                }
            }
            assert(q + seq![t[a]] + (t.subrange(a + 1, c) + step) =~= q + (seq![t[a]] + t.subrange(
                a + 1,
                c,
            )) + seq![s[n]] + rest);
            assert(q + p + seq![s[n]] + rest =~= (q + p) + seq![s[n]] + rest);
        } else {
            assert(a == c);
            assert(!t2(c));
        }
    } else {
        assert(t.len() == a);
    }
}

/// Renaming with `p` and then with `q` is renaming once with `q + p`.
///
/// The prefixes and the ids are plain. No id becomes one that the text refers to without
/// defining it: that reference would be renamed the second time, but not the first.
pub proof fn remap_twice_is_remap_once(body: Seq<char>, p: Seq<char>, q: Seq<char>)
    requires
        plain(p),
        plain(q),
        forall|i: int|
            0 <= i < defined_ids(body).len() ==> plain(#[trigger] defined_ids(body)[i]),
        forall|v: Seq<char>| #[trigger]
            defined_ids(body).contains(v) && !defined_ids(body).contains(p + v) ==> !refers_to(
                body,
                p + v,
            ),
    ensures
        remapped(remapped(body, p), q) == remapped(body, q + p),
{
    let ids = defined_ids(body);
    let m = names_of(body, ids);
    if p.len() == 0 {
        assert(p =~= Seq::empty());
        lemma_renamed_by_nothing(body, rename_order(ids));
        assert(q + p =~= q);
    } else {
        let t = remapped(body, p);
        let all = prefix_all(ids, p);
        let t2 = names_of(t, all);
        lemma_plain_joined(q, p);
        remap_prefixes_names(body, p);
        remap_prefixes_definitions(body, p);
        assert forall|i: int| 0 <= i < all.len() implies plain(#[trigger] all[i]) by {
            lemma_plain_joined(p, ids[i]);
        }
        remap_prefixes_names(t, q);
        remap_prefixes_names(body, q + p);
        assert forall|k: int, w: int|
            0 <= k < body.len() && #[trigger] start(m, p.len(), k) <= w <= pos(
                m,
                p.len(),
                k,
            ) implies (#[trigger] t2(w) == (m(k) && w == start(m, p.len(), k))) by {
            lemma_names_twice(body, p, k, w);
        }
        lemma_prefixed_twice(body, m, t2, p, q, 0);
    }
}

/// The places at which a text names an id: behind `id="` and before a quote, in
/// parentheses behind `url(#`, and behind `="#` and before a quote.
pub proof fn names_stand_in_marks(s: Seq<char>, id: Seq<char>, k: int)
    ensures
        named_at(s, id, k) <==> {
            ||| occurs_at(s, "id=\""@ + id + "\""@, k - 4)
            ||| occurs_at(s, "url(#"@ + id + ")"@, k - 5)
            ||| occurs_at(s, "=\"#"@ + id + "\""@, k - 3)
        },
{
    lemma_literals();
}

proof fn lemma_listed_stands(s: Seq<char>, o: int, i: int) -> (k: int)
    requires
        0 <= o,
        0 <= i < defined_from(s, o).len(),
    ensures
        occurs_at(s, definition(defined_from(s, o)[i]), k),
    decreases s.len() - o,
{
    lemma_literals();
    let p = find_from(s, "id=\""@, o)->0;
    lemma_find_bounds(s, "id=\""@, o);
    let start = p + "id=\""@.len();
    let end = find_from(s, "\""@, start)->0;
    lemma_find_bounds(s, "\""@, start);
    let id = s.subrange(start, end);
    let rest = defined_from(s, end + 1);
    if id.len() > 0 {
        if i == 0 {
            assert(defined_from(s, o)[0] == id);
            assert(s.subrange(p, p + definition(id).len()) =~= definition(id)) by {
                assert(s.subrange(p, p + 4) =~= "id=\""@);
                assert(s.subrange(end, end + 1) =~= "\""@);
                assert(s.subrange(p, end + 1) =~= s.subrange(p, p + 4) + id + s.subrange(
                    end,
                    end + 1,
                ));
            }
            p
        } else {
            assert(defined_from(s, o)[i] == rest[i - 1]);
            lemma_listed_stands(s, end + 1, i - 1)
        }
    } else {
        assert(defined_from(s, o) =~= rest);
        lemma_listed_stands(s, end + 1, i)
    }
}

/// The ids that a text defines are those that stand in it behind `id="` and before a
/// quote.
///
/// They are plain. Behind an id with a delimiter in it, what stands in quotes can be part
/// of that id.
pub proof fn ids_are_those_defined(s: Seq<char>, x: Seq<char>)
    requires
        forall|i: int| 0 <= i < defined_ids(s).len() ==> plain(#[trigger] defined_ids(s)[i]),
        x.len() > 0,
        !x.contains('"'),
    ensures
        defined_ids(s).contains(x) <==> exists|k: int|
            occurs_at(s, "id=\""@ + x + "\""@, k),
{
    if defined_ids(s).contains(x) {
        let i = choose|i: int| 0 <= i < defined_ids(s).len() && defined_ids(s)[i] == x;
        let k = lemma_listed_stands(s, 0, i);
        assert(occurs_at(s, "id=\""@ + x + "\""@, k));
    }
    if exists|k: int| occurs_at(s, "id=\""@ + x + "\""@, k) {
        let k = choose|k: int| occurs_at(s, "id=\""@ + x + "\""@, k);
        lemma_definition_counts(s, 0, x, k);
    }
}

/// A text with one id renamed: in its definitions, then in references in parentheses,
/// then in those in quotes.
pub open spec fn with_id_renamed(s: Seq<char>, id: Seq<char>, new_id: Seq<char>) -> Seq<char> {
    replaced(
        replaced(
            replaced(s, "id=\""@ + id + "\""@, "id=\""@ + new_id + "\""@),
            "url(#"@ + id + ")"@,
            "url(#"@ + new_id + ")"@,
        ),
        "=\"#"@ + id + "\""@,
        "=\"#"@ + new_id + "\""@,
    )
}

/// Whether one text is longer than another, by their bytes, or as long and before it in
/// the order of the bytes.
pub open spec fn longer_or_before(a: Seq<u8>, b: Seq<u8>) -> bool {
    a.len() > b.len() || a.len() == b.len() && exists|k: int|
        0 <= k < a.len() && a.take(k) == b.take(k) && #[trigger] a[k] < b[k]
}

/// Ids are renamed in an order in which each of them stands once, the longest first, by
/// their bytes, and among those of one length in the order of the bytes.
pub proof fn longest_ids_are_renamed_first(ids: Seq<Seq<char>>)
    ensures
        rename_order(ids).no_duplicates(),
        forall|x: Seq<char>| #[trigger] rename_order(ids).contains(x) <==> ids.contains(x),
        forall|i: int, j: int|
            #![trigger rename_order(ids)[i], rename_order(ids)[j]]
            0 <= i < j < rename_order(ids).len() ==> longer_or_before(
                encode_utf8(rename_order(ids)[i]),
                encode_utf8(rename_order(ids)[j]),
            ),
{
    let order = rename_order(ids);
    lemma_rename_order(ids);
    assert forall|i: int, j: int|
        0 <= i < order.len() && 0 <= j < order.len() && i != j implies order[i] != order[j] by {
        if i < j {
            assert(goes_before(order[i], order[j]));
            lemma_goes_before_asymmetric(order[i], order[j]);
        } else {
            assert(goes_before(order[j], order[i]));
            lemma_goes_before_asymmetric(order[j], order[i]);
        }
    }
    assert forall|x: Seq<char>| #[trigger] order.contains(x) <==> ids.contains(x) by {
        assert(order.to_set().contains(x) == ids.to_set().contains(x));
    }
    assert forall|i: int, j: int|
        #![trigger order[i], order[j]]
        0 <= i < j < order.len() implies longer_or_before(
        encode_utf8(order[i]),
        encode_utf8(order[j]),
    ) by {
        assert(goes_before(order[i], order[j]));
    }
}

/// The ids are renamed one after the other in that order, each in what the renaming of the
/// one before it left.
pub proof fn ids_are_renamed_in_order(
    body: Seq<char>,
    ids: Seq<Seq<char>>,
    prefix: Seq<char>,
) -> (texts: Seq<Seq<char>>)
    ensures
        texts.len() == rename_order(ids).len() + 1,
        texts[0] == body,
        forall|i: int|
            0 <= i < rename_order(ids).len() ==> texts[i + 1] == with_id_renamed(
                texts[i],
                #[trigger] rename_order(ids)[i],
                prefix + rename_order(ids)[i],
            ),
        remapped_of(body, ids, prefix) == texts.last(),
{
    let order = rename_order(ids);
    let n = order.len();
    let texts = Seq::new((n + 1) as nat, |i: int| renamed(body, order.take(i), prefix));
    assert forall|i: int| 0 <= i < n implies texts[i + 1] == with_id_renamed(
        texts[i],
        #[trigger] order[i],
        prefix + order[i],
    ) by {
        let first = order.take(i + 1);
        assert(first.drop_last() =~= order.take(i));
        assert(first.last() == order[i]);
    }
    assert(order.take(n as int) =~= order);
    assert(order.take(0) =~= Seq::empty());
    texts
}

} // verus!
