//! The ids that a text defines, piece by piece.
use vstd::prelude::*;
use vstd::string::*;

use crate::body::lemma_find_from;
use crate::ids::{closed_from, defined_from, defined_ids, lemma_find_bounds};
use crate::renaming::{lemma_find_first, lemma_find_none, lemma_finds_none};
use crate::text::{find_from, occurs_at};

verus! {

/// Whether a text does not end in the midst of `id="`.
pub open spec fn ends_clear(s: Seq<char>) -> bool {
    s.len() == 0 || (s.last() != 'i' && s.last() != 'd' && s.last() != '=')
}

/// Whether all definitions that a text begins also end in it.
pub open spec fn complete(s: Seq<char>) -> bool {
    closed_from(s, 0) && ends_clear(s)
}

/// Whether no definition begins in a text, nor between it and what follows: it holds no
/// `d=` and does not end in the midst of `id=`.
#[verifier::opaque]
pub open spec fn free(s: Seq<char>) -> bool {
    &&& forall|k: int| 0 < k < s.len() && #[trigger] s[k] == '=' ==> s[k - 1] != 'd'
    &&& ends_clear(s)
}

proof fn lemma_literals()
    ensures
        "id=\""@.len() == 4,
        "id=\""@[0] == 'i',
        "id=\""@[1] == 'd',
        "id=\""@[2] == '=',
        "id=\""@[3] == '"',
        "\""@.len() == 1,
        "\""@[0] == '"',
{
    reveal_strlit("id=\"");
    reveal_strlit("\"");
}

proof fn lemma_occurs_behind(a: Seq<char>, b: Seq<char>, pattern: Seq<char>, j: int)
    requires
        0 <= j,
    ensures
        occurs_at(a + b, pattern, a.len() + j) == occurs_at(b, pattern, j),
{
    let s = a + b;
    if j + pattern.len() <= b.len() {
        let k = a.len() + j;
        assert(s.subrange(k, k + pattern.len()) =~= b.subrange(j, j + pattern.len()));
    }
}

proof fn lemma_find_behind(a: Seq<char>, b: Seq<char>, pattern: Seq<char>, j: int)
    requires
        0 <= j,
    ensures
        find_from(a + b, pattern, a.len() + j) == (match find_from(b, pattern, j) {
            Some(i) => Some(a.len() + i),
            None => None,
        }),
    decreases b.len() + 1 - j,
{
    lemma_occurs_behind(a, b, pattern, j);
    if j + pattern.len() <= b.len() && !occurs_at(b, pattern, j) {
        lemma_find_behind(a, b, pattern, j + 1);
    }
}

// What stands before the offset does not matter.
proof fn lemma_defined_behind(a: Seq<char>, b: Seq<char>, j: int)
    requires
        0 <= j <= b.len(),
    ensures
        defined_from(a + b, a.len() + j) == defined_from(b, j),
        closed_from(a + b, a.len() + j) == closed_from(b, j),
    decreases b.len() - j,
{
    lemma_literals();
    lemma_find_behind(a, b, "id=\""@, j);
    lemma_find_bounds(b, "id=\""@, j);
    if let Some(n) = find_from(b, "id=\""@, j) {
        lemma_find_behind(a, b, "\""@, n + 4);
        lemma_find_bounds(b, "\""@, n + 4);
        if let Some(e) = find_from(b, "\""@, n + 4) {
            lemma_defined_behind(a, b, e + 1);
            let m = a.len();
            assert((a + b).subrange(m + n + 4, m + e) =~= b.subrange(n + 4, e));
        }
    }
}

// A first match stays the first when text follows.
proof fn lemma_find_before(a: Seq<char>, b: Seq<char>, pattern: Seq<char>, o: int)
    requires
        0 <= o,
        find_from(a, pattern, o) is Some,
    ensures
        find_from(a + b, pattern, o) == find_from(a, pattern, o),
{
    let s = a + b;
    let n = find_from(a, pattern, o)->0;
    lemma_find_bounds(a, pattern, o);
    assert(s.subrange(n, n + pattern.len()) =~= a.subrange(n, n + pattern.len()));
    assert forall|i: int| o <= i < n implies !occurs_at(s, pattern, i) by {
        lemma_find_first(a, pattern, o, i);
        if occurs_at(s, pattern, i) {
            assert(a.subrange(i, i + pattern.len()) =~= s.subrange(i, i + pattern.len()));
        }
    }
    lemma_find_from(s, pattern, o, n);
}

// A search may start behind a stretch without a match.
proof fn lemma_find_skips(s: Seq<char>, pattern: Seq<char>, from: int, to: int)
    requires
        0 <= from <= to <= s.len(),
        forall|i: int| from <= i < to ==> !#[trigger] occurs_at(s, pattern, i),
    ensures
        find_from(s, pattern, from) == find_from(s, pattern, to),
    decreases to - from,
{
    if from < to {
        assert(!occurs_at(s, pattern, from));
        if from + pattern.len() <= s.len() {
            lemma_find_skips(s, pattern, from + 1, to);
        }
    }
}

proof fn lemma_defined_concat_from(a: Seq<char>, b: Seq<char>, o: int)
    requires
        0 <= o <= a.len(),
        closed_from(a, o),
        ends_clear(a),
    ensures
        defined_from(a + b, o) == defined_from(a, o) + defined_ids(b),
        closed_from(a + b, o) == closed_from(b, 0),
    decreases a.len() - o,
{
    lemma_literals();
    let s = a + b;
    let needle = "id=\""@;
    lemma_find_bounds(a, needle, o);
    match find_from(a, needle, o) {
        Some(n) => {
            lemma_find_before(a, b, needle, o);
            lemma_find_bounds(a, "\""@, n + 4);
            let e = find_from(a, "\""@, n + 4)->0;
            lemma_find_before(a, b, "\""@, n + 4);
            lemma_defined_concat_from(a, b, e + 1);
            let id = a.subrange(n + 4, e);
            assert(s.subrange(n + 4, e) =~= id);
            let first = if id.len() > 0 {
                seq![id]
            } else {
                Seq::empty()
            };
            assert(first + (defined_from(a, e + 1) + defined_ids(b)) =~= first + defined_from(
                a,
                e + 1,
            ) + defined_ids(b));
        },
        None => {
            assert forall|i: int| o <= i < a.len() implies !#[trigger] occurs_at(s, needle, i) by {
                lemma_find_none(a, needle, o, i);
                if occurs_at(s, needle, i) {
                    let w = s.subrange(i, i + 4);
                    if i + 4 <= a.len() {
                        assert(a.subrange(i, i + 4) =~= w);
                    } else {
                        assert(w[a.len() - 1 - i] == a.last());
                    }
                }
            }
            lemma_find_skips(s, needle, o, a.len() as int);
            lemma_defined_behind(a, b, 0);
            assert(defined_from(s, o) == defined_from(s, a.len() as int));
            assert(closed_from(s, o) == closed_from(s, a.len() as int));
            assert(Seq::<Seq<char>>::empty() + defined_ids(b) =~= defined_ids(b));
        },
    }
}

/// The ids that two texts define one behind the other are those of the first, then those
/// of the second.
pub proof fn defined_ids_add_up(a: Seq<char>, b: Seq<char>)
    requires
        complete(a),
    ensures
        defined_ids(a + b) == defined_ids(a) + defined_ids(b),
        complete(b) ==> complete(a + b),
{
    lemma_defined_concat_from(a, b, 0);
    if b.len() == 0 {
        assert(a + b =~= a);
    } else {
        assert((a + b).last() == b.last());
    }
}

/// A text in which no definition begins defines no ids.
pub proof fn lemma_free(s: Seq<char>)
    requires
        free(s),
    ensures
        complete(s),
        defined_ids(s) == Seq::<Seq<char>>::empty(),
{
    reveal(free);
    lemma_literals();
    let needle = "id=\""@;
    assert forall|i: int| 0 <= i implies !#[trigger] occurs_at(s, needle, i) by {
        if occurs_at(s, needle, i) {
            let w = s.subrange(i, i + 4);
            assert(w[1] == s[i + 1]);
            assert(w[2] == s[i + 2]);
        }
    }
    lemma_finds_none(s, needle, 0);
}

/// Two such texts one behind the other are one.
pub broadcast proof fn lemma_free_concat(a: Seq<char>, b: Seq<char>)
    requires
        free(a),
        free(b),
    ensures
        #[trigger] free(a + b),
{
    reveal(free);
    let s = a + b;
    assert forall|k: int| 0 < k < s.len() && #[trigger] s[k] == '=' implies s[k - 1] != 'd' by {
        if k < a.len() {
            assert(a[k] == '=');
        } else if k == a.len() {
            assert(s[k - 1] == a.last());
        } else {
            assert(b[k - a.len()] == '=');
        }
    }
    if b.len() == 0 {
        assert(s =~= a);
    } else {
        assert(s.last() == b.last());
    }
}

/// A definition defines its id: the text before it, `id="`, the id and a quote.
pub proof fn lemma_definition(before: Seq<char>, id: Seq<char>)
    requires
        free(before),
        id.len() > 0,
        !id.contains('"'),
    ensures
        complete(before + "id=\""@ + id + "\""@),
        defined_ids(before + "id=\""@ + id + "\""@) == seq![id],
{
    lemma_literals();
    let rest = "id=\""@ + id + "\""@;
    assert(before + "id=\""@ + id + "\""@ =~= before + rest);
    lemma_free(before);
    defined_ids_add_up(before, rest);
    assert(rest.subrange(0, 4) =~= "id=\""@);
    assert(find_from(rest, "id=\""@, 0) == Some(0int));
    let e = (4 + id.len()) as int;
    assert(rest.subrange(e, e + 1) =~= "\""@);
    assert forall|i: int| 4 <= i < e implies !occurs_at(rest, "\""@, i) by {
        if occurs_at(rest, "\""@, i) {
            assert(rest.subrange(i, i + 1)[0] == '"');
            assert(id[i - 4] == '"');
        }
    }
    lemma_find_from(rest, "\""@, 4, e);
    assert(rest.subrange(4, e) =~= id);
    assert(find_from(rest, "id=\""@, e + 1) is None);
    assert(defined_from(rest, e + 1) =~= Seq::empty());
    assert(closed_from(rest, e + 1));
    assert(seq![id] + Seq::<Seq<char>>::empty() =~= seq![id]);
    assert(Seq::<Seq<char>>::empty() + seq![id] =~= seq![id]);
    assert(rest.last() == '"');
}

pub proof fn lemma_free_empty()
    ensures
        free(Seq::empty()),
{
    reveal(free);
}

/// A text without `=` that does not end in `i` or `d`.
pub proof fn lemma_free_word(s: Seq<char>)
    requires
        !s.contains('='),
        s.len() > 0 ==> s.last() != 'i' && s.last() != 'd',
    ensures
        free(s),
{
    reveal(free);
}

} // verus!
