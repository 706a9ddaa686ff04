//! Renaming of the ids of a fragment.
use vstd::prelude::*;
use vstd::string::*;
use vstd::utf8::encode_utf8;

use crate::text::{chars_of, find, find_from, occurs_at, replace_all, replaced, text_of, texts};

verus! {

/// A match lies in the text, at or behind the position that the search starts from.
pub proof fn lemma_find_bounds(s: Seq<char>, pattern: Seq<char>, from: int)
    requires
        0 <= from,
    ensures
        find_from(s, pattern, from) matches Some(i) ==> from <= i && occurs_at(s, pattern, i),
    decreases s.len() + 1 - from,
{
    if from + pattern.len() <= s.len() && !occurs_at(s, pattern, from) {
        lemma_find_bounds(s, pattern, from + 1);
    }
}

/// The ids that `id="..."` defines at or behind `offset`, in text order. An empty id
/// is none, and an id without its closing quote ends the list.
pub open spec fn defined_from(body: Seq<char>, offset: int) -> Seq<Seq<char>>
    decreases body.len() - offset,
{
    if offset < 0 {
        Seq::empty()
    } else {
        match find_from(body, "id=\""@, offset) {
            None => Seq::empty(),
            Some(p) => {
                let start = p + "id=\""@.len();
                match find_from(body, "\""@, start) {
                    None => Seq::empty(),
                    Some(end) => {
                        proof {
                            reveal_strlit("\"");
                            lemma_find_bounds(body, "id=\""@, offset);
                            lemma_find_bounds(body, "\""@, start);
                        }
                        let id = body.subrange(start, end);
                        (if id.len() > 0 {
                            seq![id]
                        } else {
                            Seq::empty()
                        }) + defined_from(body, end + 1)
                    },
                }
            },
        }
    }
}

/// Whether every id that `id="..."` defines at or behind `offset` has its closing quote.
pub open spec fn closed_from(body: Seq<char>, offset: int) -> bool
    decreases body.len() - offset,
{
    if offset < 0 {
        true
    } else {
        match find_from(body, "id=\""@, offset) {
            None => true,
            Some(p) => {
                let start = p + "id=\""@.len();
                match find_from(body, "\""@, start) {
                    None => false,
                    Some(end) => {
                        proof {
                            reveal_strlit("\"");
                            lemma_find_bounds(body, "id=\""@, offset);
                            lemma_find_bounds(body, "\""@, start);
                        }
                        closed_from(body, end + 1)
                    },
                }
            },
        }
    }
}

/// The ids that a text defines, in text order.
pub open spec fn defined_ids(body: Seq<char>) -> Seq<Seq<char>> {
    defined_from(body, 0)
}

/// Whether the first of two equally long byte sequences is the smaller.
pub open spec fn bytes_less(a: Seq<u8>, b: Seq<u8>) -> bool {
    exists|k: int|
        0 <= k < a.len() && k < b.len() && #[trigger] a[k] < b[k] && a.take(k) == b.take(k)
}

/// Whether `a` is renamed before `b`: the longer id first, of equally long ones the
/// smaller.
pub open spec fn goes_before(a: Seq<char>, b: Seq<char>) -> bool {
    let x = encode_utf8(a);
    let y = encode_utf8(b);
    x.len() > y.len() || (x.len() == y.len() && bytes_less(x, y))
}

/// Whether each id goes before those behind it.
pub open spec fn in_order(order: Seq<Seq<char>>) -> bool {
    forall|i: int, j: int| 0 <= i < j < order.len() ==> goes_before(order[i], order[j])
}

/// Whether `order` holds the given ids, each once, in the order of their renaming.
pub open spec fn is_rename_order(order: Seq<Seq<char>>, ids: Seq<Seq<char>>) -> bool {
    &&& in_order(order)
    &&& order.to_set() == ids.to_set()
}

/// The given ids, each once, in the order of their renaming.
pub open spec fn rename_order(ids: Seq<Seq<char>>) -> Seq<Seq<char>> {
    choose|order: Seq<Seq<char>>| is_rename_order(order, ids)
}

/// A definition of an id.
pub open spec fn definition(id: Seq<char>) -> Seq<char> {
    "id=\""@ + id + "\""@
}

/// A reference to an id through `url`.
pub open spec fn url_reference(id: Seq<char>) -> Seq<char> {
    "url(#"@ + id + ")"@
}

/// A reference to an id as the value of an attribute.
pub open spec fn hash_reference(id: Seq<char>) -> Seq<char> {
    "=\"#"@ + id + "\""@
}

/// A text with one id renamed, where it is defined and where it is referred to.
pub open spec fn renamed_one(s: Seq<char>, id: Seq<char>, new_id: Seq<char>) -> Seq<char> {
    let s1 = replaced(s, definition(id), definition(new_id));
    let s2 = replaced(s1, url_reference(id), url_reference(new_id));
    replaced(s2, hash_reference(id), hash_reference(new_id))
}

/// A text with the given ids prefixed one after the other.
pub open spec fn renamed(s: Seq<char>, order: Seq<Seq<char>>, prefix: Seq<char>) -> Seq<char>
    decreases order.len(),
{
    if order.len() == 0 {
        s
    } else {
        renamed_one(
            renamed(s, order.drop_last(), prefix),
            order.last(),
            prefix + order.last(),
        )
    }
}

/// A text with the given ids prefixed.
pub open spec fn remapped_of(
    body: Seq<char>,
    ids: Seq<Seq<char>>,
    prefix: Seq<char>,
) -> Seq<char> {
    renamed(body, rename_order(ids), prefix)
}

/// A fragment with the ids that it defines prefixed.
pub open spec fn remapped(body: Seq<char>, prefix: Seq<char>) -> Seq<char> {
    remapped_of(body, defined_ids(body), prefix)
}

enum Rank {
    Before,
    Same,
    After,
}

fn rank(a: &str, b: &str) -> (r: Rank)
    ensures
        match r {
            Rank::Before => goes_before(a@, b@),
            Rank::Same => a@ == b@,
            Rank::After => goes_before(b@, a@),
        },
{
    let x = a.as_bytes();
    let y = b.as_bytes();
    if x.len() > y.len() {
        return Rank::Before;
    }
    if y.len() > x.len() {
        return Rank::After;
    }
    let mut k: usize = 0;
    while k < x.len()
        invariant
            x@ == encode_utf8(a@),
            y@ == encode_utf8(b@),
            x@.len() == y@.len(),
            0 <= k <= x.len(),
            x@.take(k as int) == y@.take(k as int),
        decreases x.len() - k,
    {
        if x[k] < y[k] {
            return Rank::Before;
        }
        if y[k] < x[k] {
            return Rank::After;
        }
        proof {
            assert(x@.take(k + 1) == x@.take(k as int).push(x@[k as int]));
            assert(y@.take(k + 1) == y@.take(k as int).push(y@[k as int]));
        }
        k = k + 1;
    }
    proof {
        assert(x@.take(k as int) == x@);
        assert(y@.take(k as int) == y@);
        vstd::utf8::encode_utf8_decode_utf8(a@);
        vstd::utf8::encode_utf8_decode_utf8(b@);
    }
    Rank::Same
}

proof fn lemma_bytes_less_asymmetric(a: Seq<u8>, b: Seq<u8>)
    requires
        bytes_less(a, b),
    ensures
        !bytes_less(b, a),
{
    let k = choose|k: int|
        0 <= k < a.len() && k < b.len() && #[trigger] a[k] < b[k] && a.take(k) == b.take(k);
    if bytes_less(b, a) {
        let j = choose|j: int|
            0 <= j < b.len() && j < a.len() && #[trigger] b[j] < a[j] && b.take(j) == a.take(j);
        if j < k {
            assert(a.take(k)[j] == b.take(k)[j]);
        } else if k < j {
            assert(a.take(j)[k] == b.take(j)[k]);
        }
    }
}

proof fn lemma_bytes_less_transitive(a: Seq<u8>, b: Seq<u8>, c: Seq<u8>)
    requires
        bytes_less(a, b),
        bytes_less(b, c),
    ensures
        bytes_less(a, c),
{
    let k = choose|k: int|
        0 <= k < a.len() && k < b.len() && #[trigger] a[k] < b[k] && a.take(k) == b.take(k);
    let j = choose|j: int|
        0 <= j < b.len() && j < c.len() && #[trigger] b[j] < c[j] && b.take(j) == c.take(j);
    let m = if k < j {
        k
    } else {
        j
    };
    assert(a.take(m) =~= c.take(m)) by {
        assert forall|i: int| 0 <= i < m implies a[i] == c[i] by {
            assert(a.take(k)[i] == b.take(k)[i]);
            assert(b.take(j)[i] == c.take(j)[i]);
        }
    }
    if k < j {
        assert(b.take(j)[k] == c.take(j)[k]);
    } else if j < k {
        assert(a.take(k)[j] == b.take(k)[j]);
    }
    assert(a[m] < c[m]);
}

/// The order of renaming is strict: of two ids at most one goes before the other.
pub proof fn lemma_goes_before_asymmetric(a: Seq<char>, b: Seq<char>)
    requires
        goes_before(a, b),
    ensures
        !goes_before(b, a),
{
    if encode_utf8(a).len() == encode_utf8(b).len() {
        lemma_bytes_less_asymmetric(encode_utf8(a), encode_utf8(b));
    }
}

proof fn lemma_goes_before_transitive(a: Seq<char>, b: Seq<char>, c: Seq<char>)
    requires
        goes_before(a, b),
        goes_before(b, c),
    ensures
        goes_before(a, c),
{
    let (x, y, z) = (encode_utf8(a), encode_utf8(b), encode_utf8(c));
    if x.len() == y.len() && y.len() == z.len() {
        lemma_bytes_less_transitive(x, y, z);
    }
}

/// Two sequences in the order of renaming that hold the same ids are equal.
proof fn lemma_order_unique(a: Seq<Seq<char>>, b: Seq<Seq<char>>)
    requires
        in_order(a),
        in_order(b),
        a.to_set() == b.to_set(),
    ensures
        a == b,
    decreases a.len(),
{
    if a.len() == 0 {
        if b.len() > 0 {
            assert(b.to_set().contains(b[0]));
            assert(a.to_set().contains(b[0]));
        }
        assert(a =~= b);
    } else {
        assert(a.to_set().contains(a[0]));
        assert(b.to_set().contains(a[0]));
        let j = choose|j: int| 0 <= j < b.len() && b[j] == a[0];
        assert(b.to_set().contains(b[0]));
        assert(a.to_set().contains(b[0]));
        let k = choose|k: int| 0 <= k < a.len() && a[k] == b[0];
        if j != 0 {
            assert(goes_before(b[0], b[j]));
            if k == 0 {
                lemma_goes_before_asymmetric(b[0], b[j]);
            } else {
                assert(goes_before(a[0], a[k]));
                lemma_goes_before_asymmetric(a[0], a[k]);
            }
        }
        let a1 = a.drop_first();
        let b1 = b.drop_first();
        assert forall|x: Seq<char>| a1.to_set().contains(x) implies b1.to_set().contains(x) by {
            let i = choose|i: int| 0 <= i < a1.len() && a1[i] == x;
            assert(a[i + 1] == x);
            assert(goes_before(a[0], x));
            assert(a.to_set().contains(x));
            assert(b.to_set().contains(x));
            let l = choose|l: int| 0 <= l < b.len() && b[l] == x;
            if l == 0 {
                lemma_goes_before_asymmetric(a[0], x);
            }
            assert(b1[l - 1] == x);
        }
        assert forall|x: Seq<char>| b1.to_set().contains(x) implies a1.to_set().contains(x) by {
            let i = choose|i: int| 0 <= i < b1.len() && b1[i] == x;
            assert(b[i + 1] == x);
            assert(goes_before(b[0], x));
            assert(b.to_set().contains(x));
            assert(a.to_set().contains(x));
            let l = choose|l: int| 0 <= l < a.len() && a[l] == x;
            if l == 0 {
                lemma_goes_before_asymmetric(b[0], x);
            }
            assert(a1[l - 1] == x);
        }
        assert(a1.to_set() =~= b1.to_set());
        lemma_order_unique(a1, b1);
        assert(a =~= seq![a[0]] + a1);
        assert(b =~= seq![b[0]] + b1);
    }
}

proof fn lemma_push_to_set(ids: Seq<Seq<char>>, id: Seq<char>)
    ensures
        ids.push(id).to_set() == ids.to_set().insert(id),
{
    let more = ids.push(id);
    assert forall|x: Seq<char>|
        more.to_set().contains(x) == ids.to_set().insert(id).contains(x) by {
        if more.to_set().contains(x) {
            let k = choose|k: int| 0 <= k < more.len() && more[k] == x;
            if k < ids.len() {
                assert(ids[k] == x);
            }
        }
        if ids.to_set().contains(x) {
            let k = choose|k: int| 0 <= k < ids.len() && ids[k] == x;
            assert(more[k] == x);
        }
        assert(more[ids.len() as int] == id);
    }
    assert(more.to_set() =~= ids.to_set().insert(id));
}

/// An id put behind those that go before it, and before those that it goes before.
proof fn lemma_insert_ordered(was: Seq<Seq<char>>, name: Seq<char>, i: int)
    requires
        in_order(was),
        0 <= i <= was.len(),
        forall|j: int| 0 <= j < i ==> goes_before(#[trigger] was[j], name),
        i < was.len() ==> goes_before(name, was[i]),
    ensures
        in_order(was.insert(i, name)),
        was.insert(i, name).to_set() == was.to_set().insert(name),
{
    let now = was.insert(i, name);
    assert forall|a: int, b: int| 0 <= a < b < now.len() implies goes_before(now[a], now[b]) by {
        if a == i {
            if b > i + 1 {
                lemma_goes_before_transitive(name, was[i], was[b - 1]);
            }
        } else if b != i {
            let a0 = if a < i {
                a
            } else {
                a - 1
            };
            let b0 = if b < i {
                b
            } else {
                b - 1
            };
            assert(goes_before(was[a0], was[b0]));
        }
    }
    assert forall|x: Seq<char>|
        now.to_set().contains(x) == was.to_set().insert(name).contains(x) by {
        if now.to_set().contains(x) {
            let k = choose|k: int| 0 <= k < now.len() && now[k] == x;
            if k < i {
                assert(was[k] == x);
            } else if k > i {
                assert(was[k - 1] == x);
            }
        }
        if was.to_set().contains(x) {
            let k = choose|k: int| 0 <= k < was.len() && was[k] == x;
            if k < i {
                assert(now[k] == x);
            } else {
                assert(now[k + 1] == x);
            }
        }
        assert(now[i] == name);
    }
    assert(now.to_set() =~= was.to_set().insert(name));
}

proof fn lemma_first_difference(a: Seq<u8>, b: Seq<u8>, n: int)
    requires
        a.len() == b.len(),
        0 <= n <= a.len(),
        a.take(n) == b.take(n),
        a != b,
    ensures
        bytes_less(a, b) || bytes_less(b, a),
    decreases a.len() - n,
{
    if n == a.len() {
        assert(a.take(n) =~= a);
        assert(b.take(n) =~= b);
    } else if a[n] == b[n] {
        assert(a.take(n + 1) =~= a.take(n).push(a[n]));
        assert(b.take(n + 1) =~= b.take(n).push(b[n]));
        lemma_first_difference(a, b, n + 1);
    }
}

/// Of two different ids one goes before the other.
proof fn lemma_goes_before_total(a: Seq<char>, b: Seq<char>)
    requires
        a != b,
    ensures
        goes_before(a, b) || goes_before(b, a),
{
    let (x, y) = (encode_utf8(a), encode_utf8(b));
    vstd::utf8::encode_utf8_decode_utf8(a);
    vstd::utf8::encode_utf8_decode_utf8(b);
    if x.len() == y.len() {
        assert(x.take(0) =~= y.take(0));
        lemma_first_difference(x, y, 0);
    }
}

proof fn lemma_place(was: Seq<Seq<char>>, name: Seq<char>) -> (i: int)
    requires
        in_order(was),
        !was.contains(name),
    ensures
        0 <= i <= was.len(),
        forall|j: int| 0 <= j < i ==> goes_before(#[trigger] was[j], name),
        i < was.len() ==> goes_before(name, was[i]),
    decreases was.len(),
{
    if was.len() == 0 {
        0
    } else {
        let init = was.drop_last();
        assert forall|j: int| 0 <= j < init.len() implies init[j] == was[j] by {}
        if init.contains(name) {
            let k = choose|k: int| 0 <= k < init.len() && init[k] == name;
            assert(was[k] == name);
        }
        let k = lemma_place(init, name);
        assert forall|j: int| 0 <= j < k implies goes_before(#[trigger] was[j], name) by {
            assert(goes_before(init[j], name));
        }
        if k < init.len() {
            k
        } else {
            let last = was.last();
            assert(last != name) by {
                assert(was[was.len() - 1] == last);
            }
            lemma_goes_before_total(last, name);
            if goes_before(last, name) {
                was.len() as int
            } else {
                k
            }
        }
    }
}

/// Any ids can be put into the order of renaming.
pub proof fn lemma_rename_order(ids: Seq<Seq<char>>)
    ensures
        is_rename_order(rename_order(ids), ids),
    decreases ids.len(),
{
    if ids.len() == 0 {
        assert(is_rename_order(ids, ids));
    } else {
        let init = ids.drop_last();
        lemma_rename_order(init);
        let was = rename_order(init);
        let name = ids.last();
        lemma_push_to_set(init, name);
        assert(init.push(name) =~= ids);
        if was.contains(name) {
            assert(was.to_set().contains(name));
            assert(was.to_set().insert(name) =~= was.to_set());
            assert(is_rename_order(was, ids));
        } else {
            let i = lemma_place(was, name);
            lemma_insert_ordered(was, name, i);
            assert(is_rename_order(was.insert(i, name), ids));
        }
    }
}

/// Adds an id to those that are renamed, at its place, unless it is among them.
fn insert_ordered(order: &mut Vec<String>, id: String)
    requires
        in_order(texts(old(order)@)),
    ensures
        in_order(texts(final(order)@)),
        texts(final(order)@).to_set() == texts(old(order)@).to_set().insert(id@),
{
    let ghost was = texts(order@);
    let mut i: usize = 0;
    while i < order.len()
        invariant
            0 <= i <= order.len(),
            was == texts(order@),
            texts(old(order)@) == was,
            in_order(was),
            forall|j: int| 0 <= j < i ==> goes_before(#[trigger] was[j], id@),
        ensures
            0 <= i <= order.len(),
            i < order.len() ==> goes_before(id@, was[i as int]),
        decreases order.len() - i,
    {
        match rank(order[i].as_str(), id.as_str()) {
            Rank::Before => {
                i = i + 1;
            },
            Rank::Same => {
                proof {
                    assert(was[i as int] == id@);
                    assert(was.to_set().contains(id@));
                    assert(was.to_set().insert(id@) =~= was.to_set());
                }
                return;
            },
            Rank::After => {
                break;
            },
        }
    }
    let ghost name = id@;
    order.insert(i, id);
    proof {
        assert(texts(order@) =~= was.insert(i as int, name));
        lemma_insert_ordered(was, name, i as int);
    }
}

/// Adds the ids that a text defines to those that are renamed.
fn add_ids(order: &mut Vec<String>, body: &str)
    requires
        in_order(texts(old(order)@)),
    ensures
        in_order(texts(final(order)@)),
        texts(final(order)@).to_set() == texts(old(order)@).to_set().union(
            defined_ids(body@).to_set(),
        ),
{
    proof {
        reveal_strlit("id=\"");
        reveal_strlit("\"");
    }
    let chars = chars_of(body);
    let needle = chars_of("id=\"");
    let quote = chars_of("\"");
    let ghost was = texts(order@).to_set();
    let ghost ids = defined_ids(body@);
    let ghost mut seen: Seq<Seq<char>> = Seq::empty();
    let mut offset: usize = 0;
    proof {
        assert(seen + defined_from(body@, 0) =~= ids);
        assert(was =~= was.union(seen.to_set()));
    }
    loop
        invariant
            chars@ == body@,
            needle@ == "id=\""@,
            quote@ == "\""@,
            needle@.len() == 4,
            quote@.len() == 1,
            0 <= offset <= chars.len(),
            ids == defined_ids(body@),
            ids == seen + defined_from(body@, offset as int),
            in_order(texts(order@)),
            texts(order@).to_set() == was.union(seen.to_set()),
        ensures
            ids == seen,
            in_order(texts(order@)),
            texts(order@).to_set() == was.union(seen.to_set()),
        decreases chars.len() - offset,
    {
        match find(&chars, &needle, offset) {
            None => {
                proof {
                    assert(seen + Seq::<Seq<char>>::empty() =~= seen);
                }
                break;
            },
            Some(p) => {
                assert(p + 4 <= chars.len());
                let start = p + 4;
                match find(&chars, &quote, start) {
                    None => {
                        proof {
                            assert(seen + Seq::<Seq<char>>::empty() =~= seen);
                        }
                        break;
                    },
                    Some(end) => {
                        assert(end + 1 <= chars.len());
                        let ghost id = body@.subrange(start as int, end as int);
                        let ghost before = seen;
                        if start < end {
                            let name = text_of(&chars, start, end);
                            insert_ordered(order, name);
                            proof {
                                seen = seen.push(id);
                                lemma_push_to_set(before, id);
                                assert(was.union(before.to_set()).insert(id) =~= was.union(
                                    seen.to_set(),
                                ));
                            }
                        }
                        offset = end + 1;
                        proof {
                            let rest = defined_from(body@, offset as int);
                            if start < end {
                                assert(before + (seq![id] + rest) =~= before.push(id) + rest);
                            } else {
                                assert(Seq::<Seq<char>>::empty() + rest =~= rest);
                            }
                        }
                    },
                }
            },
        }
    }
}

/// A text with the ids of `order` prefixed one after the other.
fn rename_all(body: &str, order: &Vec<String>, prefix: &str) -> (r: String)
    ensures
        r@ == renamed(body@, texts(order@), prefix@),
{
    let mut r = body.to_owned();
    let mut i: usize = 0;
    while i < order.len()
        invariant
            0 <= i <= order.len(),
            r@ == renamed(body@, texts(order@).take(i as int), prefix@),
        decreases order.len() - i,
    {
        proof {
            reveal_strlit("id=\"");
            reveal_strlit("url(#");
            reveal_strlit("=\"#");
            let ghost t = texts(order@);
            assert(t.take(i + 1).drop_last() =~= t.take(i as int));
            assert(t.take(i + 1).last() == order@[i as int]@);
        }
        let id = order[i].as_str();
        let new_id = prefix.to_owned().concat(id);
        let new_id = new_id.as_str();
        r = replace_all(r.as_str(), definition_text(id).as_str(), definition_text(new_id).as_str());
        r = replace_all(
            r.as_str(),
            url_reference_text(id).as_str(),
            url_reference_text(new_id).as_str(),
        );
        r = replace_all(
            r.as_str(),
            hash_reference_text(id).as_str(),
            hash_reference_text(new_id).as_str(),
        );
        i = i + 1;
    }
    proof {
        assert(texts(order@).take(order@.len() as int) =~= texts(order@));
    }
    r
}

/// Prefixes every id defined in a fragment, and the references `url(#...)` and
/// `="#..."` to it, so that ids stay unique once fragments are merged into one
/// document.
pub fn remap_ids(body: &str, prefix: &str) -> (r: String)
    ensures
        r@ == remapped(body@, prefix@),
{
    let mut order: Vec<String> = Vec::new();
    proof {
        assert(texts(order@) =~= Seq::empty());
    }
    add_ids(&mut order, body);
    proof {
        let ids = defined_ids(body@);
        assert(texts(order@).to_set() =~= ids.to_set());
        lemma_rename_order(ids);
        lemma_order_unique(texts(order@), rename_order(ids));
    }
    rename_all(body, &order, prefix)
}

/// Prefixes every id defined in one of two texts that belong together, and the
/// references to it in both.
pub fn remap_ids_of_both(first: &str, second: &str, prefix: &str) -> (r: (String, String))
    ensures
        r.0@ == remapped_of(first@, defined_ids(first@) + defined_ids(second@), prefix@),
        r.1@ == remapped_of(second@, defined_ids(first@) + defined_ids(second@), prefix@),
{
    let mut order: Vec<String> = Vec::new();
    proof {
        assert(texts(order@) =~= Seq::empty());
    }
    add_ids(&mut order, first);
    add_ids(&mut order, second);
    proof {
        let a = defined_ids(first@);
        let b = defined_ids(second@);
        let ids = a + b;
        assert(ids.to_set() =~= a.to_set().union(b.to_set())) by {
            assert forall|x: Seq<char>|
                ids.to_set().contains(x) == a.to_set().union(b.to_set()).contains(x) by {
                if ids.to_set().contains(x) {
                    let k = choose|k: int| 0 <= k < ids.len() && ids[k] == x;
                    if k < a.len() {
                        assert(a[k] == x);
                    } else {
                        assert(b[k - a.len()] == x);
                    }
                }
                if a.to_set().contains(x) {
                    let k = choose|k: int| 0 <= k < a.len() && a[k] == x;
                    assert(ids[k] == x);
                }
                if b.to_set().contains(x) {
                    let k = choose|k: int| 0 <= k < b.len() && b[k] == x;
                    assert(ids[a.len() + k] == x);
                }
            }
        }
        assert(texts(order@).to_set() =~= ids.to_set());
        lemma_rename_order(ids);
        lemma_order_unique(texts(order@), rename_order(ids));
    }
    (rename_all(first, &order, prefix), rename_all(second, &order, prefix))
}

fn definition_text(id: &str) -> (r: String)
    ensures
        r@ == definition(id@),
{
    "id=\"".to_owned().concat(id).concat("\"")
}

fn url_reference_text(id: &str) -> (r: String)
    ensures
        r@ == url_reference(id@),
{
    "url(#".to_owned().concat(id).concat(")")
}

fn hash_reference_text(id: &str) -> (r: String)
    ensures
        r@ == hash_reference(id@),
{
    "=\"#".to_owned().concat(id).concat("\"")
}

} // verus!
