//! What the texts that the library reads and writes say.
use vstd::prelude::*;
use vstd::string::*;

use crate::body::inner_svg;
use crate::filter::hex_color;
use crate::shape::Rgb;
use crate::text::{
    blank, decimal, digit, find_below, find_from, find_last, hex_digit, hex_pair, occurs_at,
    replaced, replaced_from, white_space,
};

verus! {

/// The number that a numeral stands for.
pub open spec fn number_of(numeral: Seq<char>) -> int
    decreases numeral.len(),
{
    if numeral.len() == 0 {
        0
    } else {
        number_of(numeral.drop_last()) * 10 + (numeral.last() as int - '0' as int)
    }
}

/// A number is written as the decimal numeral that stands for it, without leading zeros.
pub proof fn numeral_reads_back(n: nat)
    ensures
        number_of(decimal(n)) == n,
        forall|i: int| 0 <= i < decimal(n).len() ==> '0' <= #[trigger] decimal(n)[i] <= '9',
        decimal(n).len() > 0,
        n > 0 ==> decimal(n)[0] != '0',
        n == 0 ==> decimal(n).len() == 1,
    decreases n,
{
    let last = digit(n % 10);
    assert('0' as int == 48);
    assert('0' <= last <= '9');
    assert(last as int == 48 + n % 10);
    if n < 10 {
        let s = seq![digit(n)];
        assert(digit(n) as int == 48 + n);
        assert(s.drop_last() =~= Seq::empty());
        assert(number_of(s.drop_last()) == 0);
    } else {
        numeral_reads_back(n / 10);
        let init = decimal(n / 10);
        assert(init.push(last).drop_last() =~= init);
    }
}

/// The value of a hexadecimal digit, with capital letters.
pub open spec fn hex_value(c: char) -> Option<int> {
    if '0' <= c <= '9' {
        Some(c as int - '0' as int)
    } else if 'A' <= c <= 'F' {
        Some(c as int - 'A' as int + 10)
    } else {
        None
    }
}

/// A byte is written as the two hexadecimal digits that stand for it.
pub proof fn hex_reads_back(b: u8)
    ensures
        hex_pair(b).len() == 2,
        hex_value(hex_pair(b)[0]) is Some,
        hex_value(hex_pair(b)[1]) is Some,
        hex_value(hex_pair(b)[0])->0 * 16 + hex_value(hex_pair(b)[1])->0 == b,
{
    lemma_hex_digit(b as int / 16);
    lemma_hex_digit(b as int % 16);
}

proof fn lemma_hex_digit(d: int)
    requires
        0 <= d < 16,
    ensures
        hex_value(hex_digit(d)) == Some(d),
{
    assert('0' as int == 48);
    assert('A' as int == 65);
    if d < 10 {
        assert(hex_digit(d) as int == 48 + d);
    } else {
        assert(hex_digit(d) as int == 55 + d);
    }
}

/// A color is written as a hash and six digits, two each for red, green and blue.
pub proof fn color_reads_back(color: Rgb)
    ensures
        ({
            let s = hex_color(color);
            &&& s.len() == 7
            &&& s[0] == '#'
            &&& s.subrange(1, 3) == hex_pair(color.r)
            &&& s.subrange(3, 5) == hex_pair(color.g)
            &&& s.subrange(5, 7) == hex_pair(color.b)
        }),
{
    reveal_strlit("#");
    let s = hex_color(color);
    assert(s.subrange(1, 3) =~= hex_pair(color.r));
    assert(s.subrange(3, 5) =~= hex_pair(color.g));
    assert(s.subrange(5, 7) =~= hex_pair(color.b));
}

/// A search finds the first place from a position on at which the pattern stands, and
/// fails only where there is none.
pub proof fn search_finds_the_first(s: Seq<char>, pattern: Seq<char>, from: int)
    requires
        0 <= from,
    ensures
        match find_from(s, pattern, from) {
            Some(at) => {
                &&& from <= at
                &&& occurs_at(s, pattern, at)
                &&& forall|i: int| from <= i < at ==> !#[trigger] occurs_at(s, pattern, i)
            },
            None => forall|i: int| from <= i ==> !#[trigger] occurs_at(s, pattern, i),
        },
    decreases s.len() + 1 - from,
{
    if from + pattern.len() <= s.len() && !occurs_at(s, pattern, from) {
        search_finds_the_first(s, pattern, from + 1);
    }
}

proof fn lemma_search_below(s: Seq<char>, pattern: Seq<char>, end: int)
    ensures
        match find_below(s, pattern, end) {
            Some(at) => {
                &&& at < end
                &&& occurs_at(s, pattern, at)
                &&& forall|i: int| at < i < end ==> !#[trigger] occurs_at(s, pattern, i)
            },
            None => forall|i: int| i < end ==> !#[trigger] occurs_at(s, pattern, i),
        },
    decreases end,
{
    if end > 0 && !occurs_at(s, pattern, end - 1) {
        lemma_search_below(s, pattern, end - 1);
    }
}

/// A backward search finds the last place at which the pattern stands, and fails only
/// where there is none.
pub proof fn search_finds_the_last(s: Seq<char>, pattern: Seq<char>)
    ensures
        match find_last(s, pattern) {
            Some(at) => {
                &&& occurs_at(s, pattern, at)
                &&& forall|i: int| at < i ==> !#[trigger] occurs_at(s, pattern, i)
            },
            None => forall|i: int| !#[trigger] occurs_at(s, pattern, i),
        },
{
    lemma_search_below(s, pattern, s.len() as int + 1);
}

proof fn lemma_copied(s: Seq<char>, old: Seq<char>, new: Seq<char>, i: int, j: int)
    requires
        0 <= i <= j <= s.len(),
        forall|k: int| i <= k < j ==> !#[trigger] occurs_at(s, old, k),
    ensures
        replaced_from(s, old, new, i) == s.subrange(i, j) + replaced_from(s, old, new, j),
    decreases j - i,
{
    if i < j {
        lemma_copied(s, old, new, i + 1, j);
        assert(!occurs_at(s, old, i));
        assert(seq![s[i]] + s.subrange(i + 1, j) =~= s.subrange(i, j));
        let rest = replaced_from(s, old, new, j);
        assert(seq![s[i]] + (s.subrange(i + 1, j) + rest) =~= (seq![s[i]] + s.subrange(i + 1, j))
            + rest);
    } else {
        assert(s.subrange(i, j) + replaced_from(s, old, new, j) =~= replaced_from(s, old, new, j));
    }
}

proof fn lemma_replaced_behind(before: Seq<char>, s: Seq<char>, old: Seq<char>, new: Seq<char>,
    i: int)
    requires
        0 <= i,
    ensures
        replaced_from(before + s, old, new, before.len() + i) == replaced_from(s, old, new, i),
    decreases s.len() - i,
{
    let all = before + s;
    let k = before.len() + i;
    if i < s.len() {
        if i + old.len() <= s.len() {
            assert(all.subrange(k, k + old.len()) =~= s.subrange(i, i + old.len()));
        }
        assert(occurs_at(all, old, k) == occurs_at(s, old, i));
        assert(all[k] == s[i]);
        if old.len() > 0 && occurs_at(s, old, i) {
            lemma_replaced_behind(before, s, old, new, i + old.len());
        } else {
            lemma_replaced_behind(before, s, old, new, i + 1);
        }
    }
}

/// Where a pattern does not stand in a text, replacing it changes nothing.
pub proof fn replacing_nothing_changes_nothing(s: Seq<char>, old: Seq<char>, new: Seq<char>)
    requires
        forall|i: int| !#[trigger] occurs_at(s, old, i),
    ensures
        replaced(s, old, new) == s,
{
    lemma_copied(s, old, new, 0, s.len() as int);
    assert(s.subrange(0, s.len() as int) + Seq::<char>::empty() =~= s);
}

/// The first occurrence of a pattern is replaced; what stands before it stays, and in what
/// follows behind it the pattern is replaced too.
pub proof fn replacing_goes_from_the_left(
    before: Seq<char>,
    after: Seq<char>,
    old: Seq<char>,
    new: Seq<char>,
)
    requires
        old.len() > 0,
        forall|i: int| 0 <= i < before.len() ==> !#[trigger] occurs_at(before + old + after, old,
            i),
    ensures
        replaced(before + old + after, old, new) == before + new + replaced(after, old, new),
{
    let s = before + old + after;
    let n = before.len() as int;
    lemma_copied(s, old, new, 0, n);
    assert(s.subrange(0, n) =~= before);
    assert(s.subrange(n, n + old.len()) =~= old);
    assert(occurs_at(s, old, n));
    assert(replaced_from(s, old, new, n) == new + replaced_from(s, old, new, n + old.len()));
    lemma_replaced_behind(before + old, after, old, new, 0);
    let rest = replaced(after, old, new);
    assert(before + (new + rest) =~= before + new + rest);
}

/// The characters that count as white space are those with the Unicode property of that
/// name.
pub proof fn white_space_is_that_of_unicode(c: char)
    ensures
        white_space(c) <==> seq![
            '\u{9}',
            '\u{A}',
            '\u{B}',
            '\u{C}',
            '\u{D}',
            '\u{20}',
            '\u{85}',
            '\u{A0}',
            '\u{1680}',
            '\u{2000}',
            '\u{2001}',
            '\u{2002}',
            '\u{2003}',
            '\u{2004}',
            '\u{2005}',
            '\u{2006}',
            '\u{2007}',
            '\u{2008}',
            '\u{2009}',
            '\u{200A}',
            '\u{2028}',
            '\u{2029}',
            '\u{202F}',
            '\u{205F}',
            '\u{3000}',
        ].contains(c),
{
    let all = seq![
        '\u{9}',
        '\u{A}',
        '\u{B}',
        '\u{C}',
        '\u{D}',
        '\u{20}',
        '\u{85}',
        '\u{A0}',
        '\u{1680}',
        '\u{2000}',
        '\u{2001}',
        '\u{2002}',
        '\u{2003}',
        '\u{2004}',
        '\u{2005}',
        '\u{2006}',
        '\u{2007}',
        '\u{2008}',
        '\u{2009}',
        '\u{200A}',
        '\u{2028}',
        '\u{2029}',
        '\u{202F}',
        '\u{205F}',
        '\u{3000}',
    ];
    if white_space(c) {
        let u = c as u32;
        let i: int = if u <= 0x0D {
            u - 0x09
        } else if u == 0x20 {
            5
        } else if u == 0x85 {
            6
        } else if u == 0xA0 {
            7
        } else if u == 0x1680 {
            8
        } else if u <= 0x200A {
            9 + (u - 0x2000)
        } else if u == 0x2028 {
            20
        } else if u == 0x2029 {
            21
        } else if u == 0x202F {
            22
        } else if u == 0x205F {
            23
        } else {
            24
        };
        assert(all[i] == c);
    }
    if all.contains(c) {
        let i = choose|i: int| 0 <= i < all.len() && all[i] == c;
    }
}

/// A text is blank where nothing but white space stands in it.
pub proof fn blank_is_white_space(a: Seq<char>, c: char, b: Seq<char>)
    ensures
        blank(Seq::empty()),
        blank(a + seq![c] + b) <==> blank(a) && white_space(c) && blank(b),
{
    let s = a + seq![c] + b;
    if blank(s) {
        assert(s[a.len() as int] == c);
        assert forall|i: int| 0 <= i < a.len() implies white_space(#[trigger] a[i]) by {
            assert(s[i] == a[i]);
        }
        assert forall|i: int| 0 <= i < b.len() implies white_space(#[trigger] b[i]) by {
            assert(s[a.len() + 1 + i] == b[i]);
        }
    }
    if blank(a) && white_space(c) && blank(b) {
        assert forall|i: int| 0 <= i < s.len() implies white_space(#[trigger] s[i]) by {
            if i < a.len() {
                assert(s[i] == a[i]);
            } else if i > a.len() {
                assert(s[i] == b[i - a.len() - 1]);
            }
        }
    }
}

/// What is read from a document stands between the first opening tag of an `svg` and the
/// last closing one: `a` is where the one begins, `b` where it ends, `e` where the other
/// begins.
pub proof fn inner_stands_between_the_tags(doc: Seq<char>, a: int, b: int, e: int)
    requires
        occurs_at(doc, "<svg"@, a),
        forall|i: int| 0 <= i < a ==> !#[trigger] occurs_at(doc, "<svg"@, i),
        a <= b,
        occurs_at(doc, ">"@, b),
        forall|i: int| a <= i < b ==> !#[trigger] occurs_at(doc, ">"@, i),
        occurs_at(doc, "</svg>"@, e),
        forall|i: int| e < i ==> !#[trigger] occurs_at(doc, "</svg>"@, i),
    ensures
        inner_svg(doc) == (if b < e {
            doc.subrange(b + 1, e)
        } else {
            Seq::empty()
        }),
{
    search_finds_the_first(doc, "<svg"@, 0);
    search_finds_the_first(doc, ">"@, a);
    search_finds_the_last(doc, "</svg>"@);
}

/// Nothing is read from a document that lacks one of these tags.
pub proof fn inner_needs_both_tags(doc: Seq<char>)
    requires
        (forall|i: int| !#[trigger] occurs_at(doc, "<svg"@, i)) || (forall|i: int|
            !#[trigger] occurs_at(doc, "</svg>"@, i)) || (exists|a: int|
            occurs_at(doc, "<svg"@, a) && (forall|i: int|
                0 <= i < a ==> !#[trigger] occurs_at(doc, "<svg"@, i)) && (forall|i: int|
                a <= i ==> !#[trigger] occurs_at(doc, ">"@, i))),
    ensures
        inner_svg(doc) == Seq::<char>::empty(),
{
    search_finds_the_first(doc, "<svg"@, 0);
    search_finds_the_last(doc, "</svg>"@);
    if let Some(s) = find_from(doc, "<svg"@, 0) {
        search_finds_the_first(doc, ">"@, s);
        if find_last(doc, "</svg>"@) is Some {
            let a = choose|a: int|
                occurs_at(doc, "<svg"@, a) && (forall|i: int|
                    0 <= i < a ==> !#[trigger] occurs_at(doc, "<svg"@, i)) && (forall|i: int|
                    a <= i ==> !#[trigger] occurs_at(doc, ">"@, i));
            assert(a == s);
        }
    }
}

} // verus!
