//! Text primitives: searching, replacing, numerals and UTF-8 decoding.
use vstd::prelude::*;
use vstd::utf8::{decode_utf8, valid_utf8};

verus! {

/// `String::push` appends one character.
pub assume_specification[ std::string::String::push ](s: &mut String, c: char)
    ensures
        final(s)@ == old(s)@.push(c),
;

/// The text that `String::from_utf8_lossy` makes of a byte sequence.
pub uninterp spec fn lossy_text(bytes: Seq<u8>) -> Seq<char>;

/// Calls `String::from_utf8_lossy`.
///
/// Trusted: the text depends on the bytes alone, and bytes that already are UTF-8
/// come back as the text they encode. What replaces an ill-formed sequence is left
/// unsaid.
#[verifier::external_body]
pub(crate) fn lossy(bytes: &[u8]) -> (text: String)
    ensures
        text@ == lossy_text(bytes@),
        valid_utf8(bytes@) ==> text@ == decode_utf8(bytes@),
{
    String::from_utf8_lossy(bytes).into_owned()
}

/// The texts of a sequence of strings.
pub open spec fn texts(strings: Seq<String>) -> Seq<Seq<char>> {
    strings.map_values(|s: String| s@)
}

/// The characters of a text.
pub fn chars_of(s: &str) -> (chars: Vec<char>)
    ensures
        chars@ == s@,
{
    let mut chars: Vec<char> = Vec::new();
    for c in it: s.chars()
        invariant
            chars@ == s@.take(it.index()),
            it.seq() == s@,
    {
        proof {
            assert(s@.take(it.index() + 1) == s@.take(it.index()).push(s@[it.index()]));
        }
        chars.push(c);
    }
    proof {
        assert(s@.take(s@.len() as int) == s@);
    }
    chars
}

/// The characters from `from` up to `to`, as a text.
pub fn text_of(chars: &Vec<char>, from: usize, to: usize) -> (text: String)
    requires
        from <= to <= chars.len(),
    ensures
        text@ == chars@.subrange(from as int, to as int),
{
    let mut text = String::new();
    let mut i: usize = from;
    while i < to
        invariant
            from <= i <= to <= chars.len(),
            text@ == chars@.subrange(from as int, i as int),
        decreases to - i,
    {
        text.push(chars[i]);
        i = i + 1;
        proof {
            assert(chars@.subrange(from as int, i as int) == chars@.subrange(
                from as int,
                i - 1,
            ).push(chars@[i - 1]));
        }
    }
    text
}

/// Whether `pattern` stands in `s` at position `i`.
pub open spec fn occurs_at(s: Seq<char>, pattern: Seq<char>, i: int) -> bool {
    &&& 0 <= i
    &&& i + pattern.len() <= s.len()
    &&& s.subrange(i, i + pattern.len()) == pattern
}

/// The first position of `pattern` in `s` at or after `from`.
pub open spec fn find_from(s: Seq<char>, pattern: Seq<char>, from: int) -> Option<int>
    decreases s.len() + 1 - from,
{
    if from + pattern.len() > s.len() {
        None
    } else if occurs_at(s, pattern, from) {
        Some(from)
    } else {
        find_from(s, pattern, from + 1)
    }
}

/// The last position of `pattern` in `s` below `end`.
pub open spec fn find_below(s: Seq<char>, pattern: Seq<char>, end: int) -> Option<int>
    decreases end,
{
    if end <= 0 {
        None
    } else if occurs_at(s, pattern, end - 1) {
        Some(end - 1)
    } else {
        find_below(s, pattern, end - 1)
    }
}

/// The last position of `pattern` in `s`.
pub open spec fn find_last(s: Seq<char>, pattern: Seq<char>) -> Option<int> {
    find_below(s, pattern, s.len() as int + 1)
}

/// `s` with `new` in place of each `old`, taken from the left without overlap,
/// from position `i` on.
pub open spec fn replaced_from(s: Seq<char>, old: Seq<char>, new: Seq<char>, i: int) -> Seq<char>
    decreases s.len() - i,
{
    if i >= s.len() || i < 0 {
        Seq::empty()
    } else if old.len() > 0 && occurs_at(s, old, i) {
        new + replaced_from(s, old, new, i + old.len())
    } else {
        seq![s[i]] + replaced_from(s, old, new, i + 1)
    }
}

/// `s` with `new` in place of each `old`.
pub open spec fn replaced(s: Seq<char>, old: Seq<char>, new: Seq<char>) -> Seq<char> {
    replaced_from(s, old, new, 0)
}

/// Whether `pattern` stands in `s` at position `i`.
pub fn matches_at(s: &Vec<char>, pattern: &Vec<char>, i: usize) -> (r: bool)
    requires
        i <= s.len(),
    ensures
        r == occurs_at(s@, pattern@, i as int),
{
    if s.len() - i < pattern.len() {
        return false;
    }
    let mut k: usize = 0;
    while k < pattern.len()
        invariant
            0 <= k <= pattern.len(),
            i + pattern.len() <= s.len(),
            forall|j: int| 0 <= j < k ==> s@[i + j] == pattern@[j],
        decreases pattern.len() - k,
    {
        if s[i + k] != pattern[k] {
            proof {
                assert(s@.subrange(i as int, i + pattern@.len())[k as int] == s@[i + k]);
            }
            return false;
        }
        k = k + 1;
    }
    proof {
        assert(s@.subrange(i as int, i + pattern@.len()) =~= pattern@);
    }
    true
}

/// The first position of `pattern` in `s` at or after `from`.
pub fn find(s: &Vec<char>, pattern: &Vec<char>, from: usize) -> (r: Option<usize>)
    requires
        from <= s.len(),
        pattern.len() > 0,
    ensures
        match r {
            Some(i) => find_from(s@, pattern@, from as int) == Some(i as int),
            None => find_from(s@, pattern@, from as int) is None,
        },
        r matches Some(i) ==> from <= i && occurs_at(s@, pattern@, i as int),
{
    let mut i: usize = from;
    loop
        invariant
            from <= i <= s.len(),
            pattern.len() > 0,
            find_from(s@, pattern@, from as int) == find_from(s@, pattern@, i as int),
        decreases s.len() - i,
    {
        if s.len() - i < pattern.len() {
            return None;
        }
        if matches_at(s, pattern, i) {
            return Some(i);
        }
        i = i + 1;
    }
}

/// The last position of `pattern` in `s`.
pub fn rfind(s: &Vec<char>, pattern: &Vec<char>) -> (r: Option<usize>)
    ensures
        match r {
            Some(i) => find_last(s@, pattern@) == Some(i as int),
            None => find_last(s@, pattern@) is None,
        },
        r matches Some(i) ==> occurs_at(s@, pattern@, i as int),
{
    let mut i: usize = s.len();
    loop
        invariant
            i <= s.len(),
            find_last(s@, pattern@) == find_below(s@, pattern@, i + 1),
        decreases i,
    {
        if matches_at(s, pattern, i) {
            return Some(i);
        }
        if i == 0 {
            proof {
                assert(find_below(s@, pattern@, 0) is None);
            }
            return None;
        }
        i = i - 1;
    }
}

/// `s` with `new` in place of each `old`.
pub fn replace_all(s: &str, old: &str, new: &str) -> (r: String)
    requires
        old@.len() > 0,
    ensures
        r@ == replaced(s@, old@, new@),
{
    let text = chars_of(s);
    let pattern = chars_of(old);
    let mut r = String::new();
    let mut i: usize = 0;
    while i < text.len()
        invariant
            text@ == s@,
            pattern@ == old@,
            old@.len() > 0,
            0 <= i <= text.len(),
            replaced(s@, old@, new@) == r@ + replaced_from(s@, old@, new@, i as int),
        decreases text.len() - i,
    {
        let ghost before = r@;
        let ghost at = i as int;
        if matches_at(&text, &pattern, i) {
            r.append(new);
            i = i + pattern.len();
            proof {
                assert(before + (new@ + replaced_from(s@, old@, new@, i as int)) =~= (before + new@)
                    + replaced_from(s@, old@, new@, i as int));
            }
        } else {
            r.push(text[i]);
            i = i + 1;
            proof {
                assert(before + (seq![s@[at]] + replaced_from(s@, old@, new@, i as int))
                    =~= before.push(s@[at]) + replaced_from(s@, old@, new@, i as int));
            }
        }
    }
    proof {
        assert(r@ + Seq::<char>::empty() =~= r@);
    }
    r
}

/// A decimal digit.
pub open spec fn digit(d: nat) -> char
    recommends
        d < 10,
{
    (48 + d) as char
}

/// The decimal numeral of a number.
pub open spec fn decimal(n: nat) -> Seq<char>
    decreases n,
{
    if n < 10 {
        seq![digit(n)]
    } else {
        decimal(n / 10).push(digit(n % 10))
    }
}

/// The decimal numeral of a number.
pub fn decimal_text(n: usize) -> (text: String)
    ensures
        text@ == decimal(n as nat),
    decreases n,
{
    let d: u8 = (n % 10) as u8;
    let mut text = if n < 10 {
        String::new()
    } else {
        decimal_text(n / 10)
    };
    text.push((48 + d) as char);
    proof {
        if n < 10 {
            assert(text@ =~= decimal(n as nat));
        }
    }
    text
}

/// Whether a character is a decimal digit.
pub open spec fn is_digit(c: char) -> bool {
    '0' <= c <= '9'
}

/// An upper-case hexadecimal digit.
pub open spec fn hex_digit(d: int) -> char
    recommends
        0 <= d < 16,
{
    if d < 10 {
        (48 + d) as char
    } else {
        (55 + d) as char
    }
}

/// The two upper-case hexadecimal digits of a byte.
pub open spec fn hex_pair(b: u8) -> Seq<char> {
    seq![hex_digit(b as int / 16), hex_digit(b as int % 16)]
}

fn push_hex_digit(text: &mut String, d: u8)
    requires
        d < 16,
    ensures
        final(text)@ == old(text)@.push(hex_digit(d as int)),
{
    if d < 10 {
        text.push((48 + d) as char);
    } else {
        text.push((55 + d) as char);
    }
}

/// Appends the two upper-case hexadecimal digits of a byte.
pub fn push_hex(text: &mut String, b: u8)
    ensures
        final(text)@ == old(text)@ + hex_pair(b),
{
    push_hex_digit(text, b / 16);
    push_hex_digit(text, b % 16);
    proof {
        assert(text@ =~= old(text)@ + hex_pair(b));
    }
}

/// Whether a character has the Unicode property `White_Space`.
pub open spec fn white_space(c: char) -> bool {
    let u = c as u32;
    ||| 0x09 <= u <= 0x0D
    ||| u == 0x20
    ||| u == 0x85
    ||| u == 0xA0
    ||| u == 0x1680
    ||| 0x2000 <= u <= 0x200A
    ||| u == 0x2028
    ||| u == 0x2029
    ||| u == 0x202F
    ||| u == 0x205F
    ||| u == 0x3000
}

/// Whether a character has the Unicode property `White_Space`.
pub fn is_white_space(c: char) -> (r: bool)
    ensures
        r == white_space(c),
{
    let u: u32 = c as u32;
    (0x09 <= u && u <= 0x0D) || u == 0x20 || u == 0x85 || u == 0xA0 || u == 0x1680 || (0x2000 <= u
        && u <= 0x200A) || u == 0x2028 || u == 0x2029 || u == 0x202F || u == 0x205F || u == 0x3000
}

/// Whether a text is empty or holds white space alone.
pub open spec fn blank(s: Seq<char>) -> bool {
    forall|i: int| 0 <= i < s.len() ==> white_space(#[trigger] s[i])
}

/// Whether a text is empty or holds white space alone.
pub fn is_blank(s: &str) -> (r: bool)
    ensures
        r == blank(s@),
{
    let chars = chars_of(s);
    let mut i: usize = 0;
    while i < chars.len()
        invariant
            chars@ == s@,
            0 <= i <= chars.len(),
            forall|j: int| 0 <= j < i ==> white_space(#[trigger] s@[j]),
        decreases chars.len() - i,
    {
        if !is_white_space(chars[i]) {
            return false;
        }
        i = i + 1;
    }
    true
}

} // verus!
