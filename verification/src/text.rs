//! Text primitives shared by the query parser and the record model:
//! character access, Unicode case folding and white space, substring
//! search.

use vstd::prelude::*;
use vstd::string::*;

verus! {

/// The lower-case form of a text as the standard library computes it
/// (`str::to_lowercase`, Unicode `Lowercase` mapping).
pub uninterp spec fn lowercased(s: Seq<char>) -> Seq<char>;

/// Whether a character has the Unicode `White_Space` property
/// (`char::is_whitespace`).
pub uninterp spec fn white_space(c: char) -> bool;

/// Calls `str::to_lowercase`. Nothing is claimed about the mapping
/// itself: the result is only given the name `lowercased`.
#[verifier::external_body]
pub(crate) fn lowercase(s: &str) -> (r: String)
    ensures
        r@ == lowercased(s@),
{
    s.to_lowercase()
}

/// Calls `char::is_whitespace`. The result is only given the name
/// `white_space`.
#[verifier::external_body]
pub(crate) fn is_space(c: char) -> (r: bool)
    ensures
        r == white_space(c),
{
    c.is_whitespace()
}

/// `needle` occurs in `hay` as a contiguous run of characters.
pub open spec fn has_substring(hay: Seq<char>, needle: Seq<char>) -> bool {
    exists|i: int|
        0 <= i && i + needle.len() <= hay.len() && #[trigger] hay.subrange(
            i,
            i + needle.len(),
        ) == needle
}

/// Calls `str::contains` with a string pattern: true exactly when the
/// pattern occurs somewhere in the text.
#[verifier::external_body]
pub(crate) fn contains(hay: &str, needle: &str) -> (r: bool)
    ensures
        r == has_substring(hay@, needle@),
{
    hay.contains(needle)
}

/// The characters of a text, in order.
pub fn chars_of(s: &str) -> (v: Vec<char>)
    ensures
        v@ == s@,
{
    let mut v: Vec<char> = Vec::new();
    for c in it: s.chars()
        invariant
            it.seq() == s@,
            v@ == s@.take(it.index()),
    {
        v.push(c);
    }
    v
}

/// First position at or after `from` that holds no white space, or the
/// length of the text when only white space follows.
pub open spec fn first_solid(s: Seq<char>, from: int) -> int
    decreases s.len() - from,
{
    if 0 <= from < s.len() && white_space(s[from]) {
        first_solid(s, from + 1)
    } else {
        from
    }
}

/// End of the last run of characters before `to` that is no white space,
/// or 0 when only white space precedes.
pub open spec fn last_solid(s: Seq<char>, to: int) -> int
    decreases to,
{
    if 0 < to <= s.len() && white_space(s[to - 1]) {
        last_solid(s, to - 1)
    } else {
        to
    }
}

/// The text without the white space at its start and at its end.
pub open spec fn trimmed(s: Seq<char>) -> Seq<char> {
    let start = first_solid(s, 0);
    let end = last_solid(s, s.len() as int);
    if start < end {
        s.subrange(start, end)
    } else {
        Seq::empty()
    }
}

/// A text of white space only, or empty.
pub open spec fn blank(s: Seq<char>) -> bool {
    trimmed(s).len() == 0
}

/// Where the trimmed text starts and ends, given the characters.
pub fn trim_bounds(chars: &Vec<char>) -> (r: (usize, usize))
    ensures
        r.0 <= r.1 <= chars@.len(),
        trimmed(chars@) == chars@.subrange(r.0 as int, r.1 as int),
        r.0 == r.1 <==> blank(chars@),
{
    let n: usize = chars.len();
    let mut start: usize = 0;
    while start < n && is_space(chars[start])
        invariant
            start <= n,
            n == chars@.len(),
            first_solid(chars@, 0) == first_solid(chars@, start as int),
        decreases n - start,
    {
        start = start + 1;
    }
    let mut end: usize = n;
    while end > start && is_space(chars[end - 1])
        invariant
            start <= end <= n,
            n == chars@.len(),
            last_solid(chars@, n as int) == last_solid(chars@, end as int),
        decreases end,
    {
        end = end - 1;
    }
    proof {
        let s = chars@;
        if start == end {
            lemma_last_solid_bound(s, end as int);
            assert(s.subrange(start as int, end as int) =~= Seq::<char>::empty());
        }
    }
    (start, end)
}

/// The search from the end never goes forward.
pub proof fn lemma_last_solid_bound(s: Seq<char>, to: int)
    ensures
        last_solid(s, to) <= to,
    decreases to,
{
    if 0 < to <= s.len() && white_space(s[to - 1]) {
        lemma_last_solid_bound(s, to - 1);
    }
}

/// The text without the white space at its start and at its end.
pub fn trim(s: &str) -> (r: &str)
    ensures
        r@ == trimmed(s@),
{
    let chars = chars_of(s);
    let (start, end) = trim_bounds(&chars);
    s.substring_char(start, end)
}

/// Whether a text is empty or white space only.
pub fn is_blank(s: &str) -> (r: bool)
    ensures
        r == blank(s@),
{
    let chars = chars_of(s);
    let (start, end) = trim_bounds(&chars);
    start == end
}

/// The lower-case form of an ASCII capital letter; any other character
/// stays as it is.
pub open spec fn ascii_lower(c: char) -> char {
    if 'A' <= c && c <= 'Z' {
        ((c as u8) + 32) as char
    } else {
        c
    }
}

/// Two texts are equal up to the case of their ASCII letters.
pub open spec fn same_ignoring_ascii_case(a: Seq<char>, b: Seq<char>) -> bool {
    &&& a.len() == b.len()
    &&& forall|i: int| 0 <= i < a.len() ==> ascii_lower(#[trigger] a[i]) == ascii_lower(b[i])
}

/// Puts an ASCII capital letter in lower case and leaves any other
/// character as it is.
pub fn to_ascii_lower(c: char) -> (r: char)
    ensures
        r == ascii_lower(c),
{
    if 'A' <= c && c <= 'Z' {
        ((c as u8) + 32) as char
    } else {
        c
    }
}

/// Whether two texts are the same.
pub fn same_text(a: &str, b: &str) -> (r: bool)
    ensures
        r == (a@ == b@),
{
    let x = chars_of(a);
    let y = chars_of(b);
    if x.len() != y.len() {
        return false;
    }
    let mut i: usize = 0;
    while i < x.len()
        invariant
            i <= x@.len(),
            x@ == a@,
            y@ == b@,
            x@.len() == y@.len(),
            forall|k: int| 0 <= k < i ==> x@[k] == y@[k],
        decreases x@.len() - i,
    {
        if x[i] != y[i] {
            return false;
        }
        i = i + 1;
    }
    assert(x@ =~= y@);
    true
}

/// Whether two texts are equal up to the case of their ASCII letters.
pub fn eq_ignore_ascii_case(a: &str, b: &str) -> (r: bool)
    ensures
        r == same_ignoring_ascii_case(a@, b@),
{
    let x = chars_of(a);
    let y = chars_of(b);
    if x.len() != y.len() {
        return false;
    }
    let mut i: usize = 0;
    while i < x.len()
        invariant
            i <= x@.len(),
            x@ == a@,
            y@ == b@,
            x@.len() == y@.len(),
            forall|k: int| 0 <= k < i ==> ascii_lower(#[trigger] x@[k]) == ascii_lower(y@[k]),
        decreases x@.len() - i,
    {
        if to_ascii_lower(x[i]) != to_ascii_lower(y[i]) {
            return false;
        }
        i = i + 1;
    }
    true
}

/// Lexicographic order of texts by the code points of their characters:
/// `a` comes strictly before `b`.
pub open spec fn lex_less(a: Seq<char>, b: Seq<char>) -> bool
    decreases a.len(),
{
    if b.len() == 0 {
        false
    } else if a.len() == 0 {
        true
    } else if a[0] != b[0] {
        (a[0] as int) < (b[0] as int)
    } else {
        lex_less(a.skip(1), b.skip(1))
    }
}

/// Compares two texts with `<` of `str`, which orders them
/// lexicographically by code point.
#[verifier::external_body]
pub(crate) fn text_less(a: &str, b: &str) -> (r: bool)
    ensures
        r == lex_less(a@, b@),
{
    a < b
}

/// No text comes before itself.
pub proof fn lemma_lex_irreflexive(a: Seq<char>)
    ensures
        !lex_less(a, a),
    decreases a.len(),
{
    if a.len() > 0 {
        lemma_lex_irreflexive(a.skip(1));
    }
}

/// Of two different texts one comes before the other, and never both.
pub proof fn lemma_lex_total(a: Seq<char>, b: Seq<char>)
    ensures
        a != b ==> (lex_less(a, b) || lex_less(b, a)),
        !(lex_less(a, b) && lex_less(b, a)),
    decreases a.len(),
{
    if a.len() > 0 && b.len() > 0 && a[0] == b[0] {
        lemma_lex_total(a.skip(1), b.skip(1));
        if a.skip(1) == b.skip(1) {
            assert(a =~= seq![a[0]] + a.skip(1));
            assert(b =~= seq![b[0]] + b.skip(1));
        }
    } else if a.len() == 0 && b.len() == 0 {
        assert(a =~= b);
    }
}

/// The order of texts is transitive.
pub proof fn lemma_lex_transitive(a: Seq<char>, b: Seq<char>, c: Seq<char>)
    requires
        lex_less(a, b),
        lex_less(b, c),
    ensures
        lex_less(a, c),
    decreases a.len(),
{
    if a.len() > 0 && a[0] == b[0] && b[0] == c[0] {
        lemma_lex_transitive(a.skip(1), b.skip(1), c.skip(1));
    }
}

} // verus!
