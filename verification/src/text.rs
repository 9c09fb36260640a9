//! Names as sequences of characters: the three classes of name that the
//! contexts tell apart, and the few string operations the rest is built on.

use vstd::prelude::*;
use vstd::std_specs::iter::IteratorSpec;

verus! {

/// A keyword is a name that begins with `@`.
pub open spec fn keyword(s: Seq<char>) -> bool {
    s.len() > 0 && s[0] == '@'
}

/// An absolute IRI holds a `:` and is no keyword.
pub open spec fn absolute_iri(s: Seq<char>) -> bool {
    s.contains(':') && !keyword(s)
}

/// A CURIE prefix is non-empty, holds no `:` and is no keyword.
pub open spec fn curie_prefix(s: Seq<char>) -> bool {
    s.len() > 0 && !s.contains(':') && !keyword(s)
}

/// The number of items of `s` that stand before its first `c`: the position
/// of that `c`, or the length of `s` where it holds none.
pub open spec fn first_index<A>(s: Seq<A>, c: A) -> int
    decreases s.len(),
{
    if s.len() == 0 || s[0] == c {
        0
    } else {
        1 + first_index(s.drop_first(), c)
    }
}

/// `first_index` is in range, nothing before it is `c`, and it points at a
/// `c` unless it is the length.
pub proof fn lemma_first_index<A>(s: Seq<A>, c: A)
    ensures
        0 <= first_index(s, c) <= s.len(),
        forall|j: int| 0 <= j < first_index(s, c) ==> s[j] != c,
        first_index(s, c) < s.len() ==> s[first_index(s, c)] == c,
        first_index(s, c) < s.len() <==> s.contains(c),
    decreases s.len(),
{
    if s.len() == 0 || s[0] == c {
    } else {
        let t = s.drop_first();
        lemma_first_index(t, c);
        assert forall|j: int| 0 <= j < first_index(s, c) implies s[j] != c by {
            if j > 0 {
                assert(s[j] == t[j - 1]);
            }
        }
        if t.contains(c) {
            let k = choose|k: int| 0 <= k < t.len() && t[k] == c;
            assert(s[k + 1] == c);
        }
        if s.contains(c) {
            let k = choose|k: int| 0 <= k < s.len() && s[k] == c;
            assert(t[k - 1] == c);
        }
    }
}

/// Any position with the properties of `first_index` is `first_index`.
pub proof fn lemma_first_index_is<A>(s: Seq<A>, c: A, k: int)
    requires
        0 <= k <= s.len(),
        forall|j: int| 0 <= j < k ==> s[j] != c,
        k < s.len() ==> s[k] == c,
    ensures
        first_index(s, c) == k,
{
    lemma_first_index(s, c);
}

/// Whether the input is a keyword.
pub fn is_keyword(input: &str) -> (r: bool)
    ensures
        r == keyword(input@),
{
    !input.is_empty() && input.get_char(0) == '@'
}

/// Whether the input is a valid absolute IRI.
pub fn is_absolute_iri(input: &str) -> (r: bool)
    ensures
        r == absolute_iri(input@),
{
    proof {
        lemma_first_index(input@, ':');
    }
    find_char(input, ':').is_some() && !is_keyword(input)
}

/// Whether the input is a valid CURIE prefix.
pub fn is_curie_prefix(input: &str) -> (r: bool)
    ensures
        r == curie_prefix(input@),
{
    proof {
        lemma_first_index(input@, ':');
    }
    !input.is_empty() && find_char(input, ':').is_none() && !is_keyword(input)
}

/// The position of the first `c` in `s`, counted in characters.
pub fn find_char(s: &str, c: char) -> (r: Option<usize>)
    ensures
        match r {
            Some(i) => i < s@.len() && i == first_index(s@, c),
            None => first_index(s@, c) == s@.len(),
        },
{
    let n = s.unicode_len();
    let mut chars = s.chars();
    let mut i: usize = 0;
    while i < n
        invariant
            n == s@.len(),
            i <= n,
            chars.obeys_prophetic_iter_laws(),
            chars.remaining() == s@.skip(i as int),
            forall|j: int| 0 <= j < i ==> s@[j] != c,
        decreases n - i,
    {
        let next = chars.next();
        if next == Some(c) {
            proof {
                lemma_first_index_is(s@, c, i as int);
            }
            return Some(i);
        }
        assert(chars.remaining() == s@.skip(i + 1));
        i += 1;
    }
    proof {
        lemma_first_index_is(s@, c, n as int);
    }
    None
}

/// Takes `prefix` off the front of `s`: what is left of `s`, or `None` where
/// `s` does not begin with `prefix`.
pub fn strip_prefix<'a>(s: &'a str, prefix: &str) -> (r: Option<&'a str>)
    ensures
        r is Some <==> prefix@.is_prefix_of(s@),
        r matches Some(rest) ==> rest@ == s@.skip(prefix@.len() as int),
{
    let n = s.unicode_len();
    let m = prefix.unicode_len();
    if n < m {
        return None;
    }
    let mut left = s.chars();
    let mut right = prefix.chars();
    let mut i: usize = 0;
    while i < m
        invariant
            n == s@.len(),
            m == prefix@.len(),
            i <= m <= n,
            left.obeys_prophetic_iter_laws(),
            right.obeys_prophetic_iter_laws(),
            left.remaining() == s@.skip(i as int),
            right.remaining() == prefix@.skip(i as int),
            forall|j: int| 0 <= j < i ==> s@[j] == prefix@[j],
        decreases m - i,
    {
        let a = left.next();
        let b = right.next();
        if a != b {
            assert(s@[i as int] != prefix@[i as int]);
            return None;
        }
        assert(left.remaining() == s@.skip(i + 1));
        assert(right.remaining() == prefix@.skip(i + 1));
        i += 1;
    }
    assert(prefix@ =~= s@.subrange(0, m as int));
    let rest = s.substring_char(m, n);
    assert(rest@ =~= s@.skip(m as int));
    Some(rest)
}

/// Whether two strings hold the same characters.
pub fn str_eq(a: &str, b: &str) -> (r: bool)
    ensures
        r == (a@ == b@),
{
    match strip_prefix(a, b) {
        Some(rest) => {
            assert(rest@.len() == 0 ==> a@ =~= b@);
            rest.is_empty()
        },
        None => false,
    }
}

/// Whether `c` is white space: whether it has the Unicode property
/// `White_Space`.
pub uninterp spec fn white_space(c: char) -> bool;

/// `char::is_whitespace`: the result is what the name `white_space` stands
/// for, whether the character has the Unicode property `White_Space`.
#[verifier::external_body]
fn is_white_space(c: char) -> (r: bool)
    ensures
        r == white_space(c),
{
    c.is_whitespace()
}

/// The number of white space characters that `s` begins with.
pub open spec fn leading_space(s: Seq<char>) -> int
    decreases s.len(),
{
    if s.len() == 0 || !white_space(s[0]) {
        0
    } else {
        1 + leading_space(s.drop_first())
    }
}

/// The number of white space characters that `s` ends with.
pub open spec fn trailing_space(s: Seq<char>) -> int
    decreases s.len(),
{
    if s.len() == 0 || !white_space(s.last()) {
        0
    } else {
        1 + trailing_space(s.drop_last())
    }
}

/// `s` without the white space at its two ends.
pub open spec fn trimmed(s: Seq<char>) -> Seq<char> {
    if leading_space(s) == s.len() {
        Seq::empty()
    } else {
        s.subrange(leading_space(s), s.len() - trailing_space(s))
    }
}

/// `line` without the carriage return at its end, if it has one.
pub open spec fn without_cr(line: Seq<char>) -> Seq<char> {
    if line.len() > 0 && line.last() == '\r' {
        line.drop_last()
    } else {
        line
    }
}

/// The lines of `s`, in order. A line ends with a line feed, or with a
/// carriage return and a line feed, which are no part of it; what stands
/// behind the last line feed is a line too unless it is empty.
pub open spec fn lines_of(s: Seq<char>) -> Seq<Seq<char>>
    decreases s.len(),
{
    let end = first_index(s, '\n');
    if s.len() == 0 {
        Seq::empty()
    } else if 0 <= end < s.len() {
        seq![without_cr(s.take(end))] + lines_of(s.skip(end + 1))
    } else {
        seq![s]
    }
}

/// The strings of `lines` as sequences of characters.
pub open spec fn views(lines: Seq<&str>) -> Seq<Seq<char>> {
    Seq::new(lines.len(), |i: int| lines[i]@)
}

/// `leading_space` is in range, all before it is white space, and what
/// stands at it is not.
pub proof fn lemma_leading_space(s: Seq<char>)
    ensures
        0 <= leading_space(s) <= s.len(),
        forall|j: int| 0 <= j < leading_space(s) ==> white_space(s[j]),
        leading_space(s) < s.len() ==> !white_space(s[leading_space(s)]),
    decreases s.len(),
{
    if s.len() == 0 || !white_space(s[0]) {
    } else {
        let t = s.drop_first();
        lemma_leading_space(t);
        assert forall|j: int| 0 <= j < leading_space(s) implies white_space(s[j]) by {
            if j > 0 {
                assert(s[j] == t[j - 1]);
            }
        }
    }
}

/// `trailing_space` is in range, all of that many last characters is white
/// space, and what stands before them is not.
pub proof fn lemma_trailing_space(s: Seq<char>)
    ensures
        0 <= trailing_space(s) <= s.len(),
        forall|j: int| s.len() - trailing_space(s) <= j < s.len() ==> white_space(s[j]),
        trailing_space(s) < s.len() ==> !white_space(s[s.len() - trailing_space(s) - 1]),
    decreases s.len(),
{
    if s.len() == 0 || !white_space(s.last()) {
    } else {
        let t = s.drop_last();
        lemma_trailing_space(t);
        assert forall|j: int| s.len() - trailing_space(s) <= j < s.len() implies white_space(
            s[j],
        ) by {
            if j < s.len() - 1 {
                assert(s[j] == t[j]);
            }
        }
    }
}

/// `s` without the white space at its two ends.
pub fn trim<'a>(s: &'a str) -> (r: &'a str)
    ensures
        r@ == trimmed(s@),
{
    let n = s.unicode_len();
    let mut chars = s.chars();
    let mut i: usize = 0;
    let mut found = false;
    let mut start: usize = 0;
    let mut end: usize = 0;
    while i < n
        invariant
            n == s@.len(),
            i <= n,
            chars.obeys_prophetic_iter_laws(),
            chars.remaining() == s@.skip(i as int),
            !found ==> forall|j: int| 0 <= j < i ==> white_space(s@[j]),
            found ==> start < end <= i,
            found ==> forall|j: int| 0 <= j < start ==> white_space(s@[j]),
            found ==> !white_space(s@[start as int]) && !white_space(s@[end - 1]),
            found ==> forall|j: int| end <= j < i ==> white_space(s@[j]),
        decreases n - i,
    {
        let next = chars.next();
        assert(next == Some(s@[i as int]));
        assert(chars.remaining() == s@.skip(i + 1));
        match next {
            Some(c) => {
                if !is_white_space(c) {
                    if !found {
                        found = true;
                        start = i;
                    }
                    end = i + 1;
                }
            },
            None => {},
        }
        i += 1;
    }
    proof {
        lemma_leading_space(s@);
        lemma_trailing_space(s@);
    }
    if found {
        assert(leading_space(s@) == start) by {
            if leading_space(s@) < start {
                assert(white_space(s@[leading_space(s@)]));
            }
        }
        assert(s@.len() - trailing_space(s@) == end) by {
            let last = s@.len() - trailing_space(s@);
            if last < end {
                assert(white_space(s@[end - 1]));
            }
            if last > end {
                assert(white_space(s@[last - 1]));
            }
        }
        s.substring_char(start, end)
    } else {
        assert(leading_space(s@) == n);
        s.substring_char(0, 0)
    }
}

/// The lines of `s`, in order, each without its line ending.
pub fn lines<'a>(s: &'a str) -> (r: Vec<&'a str>)
    ensures
        views(r@) == lines_of(s@),
{
    let n = s.unicode_len();
    let mut chars = s.chars();
    let mut found: Vec<&'a str> = Vec::new();
    let mut i: usize = 0;
    let mut start: usize = 0;
    let mut after_cr = false;
    assert(s@.skip(0) =~= s@);
    assert(views(found@) + lines_of(s@) =~= lines_of(s@));
    while i < n
        invariant
            n == s@.len(),
            start <= i <= n,
            chars.obeys_prophetic_iter_laws(),
            chars.remaining() == s@.skip(i as int),
            forall|j: int| start <= j < i ==> s@[j] != '\n',
            after_cr == (i > start && s@[i - 1] == '\r'),
            lines_of(s@) == views(found@) + lines_of(s@.skip(start as int)),
        decreases n - i,
    {
        let next = chars.next();
        assert(next == Some(s@[i as int]));
        assert(chars.remaining() == s@.skip(i + 1));
        if next == Some('\n') {
            let end = if after_cr {
                (i - 1) as usize
            } else {
                i
            };
            let line = s.substring_char(start, end);
            proof {
                let rest = s@.skip(start as int);
                assert forall|j: int| 0 <= j < i - start implies rest[j] != '\n' by {
                    assert(rest[j] == s@[start + j]);
                }
                assert(rest[i - start] == '\n');
                lemma_first_index_is(rest, '\n', i - start);
                assert(rest.take(i - start) =~= s@.subrange(start as int, i as int));
                assert(without_cr(rest.take(i - start)) =~= line@);
                assert(rest.skip(i - start + 1) =~= s@.skip(i + 1));
                assert(views(found@.push(line)) =~= views(found@) + seq![line@]);
                assert(views(found@) + (seq![line@] + lines_of(s@.skip(i + 1))) =~= views(
                    found@.push(line),
                ) + lines_of(s@.skip(i + 1)));
            }
            found.push(line);
            start = i + 1;
            after_cr = false;
        } else {
            after_cr = next == Some('\r');
        }
        i += 1;
    }
    if start < n {
        let line = s.substring_char(start, n);
        proof {
            let rest = s@.skip(start as int);
            assert forall|j: int| 0 <= j < rest.len() implies rest[j] != '\n' by {
                assert(rest[j] == s@[start + j]);
            }
            lemma_first_index_is(rest, '\n', rest.len() as int);
            assert(rest =~= line@);
            assert(views(found@.push(line)) =~= views(found@) + seq![line@]);
        }
        found.push(line);
    } else {
        assert(views(found@) + lines_of(s@.skip(start as int)) =~= views(found@));
    }
    found
}

/// `a` followed by `b`, as a new string.
pub fn join(a: &str, b: &str) -> (r: String)
    ensures
        r@ == a@ + b@,
{
    let mut r = a.to_owned();
    r.append(b);
    r
}

} // verus!
