//! Character classes and elementary string operations used by the directive
//! grammar and the digest formatter.

use vstd::prelude::*;

verus! {

/// Whitespace as the directive grammar understands it: the Unicode
/// white-space characters, the same set that trimming strips.
pub open spec fn is_ws_char(c: char) -> bool {
    (0x09 <= c as u32 && c as u32 <= 0x0D)  // tab, LF, vertical tab, form feed, CR
    || c as u32 == 0x20  // space
    || c as u32 == 0x85  // next line
    || c as u32 == 0xA0  // no-break space
    || c as u32 == 0x1680  // ogham space mark
    || (0x2000 <= c as u32 && c as u32 <= 0x200A)  // en quad .. hair space
    || c as u32 == 0x2028  // line separator
    || c as u32 == 0x2029  // paragraph separator
    || c as u32 == 0x202F  // narrow no-break space
    || c as u32 == 0x205F  // medium mathematical space
    || c as u32 == 0x3000  // ideographic space
}

/// Word characters of the directive grammar: ASCII letters, digits and
/// underscore.
pub open spec fn is_word_char(c: char) -> bool {
    (97 <= c as u32 && c as u32 <= 122)  // 'a'..='z'
    || (65 <= c as u32 && c as u32 <= 90)  // 'A'..='Z'
    || (48 <= c as u32 && c as u32 <= 57)  // '0'..='9'
    || c == '_'
}

pub fn ws_char(c: char) -> (r: bool)
    ensures
        r == is_ws_char(c),
{
    let u = c as u32;
    (0x09 <= u && u <= 0x0D) || u == 0x20 || u == 0x85 || u == 0xA0 || u == 0x1680 || (0x2000 <= u
        && u <= 0x200A) || u == 0x2028 || u == 0x2029 || u == 0x202F || u == 0x205F || u == 0x3000
}

pub fn word_char(c: char) -> (r: bool)
    ensures
        r == is_word_char(c),
{
    let u = c as u32;
    (97 <= u && u <= 122) || (65 <= u && u <= 90) || (48 <= u && u <= 57) || c == '_'
}

/// The first position at or after `i` holding a non-whitespace character, or
/// the end of the text.
pub open spec fn skip_ws_from(s: Seq<char>, i: int) -> int
    decreases s.len() - i when 0 <= i <= s.len()
{
    if i < s.len() && is_ws_char(s[i]) {
        skip_ws_from(s, i + 1)
    } else {
        i
    }
}

pub proof fn lemma_skip_ws_from_bounds(s: Seq<char>, i: int)
    requires
        0 <= i <= s.len(),
    ensures
        i <= skip_ws_from(s, i) <= s.len(),
    decreases s.len() - i,
{
    if i < s.len() && is_ws_char(s[i]) {
        lemma_skip_ws_from_bounds(s, i + 1);
    }
}

/// Pins `skip_ws_from` down from a witness position: whitespace up to `k`,
/// none (or the end) at `k`.
pub proof fn lemma_skip_ws_from_is(s: Seq<char>, i: int, k: int)
    requires
        0 <= i <= k <= s.len(),
        forall|j: int| i <= j < k ==> is_ws_char(s[j]),
        k == s.len() || !is_ws_char(s[k]),
    ensures
        skip_ws_from(s, i) == k,
    decreases k - i,
{
    if i < k {
        lemma_skip_ws_from_is(s, i + 1, k);
    }
}

/// The position of the line feed that ends the line holding position `i`, or
/// the end of the text.
pub open spec fn line_end_from(s: Seq<char>, i: int) -> int
    decreases s.len() - i when 0 <= i <= s.len()
{
    if i < s.len() && s[i] != '\n' {
        line_end_from(s, i + 1)
    } else {
        i
    }
}

pub proof fn lemma_line_end_from_bounds(s: Seq<char>, i: int)
    requires
        0 <= i <= s.len(),
    ensures
        i <= line_end_from(s, i) <= s.len(),
    decreases s.len() - i,
{
    if i < s.len() && s[i] != '\n' {
        lemma_line_end_from_bounds(s, i + 1);
    }
}

/// The end of the run of word characters starting at `i`.
pub open spec fn word_end_from(s: Seq<char>, i: int) -> int
    decreases s.len() - i when 0 <= i <= s.len()
{
    if i < s.len() && is_word_char(s[i]) {
        word_end_from(s, i + 1)
    } else {
        i
    }
}

pub proof fn lemma_word_end_from_bounds(s: Seq<char>, i: int)
    requires
        0 <= i <= s.len(),
    ensures
        i <= word_end_from(s, i) <= s.len(),
    decreases s.len() - i,
{
    if i < s.len() && is_word_char(s[i]) {
        lemma_word_end_from_bounds(s, i + 1);
    }
}

/// The first position at or after `i` holding `c`, or the end of the text.
pub open spec fn find_char_from(s: Seq<char>, i: int, c: char) -> int
    decreases s.len() - i when 0 <= i <= s.len()
{
    if i < s.len() && s[i] != c {
        find_char_from(s, i + 1, c)
    } else {
        i
    }
}

pub proof fn lemma_find_char_from_bounds(s: Seq<char>, i: int, c: char)
    requires
        0 <= i <= s.len(),
    ensures
        i <= find_char_from(s, i, c) <= s.len(),
    decreases s.len() - i,
{
    if i < s.len() && s[i] != c {
        lemma_find_char_from_bounds(s, i + 1, c);
    }
}

/// Pins `find_char_from` down from a witness position: `c` absent up to
/// `k`, present (or the end) at `k`.
pub proof fn lemma_find_char_from_is(s: Seq<char>, i: int, c: char, k: int)
    requires
        0 <= i <= k <= s.len(),
        forall|j: int| i <= j < k ==> s[j] != c,
        k == s.len() || s[k] == c,
    ensures
        find_char_from(s, i, c) == k,
    decreases k - i,
{
    if i < k {
        lemma_find_char_from_is(s, i + 1, c, k);
    }
}

/// The position just after the last non-whitespace character strictly before
/// `j`.
pub open spec fn trim_end_from(s: Seq<char>, j: int) -> int
    decreases j when 0 <= j <= s.len()
{
    if j > 0 && is_ws_char(s[j - 1]) {
        trim_end_from(s, j - 1)
    } else {
        j
    }
}

/// `s` with leading and trailing whitespace removed.
pub open spec fn trimmed(s: Seq<char>) -> Seq<char> {
    let a = skip_ws_from(s, 0);
    let b = trim_end_from(s, s.len() as int);
    if a <= b {
        s.subrange(a, b)
    } else {
        Seq::empty()
    }
}

pub(crate) fn skip_ws(s: &str, i: usize, n: usize) -> (r: usize)
    requires
        n == s@.len(),
        i <= n,
    ensures
        r == skip_ws_from(s@, i as int),
        i <= r <= n,
{
    let mut j = i;
    while j < n && ws_char(s.get_char(j))
        invariant
            i <= j <= n,
            n == s@.len(),
            skip_ws_from(s@, i as int) == skip_ws_from(s@, j as int),
        decreases n - j,
    {
        proof {
            assert(skip_ws_from(s@, j as int) == skip_ws_from(s@, j as int + 1));
        }
        j = j + 1;
    }
    j
}

pub(crate) fn line_end(s: &str, i: usize, n: usize) -> (r: usize)
    requires
        n == s@.len(),
        i <= n,
    ensures
        r == line_end_from(s@, i as int),
        i <= r <= n,
{
    let mut j = i;
    while j < n && s.get_char(j) != '\n'
        invariant
            i <= j <= n,
            n == s@.len(),
            line_end_from(s@, i as int) == line_end_from(s@, j as int),
        decreases n - j,
    {
        proof {
            assert(line_end_from(s@, j as int) == line_end_from(s@, j as int + 1));
        }
        j = j + 1;
    }
    j
}

pub(crate) fn word_end(s: &str, i: usize, n: usize) -> (r: usize)
    requires
        n == s@.len(),
        i <= n,
    ensures
        r == word_end_from(s@, i as int),
        i <= r <= n,
{
    let mut j = i;
    while j < n && word_char(s.get_char(j))
        invariant
            i <= j <= n,
            n == s@.len(),
            word_end_from(s@, i as int) == word_end_from(s@, j as int),
        decreases n - j,
    {
        proof {
            assert(word_end_from(s@, j as int) == word_end_from(s@, j as int + 1));
        }
        j = j + 1;
    }
    j
}

pub(crate) fn find_char(s: &str, i: usize, n: usize, c: char) -> (r: usize)
    requires
        n == s@.len(),
        i <= n,
    ensures
        r == find_char_from(s@, i as int, c),
        i <= r <= n,
{
    let mut j = i;
    while j < n && s.get_char(j) != c
        invariant
            i <= j <= n,
            n == s@.len(),
            find_char_from(s@, i as int, c) == find_char_from(s@, j as int, c),
        decreases n - j,
    {
        proof {
            assert(find_char_from(s@, j as int, c) == find_char_from(s@, j as int + 1, c));
        }
        j = j + 1;
    }
    j
}

/// Copies `s` with leading and trailing whitespace removed.
pub(crate) fn trimmed_string(s: &str, n: usize) -> (r: String)
    requires
        n == s@.len(),
    ensures
        r@ == trimmed(s@),
{
    let a = skip_ws(s, 0, n);
    let mut b = n;
    while b > 0 && ws_char(s.get_char(b - 1))
        invariant
            0 <= b <= n,
            n == s@.len(),
            trim_end_from(s@, n as int) == trim_end_from(s@, b as int),
        decreases b,
    {
        proof {
            assert(trim_end_from(s@, b as int) == trim_end_from(s@, b as int - 1));
        }
        b = b - 1;
    }
    if a <= b {
        let piece = s.substring_char(a, b);
        String::from_str(piece)
    } else {
        String::new()
    }
}

/// String equality, decided character by character.
pub fn str_eq(a: &str, b: &str) -> (r: bool)
    ensures
        r == (a@ == b@),
{
    let an = a.unicode_len();
    let bn = b.unicode_len();
    if an != bn {
        assert(a@.len() != b@.len());
        return false;
    }
    let mut i: usize = 0;
    while i < an
        invariant
            an == a@.len(),
            an == b@.len(),
            0 <= i <= an,
            forall|j: int| 0 <= j < i ==> a@[j] == b@[j],
        decreases an - i,
    {
        if a.get_char(i) != b.get_char(i) {
            return false;
        }
        i = i + 1;
    }
    proof {
        assert(a@ =~= b@);
    }
    true
}

} // verus!
