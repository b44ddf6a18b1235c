//! Byte classes and the forward searches that every parser in this crate is
//! built from.

use vstd::prelude::*;

verus! {

pub const TAB: u8 = 0x09;
pub const LF: u8 = 0x0a;
pub const CR: u8 = 0x0d;
pub const SPACE: u8 = 0x20;
pub const BANG: u8 = 0x21;
pub const QUOTE: u8 = 0x22;
pub const HASH: u8 = 0x23;
pub const AMP: u8 = 0x26;
pub const APOS: u8 = 0x27;
pub const DASH: u8 = 0x2d;
pub const SLASH: u8 = 0x2f;
pub const COLON: u8 = 0x3a;
pub const SEMI: u8 = 0x3b;
pub const LT: u8 = 0x3c;
pub const EQUALS: u8 = 0x3d;
pub const GT: u8 = 0x3e;
pub const QUESTION: u8 = 0x3f;

/// XML white space: space, tab, line feed, carriage return.
pub open spec fn is_whitespace(b: u8) -> bool {
    b == SPACE || b == TAB || b == LF || b == CR
}

/// A set of bytes that a search stops at.
#[derive(Debug, Clone, Copy, PartialEq, Eq)]
pub enum ByteClass {
    /// Exactly this byte.
    Is(u8),
    /// Any white space byte.
    Whitespace,
    /// Any byte that is not white space.
    NotWhitespace,
    /// White space, or this byte.
    WhitespaceOr(u8),
    /// `>`, `"` or `'`: what matters while looking for the end of a tag.
    TagDelimiter,
    /// `<` or `>`.
    AngleBracket,
}

impl ByteClass {
    /// Whether `b` belongs to the class.
    pub open spec fn holds(self, b: u8) -> bool {
        match self {
            ByteClass::Is(x) => b == x,
            ByteClass::Whitespace => is_whitespace(b),
            ByteClass::NotWhitespace => !is_whitespace(b),
            ByteClass::WhitespaceOr(x) => is_whitespace(b) || b == x,
            ByteClass::TagDelimiter => b == GT || b == QUOTE || b == APOS,
            ByteClass::AngleBracket => b == LT || b == GT,
        }
    }

    /// Tests one byte against the class.
    pub fn test(&self, b: u8) -> (r: bool)
        ensures
            r == self.holds(b),
    {
        match self {
            ByteClass::Is(x) => b == *x,
            ByteClass::Whitespace => is_xml_whitespace(b),
            ByteClass::NotWhitespace => !is_xml_whitespace(b),
            ByteClass::WhitespaceOr(x) => is_xml_whitespace(b) || b == *x,
            ByteClass::TagDelimiter => b == GT || b == QUOTE || b == APOS,
            ByteClass::AngleBracket => b == LT || b == GT,
        }
    }
}

/// Tests one byte for XML white space.
pub fn is_xml_whitespace(b: u8) -> (r: bool)
    ensures
        r == is_whitespace(b),
{
    b == SPACE || b == TAB || b == LF || b == CR
}

/// The first index at or after `from` whose byte belongs to `class`, or
/// `s.len()` if there is none.
pub open spec fn find(s: Seq<u8>, from: int, class: ByteClass) -> int
    decreases s.len() - from,
{
    if from < 0 || from >= s.len() {
        s.len() as int
    } else if class.holds(s[from]) {
        from
    } else {
        find(s, from + 1, class)
    }
}

/// `find` returns the least index in range whose byte is in the class.
pub proof fn lemma_find(s: Seq<u8>, from: int, class: ByteClass)
    requires
        0 <= from <= s.len(),
    ensures
        from <= find(s, from, class) <= s.len(),
        forall|i: int| from <= i < find(s, from, class) ==> !class.holds(#[trigger] s[i]),
        find(s, from, class) < s.len() ==> class.holds(s[find(s, from, class)]),
    decreases s.len() - from,
{
    if from < s.len() && !class.holds(s[from]) {
        lemma_find(s, from + 1, class);
    }
}

/// Any index that no class byte precedes, and that is the end or holds a
/// class byte, is the one `find` returns.
pub proof fn lemma_find_is(s: Seq<u8>, from: int, class: ByteClass, at: int)
    requires
        0 <= from <= at <= s.len(),
        forall|i: int| from <= i < at ==> !class.holds(#[trigger] s[i]),
        at < s.len() ==> class.holds(s[at]),
    ensures
        find(s, from, class) == at,
    decreases at - from,
{
    if from < at {
        lemma_find_is(s, from + 1, class, at);
    }
}

/// Searching behind a prefix is searching what follows the prefix.
pub proof fn lemma_find_shift(a: Seq<u8>, t: Seq<u8>, i: int, class: ByteClass)
    requires
        0 <= i <= t.len(),
    ensures
        find(a + t, a.len() + i, class) == a.len() + find(t, i, class),
    decreases t.len() - i,
{
    if i < t.len() {
        assert((a + t)[a.len() + i] == t[i]);
        if !class.holds(t[i]) {
            lemma_find_shift(a, t, i + 1, class);
        }
    }
}

/// Finds the first byte of `class` at or after `from`.
pub fn scan(input: &[u8], from: usize, class: ByteClass) -> (r: usize)
    ensures
        r == find(input@, from as int, class),
        r <= input@.len(),
        from <= input@.len() ==> from <= r,
        forall|i: int| from <= i < r ==> !class.holds(#[trigger] input@[i]),
        r < input@.len() ==> class.holds(input@[r as int]),
{
    if from > input.len() {
        return input.len();
    }
    let mut i: usize = from;
    while i < input.len() && !class.test(input[i])
        invariant
            from <= i <= input@.len(),
            find(input@, from as int, class) == find(input@, i as int, class),
            forall|k: int| from <= k < i ==> !class.holds(#[trigger] input@[k]),
        decreases input@.len() - i,
    {
        i += 1;
    }
    i
}

/// Whether `pat` occurs in `s` at index `at`.
pub open spec fn matches_at(s: Seq<u8>, at: int, pat: Seq<u8>) -> bool {
    0 <= at && at + pat.len() <= s.len() && s.subrange(at, at + pat.len()) == pat
}

/// The first index at or after `from` at which `pat` occurs in `s`, or
/// `s.len()` if it does not occur.
pub open spec fn find_seq(s: Seq<u8>, from: int, pat: Seq<u8>) -> int
    decreases s.len() - from,
{
    if from < 0 || from >= s.len() || from + pat.len() > s.len() {
        s.len() as int
    } else if matches_at(s, from, pat) {
        from
    } else {
        find_seq(s, from + 1, pat)
    }
}

/// `find_seq` returns the least index in range at which the pattern occurs.
pub proof fn lemma_find_seq(s: Seq<u8>, from: int, pat: Seq<u8>)
    requires
        0 <= from <= s.len(),
    ensures
        from <= find_seq(s, from, pat) <= s.len(),
        forall|i: int| from <= i < find_seq(s, from, pat) ==> !matches_at(s, i, pat),
        find_seq(s, from, pat) < s.len() ==> matches_at(s, find_seq(s, from, pat), pat),
        find_seq(s, from, pat) < s.len() ==> find_seq(s, from, pat) + pat.len() <= s.len(),
    decreases s.len() - from,
{
    if from < s.len() && from + pat.len() <= s.len() && !matches_at(s, from, pat) {
        lemma_find_seq(s, from + 1, pat);
    }
}

/// Tests whether `pat` occurs in `input` at index `at`.
pub fn starts_with(input: &[u8], at: usize, pat: &[u8]) -> (r: bool)
    ensures
        r == matches_at(input@, at as int, pat@),
{
    if pat.len() > input.len() || at > input.len() - pat.len() {
        return false;
    }
    let mut i: usize = 0;
    while i < pat.len()
        invariant
            i <= pat@.len(),
            at + pat@.len() <= input@.len() <= usize::MAX,
            forall|j: int| 0 <= j < i ==> input@[at + j] == pat@[j],
        decreases pat@.len() - i,
    {
        if input[at + i] != pat[i] {
            assert(input@.subrange(at as int, at + pat@.len())[i as int] != pat@[i as int]);
            return false;
        }
        i += 1;
    }
    assert(input@.subrange(at as int, at + pat@.len()) =~= pat@);
    true
}

/// Finds the first occurrence of `pat` at or after `from`.
pub fn scan_seq(input: &[u8], from: usize, pat: &[u8]) -> (r: usize)
    ensures
        r == find_seq(input@, from as int, pat@),
        r <= input@.len(),
        from <= input@.len() ==> from <= r,
        r < input@.len() ==> r + pat@.len() <= input@.len(),
{
    if from > input.len() {
        return input.len();
    }
    let mut i: usize = from;
    while i < input.len()
        invariant
            from <= i <= input@.len(),
            find_seq(input@, from as int, pat@) == find_seq(input@, i as int, pat@),
        decreases input@.len() - i,
    {
        if pat.len() > input.len() - i {
            return input.len();
        }
        if starts_with(input, i, pat) {
            return i;
        }
        i += 1;
    }
    input.len()
}

/// Compares two byte spans.
pub fn same_bytes(a: &[u8], b: &[u8]) -> (r: bool)
    ensures
        r == (a@ == b@),
{
    if a.len() != b.len() {
        return false;
    }
    let r = starts_with(a, 0, b);
    assert(a@.subrange(0, a@.len() as int) =~= a@);
    r
}

/// Copies a byte span into a fresh vector.
pub fn to_vec(bytes: &[u8]) -> (r: Vec<u8>)
    ensures
        r@ == bytes@,
{
    let mut v: Vec<u8> = Vec::new();
    v.extend_from_slice(bytes);
    v
}

} // verus!
