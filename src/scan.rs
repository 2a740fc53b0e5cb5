//! Character classes and cursor-style scanning over a line of characters.
use vstd::prelude::*;
use crate::text::chars_of;

verus! {

/// The character classes the log grammar is written in.
#[derive(Clone, Copy, Debug, PartialEq, Eq)]
pub enum CharClass {
    /// Unicode word characters, as `\w`.
    Word,
    /// Word characters and `-`.
    WordOrDash,
    /// ASCII digits: the digits that the numeric fields are read with.
    Digit,
    /// ASCII digits and `.`.
    DigitOrDot,
    /// Unicode whitespace, as `\s`.
    Space,
    /// Anything but whitespace, as `\S`.
    NotSpace,
    /// Anything but `]`.
    NotCloseBracket,
    /// Anything but a line feed.
    NotNewline,
    /// The characters of comparison operators: `=<>!~`.
    Operator,
    /// Anything but `=`.
    NotEquals,
}

pub open spec fn is_digit(c: char) -> bool {
    '0' <= c <= '9'
}

/// The characters of Unicode's `White_Space` property, which `\s` matches.
pub open spec fn is_space(c: char) -> bool {
    ('\u{9}' <= c <= '\u{d}') || c == ' ' || c == '\u{85}' || c == '\u{a0}' || c == '\u{1680}'
        || ('\u{2000}' <= c <= '\u{200a}') || c == '\u{2028}' || c == '\u{2029}' || c
        == '\u{202f}' || c == '\u{205f}' || c == '\u{3000}'
}

/// Whether `c` is a Unicode word character, which `\w` matches.
pub uninterp spec fn is_word(c: char) -> bool;

/// Relies on `regex_syntax::is_word_character`, the class that `\w` stands for in
/// the `regex` crate (with its default Unicode tables, which the crate enables).
/// Among ASCII characters it holds exactly `[_0-9a-zA-Z]`.
#[verifier::external_body]
fn word_char(c: char) -> (r: bool)
    ensures
        r == is_word(c),
        (c as u32) < 128 ==> (r <==> (('a' <= c <= 'z') || ('A' <= c <= 'Z') || ('0' <= c
            <= '9') || c == '_')),
{
    regex_syntax::is_word_character(c)
}

pub open spec fn in_class(c: char, k: CharClass) -> bool {
    match k {
        CharClass::Word => is_word(c),
        CharClass::WordOrDash => is_word(c) || c == '-',
        CharClass::Digit => is_digit(c),
        CharClass::DigitOrDot => is_digit(c) || c == '.',
        CharClass::Space => is_space(c),
        CharClass::NotSpace => !is_space(c),
        CharClass::NotCloseBracket => c != ']',
        CharClass::NotNewline => c != '\n',
        CharClass::Operator => c == '=' || c == '<' || c == '>' || c == '!' || c == '~',
        CharClass::NotEquals => c != '=',
    }
}

pub fn is_digit_char(c: char) -> (r: bool)
    ensures
        r == is_digit(c),
{
    '0' <= c && c <= '9'
}

pub fn is_space_char(c: char) -> (r: bool)
    ensures
        r == is_space(c),
{
    ('\u{9}' <= c && c <= '\u{d}') || c == ' ' || c == '\u{85}' || c == '\u{a0}' || c
        == '\u{1680}' || ('\u{2000}' <= c && c <= '\u{200a}') || c == '\u{2028}' || c
        == '\u{2029}' || c == '\u{202f}' || c == '\u{205f}' || c == '\u{3000}'
}

pub fn char_in_class(c: char, k: CharClass) -> (r: bool)
    ensures
        r == in_class(c, k),
{
    let word = word_char(c);
    match k {
        CharClass::Word => word,
        CharClass::WordOrDash => word || c == '-',
        CharClass::Digit => is_digit_char(c),
        CharClass::DigitOrDot => is_digit_char(c) || c == '.',
        CharClass::Space => is_space_char(c),
        CharClass::NotSpace => !is_space_char(c),
        CharClass::NotCloseBracket => c != ']',
        CharClass::NotNewline => c != '\n',
        CharClass::Operator => c == '=' || c == '<' || c == '>' || c == '!' || c == '~',
        CharClass::NotEquals => c != '=',
    }
}

/// The end of the longest run of class `k` that starts at `i`.
pub open spec fn run_end(l: Seq<char>, i: int, k: CharClass) -> int
    decreases l.len() - i,
{
    if 0 <= i < l.len() && in_class(l[i], k) {
        run_end(l, i + 1, k)
    } else {
        i
    }
}

pub proof fn lemma_run_end(l: Seq<char>, i: int, k: CharClass)
    requires
        0 <= i <= l.len(),
    ensures
        i <= run_end(l, i, k) <= l.len(),
        forall|j: int| i <= j < run_end(l, i, k) ==> in_class(#[trigger] l[j], k),
        run_end(l, i, k) < l.len() ==> !in_class(l[run_end(l, i, k)], k),
    decreases l.len() - i,
{
    if i < l.len() && in_class(l[i], k) {
        lemma_run_end(l, i + 1, k);
    }
}

/// Whether `p` occurs in `l` at position `i`.
pub open spec fn has_at(l: Seq<char>, i: int, p: Seq<char>) -> bool {
    0 <= i && i + p.len() <= l.len() && l.subrange(i, i + p.len()) == p
}

/// Whether `l` begins with `p`.
pub open spec fn starts_with(l: Seq<char>, p: Seq<char>) -> bool {
    has_at(l, 0, p)
}

/// After `p` at position `i`: the position that follows it.
pub open spec fn expect_lit(l: Seq<char>, i: int, p: Seq<char>) -> Option<int> {
    if has_at(l, i, p) {
        Some(i + p.len())
    } else {
        None
    }
}

pub fn scan_run(l: &Vec<char>, i: usize, k: CharClass) -> (r: usize)
    requires
        i <= l@.len(),
    ensures
        r == run_end(l@, i as int, k),
        i <= r <= l@.len(),
{
    proof {
        lemma_run_end(l@, i as int, k);
    }
    let mut j = i;
    while j < l.len() && char_in_class(l[j], k)
        invariant
            i <= j <= l@.len(),
            run_end(l@, j as int, k) == run_end(l@, i as int, k),
        decreases l@.len() - j,
    {
        j = j + 1;
    }
    j
}

pub fn lit_at(l: &Vec<char>, i: usize, p: &str) -> (r: bool)
    ensures
        r == has_at(l@, i as int, p@),
{
    let pc = chars_of(p);
    if pc.len() > l.len() || i > l.len() - pc.len() {
        return false;
    }
    let mut j: usize = 0;
    while j < pc.len()
        invariant
            i + pc@.len() <= l@.len(),
            l@.len() <= usize::MAX,
            pc@ == p@,
            j <= pc@.len(),
            forall|t: int| 0 <= t < j ==> l@[i + t] == pc@[t],
        decreases pc@.len() - j,
    {
        if l[i + j] != pc[j] {
            assert(l@.subrange(i as int, i + pc@.len())[j as int] != p@[j as int]);
            return false;
        }
        j = j + 1;
    }
    assert(l@.subrange(i as int, i + pc@.len()) =~= p@);
    true
}

pub fn take_lit(l: &Vec<char>, i: usize, p: &str) -> (r: Option<usize>)
    ensures
        r matches Some(j) ==> expect_lit(l@, i as int, p@) == Some(j as int),
        r is None ==> expect_lit(l@, i as int, p@) is None,
{
    let len = l.len();
    if lit_at(l, i, p) {
        let n = p.unicode_len();
        assert(i + n <= len);
        Some(i + n)
    } else {
        None
    }
}

} // verus!
