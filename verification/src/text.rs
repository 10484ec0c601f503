//! Text as a sequence of characters: the runs, trims, splits and searches that
//! every other module is written with.

use crate::bytes::{lemma_encode_len, split_chars_at};
use vstd::prelude::*;

verus! {

/// Appending one character to a `String`: `String::push` puts the character
/// behind what the string held.
pub assume_specification[ String::push ](s: &mut String, c: char)
    ensures
        final(s)@ == old(s)@.push(c),
;

/// A set of characters that runs are made of.
#[derive(Clone, Copy)]
pub enum CharClass {
    /// Unicode white space.
    White,
    /// Everything but Unicode white space.
    Solid,
    /// A space or a tab.
    Blank,
    /// An ASCII letter, an ASCII digit, or an underscore.
    Word,
    /// Everything that is not `Word`.
    NonWord,
    /// An ASCII digit.
    Digit,
    One(char),
    NotOne(char),
    Two(char, char),
    Three(char, char, char),
    NotThree(char, char, char),
    /// What a directive keyword is spelled with: no white space, and none of
    /// the delimiters that open its argument.
    KeywordText,
    /// What a decorative rule is drawn with: `-`, `=` or `*`.
    Rule,
    RuleOrWhite,
    /// What ASCII drawings are made of.
    AsciiArt,
    /// Box drawing, block, geometric, arrow and braille glyphs.
    UnicodeArt,
    /// Everything but a space or a tab.
    NotBlank,
    /// Unicode `Alphabetic`.
    Letter,
    /// What the left side of a mapping row is spelled with.
    LeftSide,
    /// An ASCII letter or an underscore.
    NameStart,
    AsciiLetter,
    /// An ASCII capital or a space.
    CapitalOrSpace,
    Capital,
}

/// Whether a character is alphabetic, as `char::is_alphabetic` answers.
pub uninterp spec fn alphabetic(c: char) -> bool;

/// `char::is_alphabetic`: the answer depends on the character alone, and on
/// ASCII it is the letters.
pub assume_specification[ char::is_alphabetic ](c: char) -> (r: bool)
    ensures
        r == alphabetic(c),
        c <= '\u{7f}' ==> r == is_ascii_letter(c),
;

/// The Unicode `White_Space` property.
pub open spec fn is_white(c: char) -> bool {
    ||| '\u{9}' <= c <= '\u{d}'
    ||| c == ' '
    ||| c == '\u{85}'
    ||| c == '\u{a0}'
    ||| c == '\u{1680}'
    ||| '\u{2000}' <= c <= '\u{200a}'
    ||| c == '\u{2028}'
    ||| c == '\u{2029}'
    ||| c == '\u{202f}'
    ||| c == '\u{205f}'
    ||| c == '\u{3000}'
}

pub open spec fn is_ascii_letter(c: char) -> bool {
    'a' <= c <= 'z' || 'A' <= c <= 'Z'
}

pub open spec fn is_digit(c: char) -> bool {
    '0' <= c <= '9'
}

pub open spec fn is_word_char(c: char) -> bool {
    is_ascii_letter(c) || is_digit(c) || c == '_'
}

pub open spec fn in_class(c: char, k: CharClass) -> bool {
    match k {
        CharClass::White => is_white(c),
        CharClass::Solid => !is_white(c),
        CharClass::Blank => c == ' ' || c == '\t',
        CharClass::Word => is_word_char(c),
        CharClass::NonWord => !is_word_char(c),
        CharClass::Digit => is_digit(c),
        CharClass::One(a) => c == a,
        CharClass::NotOne(a) => c != a,
        CharClass::Two(a, b) => c == a || c == b,
        CharClass::Three(a, b, d) => c == a || c == b || c == d,
        CharClass::NotThree(a, b, d) => c != a && c != b && c != d,
        CharClass::KeywordText => !is_white(c) && c != '[' && c != '(' && c != ':' && c != '=',
        CharClass::Rule => c == '-' || c == '=' || c == '*',
        CharClass::RuleOrWhite => c == '-' || c == '=' || c == '*' || is_white(c),
        CharClass::AsciiArt => "+-|/\\><^v*="@.contains(c),
        CharClass::UnicodeArt => '\u{2190}' <= c <= '\u{21ff}' || '\u{2500}' <= c <= '\u{25ff}'
            || '\u{2800}' <= c <= '\u{28ff}',
        CharClass::NotBlank => c != ' ' && c != '\t',
        CharClass::Letter => alphabetic(c),
        CharClass::LeftSide => is_ascii_letter(c) || is_digit(c) || "_.->:[]()*%$"@.contains(c),
        CharClass::NameStart => is_ascii_letter(c) || c == '_',
        CharClass::AsciiLetter => is_ascii_letter(c),
        CharClass::CapitalOrSpace => 'A' <= c <= 'Z' || c == ' ',
        CharClass::Capital => 'A' <= c <= 'Z',
    }
}

pub fn white(c: char) -> (r: bool)
    ensures
        r == is_white(c),
{
    ('\u{9}' <= c && c <= '\u{d}') || c == ' ' || c == '\u{85}' || c == '\u{a0}' || c == '\u{1680}'
        || ('\u{2000}' <= c && c <= '\u{200a}') || c == '\u{2028}' || c == '\u{2029}' || c
        == '\u{202f}' || c == '\u{205f}' || c == '\u{3000}'
}

pub fn ascii_letter(c: char) -> (r: bool)
    ensures
        r == is_ascii_letter(c),
{
    ('a' <= c && c <= 'z') || ('A' <= c && c <= 'Z')
}

/// `c` occurs in `s`.
pub fn has_char(s: &str, c: char) -> (r: bool)
    ensures
        r == s@.contains(c),
{
    for d in it: s.chars()
        invariant
            it.seq() == s@,
            forall|j: int| 0 <= j < it.index() ==> s@[j] != c,
    {
        if d == c {
            assert(s@[it.index() as int] == c);
            return true;
        }
    }
    false
}

pub fn word_char(c: char) -> (r: bool)
    ensures
        r == is_word_char(c),
{
    ('a' <= c && c <= 'z') || ('A' <= c && c <= 'Z') || ('0' <= c && c <= '9') || c == '_'
}

pub fn class_has(c: char, k: CharClass) -> (r: bool)
    ensures
        r == in_class(c, k),
{
    match k {
        CharClass::White => white(c),
        CharClass::Solid => !white(c),
        CharClass::Blank => c == ' ' || c == '\t',
        CharClass::Word => word_char(c),
        CharClass::NonWord => !word_char(c),
        CharClass::Digit => '0' <= c && c <= '9',
        CharClass::One(a) => c == a,
        CharClass::NotOne(a) => c != a,
        CharClass::Two(a, b) => c == a || c == b,
        CharClass::Three(a, b, d) => c == a || c == b || c == d,
        CharClass::NotThree(a, b, d) => c != a && c != b && c != d,
        CharClass::KeywordText => !white(c) && c != '[' && c != '(' && c != ':' && c != '=',
        CharClass::Rule => c == '-' || c == '=' || c == '*',
        CharClass::RuleOrWhite => c == '-' || c == '=' || c == '*' || white(c),
        CharClass::AsciiArt => has_char("+-|/\\><^v*=", c),
        CharClass::UnicodeArt => ('\u{2190}' <= c && c <= '\u{21ff}') || ('\u{2500}' <= c && c
            <= '\u{25ff}') || ('\u{2800}' <= c && c <= '\u{28ff}'),
        CharClass::NotBlank => c != ' ' && c != '\t',
        CharClass::Letter => c.is_alphabetic(),
        CharClass::LeftSide => ascii_letter(c) || ('0' <= c && c <= '9') || has_char(
            "_.->:[]()*%$",
            c,
        ),
        CharClass::NameStart => ascii_letter(c) || c == '_',
        CharClass::AsciiLetter => ascii_letter(c),
        CharClass::CapitalOrSpace => ('A' <= c && c <= 'Z') || c == ' ',
        CharClass::Capital => 'A' <= c && c <= 'Z',
    }
}

/// The characters of `s`, in order.
pub fn chars_of(s: &str) -> (v: Vec<char>)
    ensures
        v@ == s@,
{
    let mut v: Vec<char> = Vec::new();
    for c in it: s.chars()
        invariant
            v@ == it.seq().take(it.index() as int),
            it.seq() == s@,
    {
        v.push(c);
    }
    v
}


/// How many characters at the front of `s` are in `k`.
pub open spec fn lead_len(s: Seq<char>, k: CharClass) -> nat
    decreases s.len(),
{
    if s.len() > 0 && in_class(s[0], k) {
        1 + lead_len(s.skip(1), k)
    } else {
        0
    }
}

/// How many characters at the end of `s` are in `k`.
pub open spec fn trail_len(s: Seq<char>, k: CharClass) -> nat
    decreases s.len(),
{
    if s.len() > 0 && in_class(s.last(), k) {
        1 + trail_len(s.drop_last(), k)
    } else {
        0
    }
}

/// `s` without its leading run of `k`.
pub open spec fn after_lead(s: Seq<char>, k: CharClass) -> Seq<char> {
    s.skip(lead_len(s, k) as int)
}

/// `s` without its trailing run of `k`.
pub open spec fn before_trail(s: Seq<char>, k: CharClass) -> Seq<char> {
    s.take(s.len() - trail_len(s, k))
}

/// The leading run of `k` alone.
pub open spec fn lead_run(s: Seq<char>, k: CharClass) -> Seq<char> {
    s.take(lead_len(s, k) as int)
}

pub open spec fn trimmed_start(s: Seq<char>) -> Seq<char> {
    after_lead(s, CharClass::White)
}

pub open spec fn trimmed_end(s: Seq<char>) -> Seq<char> {
    before_trail(s, CharClass::White)
}

pub open spec fn trimmed(s: Seq<char>) -> Seq<char> {
    trimmed_end(trimmed_start(s))
}

pub open spec fn all_in(s: Seq<char>, k: CharClass) -> bool {
    forall|i: int| 0 <= i < s.len() ==> in_class(#[trigger] s[i], k)
}

pub open spec fn any_in(s: Seq<char>, k: CharClass) -> bool {
    exists|i: int| 0 <= i < s.len() && in_class(#[trigger] s[i], k)
}

/// `p` sits in `s` at position `i`.
pub open spec fn sub_at(s: Seq<char>, p: Seq<char>, i: int) -> bool {
    0 <= i && i + p.len() <= s.len() && s.subrange(i, i + p.len()) == p
}

pub open spec fn has_prefix(s: Seq<char>, p: Seq<char>) -> bool {
    sub_at(s, p, 0)
}

pub open spec fn has_suffix(s: Seq<char>, p: Seq<char>) -> bool {
    sub_at(s, p, s.len() - p.len())
}

pub open spec fn has_text(s: Seq<char>, p: Seq<char>) -> bool {
    exists|i: int| #[trigger] sub_at(s, p, i)
}

/// What follows `p`, when `s` begins with it.
pub open spec fn prefix_rest(s: Seq<char>, p: Seq<char>) -> Option<Seq<char>> {
    if has_prefix(s, p) {
        Some(s.skip(p.len() as int))
    } else {
        None
    }
}

/// What precedes `p`, when `s` ends with it.
pub open spec fn suffix_rest(s: Seq<char>, p: Seq<char>) -> Option<Seq<char>> {
    if has_suffix(s, p) {
        Some(s.take(s.len() - p.len()))
    } else {
        None
    }
}

/// `s` without the prefix `p`; `s` itself when it does not begin with `p`.
pub open spec fn less_prefix(s: Seq<char>, p: Seq<char>) -> Seq<char> {
    if has_prefix(s, p) {
        s.skip(p.len() as int)
    } else {
        s
    }
}

/// `s` without the suffix `p`; `s` itself when it does not end with `p`.
pub open spec fn less_suffix(s: Seq<char>, p: Seq<char>) -> Seq<char> {
    if has_suffix(s, p) {
        s.take(s.len() - p.len())
    } else {
        s
    }
}

/// The first character of `s` is in `k`.
pub open spec fn leads_with(s: Seq<char>, k: CharClass) -> bool {
    s.len() > 0 && in_class(s[0], k)
}

/// The pieces of `s` between the occurrences of `c`: one more than there are
/// occurrences.
pub open spec fn split_on(s: Seq<char>, c: char) -> Seq<Seq<char>>
    decreases s.len(),
{
    let n = lead_len(s, CharClass::NotOne(c));
    if 0 <= n < s.len() {
        seq![s.take(n as int)] + split_on(s.skip(n as int + 1), c)
    } else {
        seq![s]
    }
}

/// The pieces of `s` between the occurrences of `a`, `b` and `c`.
pub open spec fn split_on_three(s: Seq<char>, a: char, b: char, c: char) -> Seq<Seq<char>>
    decreases s.len(),
{
    let n = lead_len(s, CharClass::NotThree(a, b, c));
    if 0 <= n < s.len() {
        seq![s.take(n as int)] + split_on_three(s.skip(n as int + 1), a, b, c)
    } else {
        seq![s]
    }
}

/// The maximal runs of `s` that hold no white space.
pub open spec fn words_of(s: Seq<char>) -> Seq<Seq<char>>
    decreases s.len(),
{
    let t = trimmed_start(s);
    let n = lead_len(t, CharClass::Solid);
    if t.len() > 0 && 0 < n <= t.len() && t.len() <= s.len() {
        seq![t.take(n as int)] + words_of(t.skip(n as int))
    } else {
        Seq::empty()
    }
}

/// The lines of `s`: each ends at a line feed, which is dropped together with
/// a carriage return right before it, and text behind the last line feed is a
/// line only when there is some.
pub open spec fn lines_of(s: Seq<char>) -> Seq<Seq<char>>
    decreases s.len(),
{
    let n = lead_len(s, CharClass::NotOne('\n'));
    if n < s.len() {
        seq![less_suffix(s.take(n as int), seq!['\r'])] + lines_of(s.skip(n as int + 1))
    } else if s.len() > 0 {
        seq![s]
    } else {
        Seq::empty()
    }
}

/// `parts` one after the other with `sep` between neighbours.
pub open spec fn joined(parts: Seq<Seq<char>>, sep: Seq<char>) -> Seq<char>
    decreases parts.len(),
{
    if parts.len() == 0 {
        Seq::empty()
    } else if parts.len() == 1 {
        parts[0]
    } else {
        joined(parts.drop_last(), sep) + sep + parts.last()
    }
}

/// The texts that a list of owned strings holds.
pub open spec fn texts(v: Seq<String>) -> Seq<Seq<char>> {
    Seq::new(v.len(), |i: int| v[i]@)
}

/// The texts that a list of borrowed strings holds.
pub open spec fn strs(v: Seq<&str>) -> Seq<Seq<char>> {
    Seq::new(v.len(), |i: int| v[i]@)
}

pub proof fn lemma_lead_len(s: Seq<char>, k: CharClass, n: int)
    requires
        0 <= n <= s.len(),
        forall|i: int| 0 <= i < n ==> in_class(#[trigger] s[i], k),
        n == s.len() || !in_class(s[n], k),
    ensures
        lead_len(s, k) == n,
    decreases n,
{
    if n > 0 {
        assert(in_class(s[0], k));
        assert forall|i: int| 0 <= i < n - 1 implies in_class(#[trigger] s.skip(1)[i], k) by {
            assert(s.skip(1)[i] == s[i + 1]);
        }
        lemma_lead_len(s.skip(1), k, n - 1);
    }
}

pub proof fn lemma_lead_len_facts(s: Seq<char>, k: CharClass)
    ensures
        lead_len(s, k) <= s.len(),
        forall|i: int| 0 <= i < lead_len(s, k) ==> in_class(#[trigger] s[i], k),
        lead_len(s, k) < s.len() ==> !in_class(s[lead_len(s, k) as int], k),
    decreases s.len(),
{
    if s.len() > 0 && in_class(s[0], k) {
        lemma_lead_len_facts(s.skip(1), k);
        assert forall|i: int| 0 <= i < lead_len(s, k) implies in_class(#[trigger] s[i], k) by {
            if i > 0 {
                assert(s.skip(1)[i - 1] == s[i]);
            }
        }
    }
}

pub proof fn lemma_trail_len(s: Seq<char>, k: CharClass, n: int)
    requires
        0 <= n <= s.len(),
        forall|i: int| s.len() - n <= i < s.len() ==> in_class(#[trigger] s[i], k),
        n == s.len() || !in_class(s[s.len() - n - 1], k),
    ensures
        trail_len(s, k) == n,
    decreases n,
{
    if n > 0 {
        assert(in_class(s[s.len() - 1], k));
        lemma_trail_len(s.drop_last(), k, n - 1);
    }
}

pub proof fn lemma_trail_len_facts(s: Seq<char>, k: CharClass)
    ensures
        trail_len(s, k) <= s.len(),
        forall|i: int| s.len() - trail_len(s, k) <= i < s.len() ==> in_class(#[trigger] s[i], k),
        trail_len(s, k) < s.len() ==> !in_class(s[s.len() - trail_len(s, k) - 1], k),
    decreases s.len(),
{
    if s.len() > 0 && in_class(s.last(), k) {
        lemma_trail_len_facts(s.drop_last(), k);
        assert forall|i: int| s.len() - trail_len(s, k) <= i < s.len() implies in_class(
            #[trigger] s[i],
            k,
        ) by {
            if i < s.len() - 1 {
                assert(s.drop_last()[i] == s[i]);
            }
        }
        if trail_len(s, k) < s.len() {
            assert(s.drop_last()[s.len() - trail_len(s, k) - 1] == s[s.len() - trail_len(s, k) - 1]);
        }
    }
}

/// The number of leading characters of `s` in `k`.
pub fn count_lead(s: &str, k: CharClass) -> (n: usize)
    ensures
        n == lead_len(s@, k),
        n <= s@.len(),
{
    let whole: usize = s.as_bytes().len();
    let mut n: usize = 0;
    proof {
        lemma_encode_len(s@);
    }
    for c in it: s.chars()
        invariant
            it.seq() == s@,
            s@.len() <= whole,
            n == it.index(),
            forall|i: int| 0 <= i < n ==> in_class(#[trigger] s@[i], k),
    {
        if !class_has(c, k) {
            proof {
                lemma_lead_len(s@, k, n as int);
            }
            return n;
        }
        n = n + 1;
    }
    proof {
        lemma_lead_len(s@, k, n as int);
    }
    n
}

/// The number of trailing characters of `s` in `k`.
pub fn count_trail(s: &str, k: CharClass) -> (n: usize)
    ensures
        n == trail_len(s@, k),
        n <= s@.len(),
{
    let v = chars_of(s);
    let mut n: usize = 0;
    while n < v.len() && class_has(v[v.len() - 1 - n], k)
        invariant
            n <= v.len(),
            v@ == s@,
            forall|i: int| s@.len() - n <= i < s@.len() ==> in_class(#[trigger] s@[i], k),
        decreases v.len() - n,
    {
        n = n + 1;
    }
    proof {
        lemma_trail_len(s@, k, n as int);
    }
    n
}

/// The characters of `s` from position `n` on.
pub fn skip_chars<'a>(s: &'a str, n: usize) -> (r: &'a str)
    requires
        n <= s@.len(),
    ensures
        r@ == s@.skip(n as int),
{
    split_chars_at(s, n).1
}

/// The first `n` characters of `s`.
pub fn take_chars<'a>(s: &'a str, n: usize) -> (r: &'a str)
    requires
        n <= s@.len(),
    ensures
        r@ == s@.take(n as int),
{
    split_chars_at(s, n).0
}

pub fn skip_lead<'a>(s: &'a str, k: CharClass) -> (r: &'a str)
    ensures
        r@ == after_lead(s@, k),
{
    let n: usize = count_lead(s, k);
    skip_chars(s, n)
}

pub fn drop_trail<'a>(s: &'a str, k: CharClass) -> (r: &'a str)
    ensures
        r@ == before_trail(s@, k),
{
    let n: usize = count_trail(s, k);
    let len: usize = s.unicode_len();
    take_chars(s, len - n)
}

pub fn take_lead<'a>(s: &'a str, k: CharClass) -> (r: &'a str)
    ensures
        r@ == lead_run(s@, k),
{
    let n: usize = count_lead(s, k);
    take_chars(s, n)
}

pub fn trim_start<'a>(s: &'a str) -> (r: &'a str)
    ensures
        r@ == trimmed_start(s@),
{
    skip_lead(s, CharClass::White)
}

pub fn trim_end<'a>(s: &'a str) -> (r: &'a str)
    ensures
        r@ == trimmed_end(s@),
{
    drop_trail(s, CharClass::White)
}

pub fn trim<'a>(s: &'a str) -> (r: &'a str)
    ensures
        r@ == trimmed(s@),
{
    trim_end(trim_start(s))
}

/// Every character of `s` is in `k`.
pub fn only_of(s: &str, k: CharClass) -> (r: bool)
    ensures
        r == all_in(s@, k),
{
    proof {
        lemma_lead_len_facts(s@, k);
    }
    skip_lead(s, k).is_empty()
}

/// Some character of `s` is in `k`.
pub fn some_of(s: &str, k: CharClass) -> (r: bool)
    ensures
        r == any_in(s@, k),
{
    for c in it: s.chars()
        invariant
            it.seq() == s@,
            forall|j: int| 0 <= j < it.index() ==> !in_class(#[trigger] s@[j], k),
    {
        if class_has(c, k) {
            assert(in_class(s@[it.index() as int], k));
            return true;
        }
    }
    false
}

/// `p` sits in `s` at position `i`.
pub fn chars_at(s: &Vec<char>, p: &Vec<char>, i: usize) -> (r: bool)
    ensures
        r == sub_at(s@, p@, i as int),
{
    if p.len() > s.len() || i > s.len() - p.len() {
        return false;
    }
    let mut j: usize = 0;
    while j < p.len()
        invariant
            j <= p.len(),
            i + p.len() <= s.len(),
            forall|t: int| 0 <= t < j ==> s@[i + t] == #[trigger] p@[t],
        decreases p.len() - j,
    {
        if s[i + j] != p[j] {
            assert(s@.subrange(i as int, i + p@.len())[j as int] != p@[j as int]);
            return false;
        }
        j = j + 1;
    }
    assert(s@.subrange(i as int, i + p@.len()) =~= p@);
    true
}

pub fn starts_with(s: &str, p: &str) -> (r: bool)
    ensures
        r == has_prefix(s@, p@),
{
    let w = chars_of(p);
    let mut i: usize = 0;
    if w.len() == 0 {
        assert(s@.subrange(0, 0) =~= p@);
        return true;
    }
    for c in it: s.chars()
        invariant
            it.seq() == s@,
            w@ == p@,
            i == it.index(),
            i < w.len(),
            forall|j: int| 0 <= j < i ==> s@[j] == #[trigger] p@[j],
    {
        if c != w[i] {
            proof {
                if has_prefix(s@, p@) {
                    assert(s@.subrange(0, p@.len() as int)[i as int] == p@[i as int]);
                }
            }
            return false;
        }
        i = i + 1;
        if i == w.len() {
            assert(s@.subrange(0, p@.len() as int) =~= p@);
            return true;
        }
    }
    false
}

pub fn ends_with(s: &str, p: &str) -> (r: bool)
    ensures
        r == has_suffix(s@, p@),
{
    let len: usize = s.unicode_len();
    let plen: usize = p.unicode_len();
    plen <= len && same(s.substring_char(len - plen, len), p)
}

/// `p` occurs in `s`.
pub fn contains(s: &str, p: &str) -> (r: bool)
    ensures
        r == has_text(s@, p@),
{
    let v = chars_of(s);
    let w = chars_of(p);
    let mut i: usize = 0;
    while i <= v.len()
        invariant
            i <= v.len() + 1,
            v@ == s@,
            w@ == p@,
            forall|j: int| 0 <= j < i ==> !#[trigger] sub_at(s@, p@, j),
        decreases v.len() + 1 - i,
    {
        if chars_at(&v, &w, i) {
            assert(sub_at(s@, p@, i as int));
            return true;
        }
        if i == v.len() {
            assert forall|j: int| !#[trigger] sub_at(s@, p@, j) by {}
            return false;
        }
        i = i + 1;
    }
    false
}

/// The two texts hold the same characters.
pub fn same(a: &str, b: &str) -> (r: bool)
    ensures
        r == (a@ == b@),
{
    if a.as_bytes().len() != b.as_bytes().len() {
        return false;
    }
    let v = chars_of(a);
    let w = chars_of(b);
    if v.len() != w.len() {
        return false;
    }
    let r = chars_at(&v, &w, 0);
    assert(v@.subrange(0, v@.len() as int) =~= v@);
    r
}

pub fn strip_prefix<'a>(s: &'a str, p: &str) -> (r: Option<&'a str>)
    ensures
        (match r {
            Some(t) => prefix_rest(s@, p@) == Some(t@),
            None => prefix_rest(s@, p@) is None,
        }),
{
    if starts_with(s, p) {
        Some(skip_chars(s, p.unicode_len()))
    } else {
        None
    }
}

pub fn strip_suffix<'a>(s: &'a str, p: &str) -> (r: Option<&'a str>)
    ensures
        (match r {
            Some(t) => suffix_rest(s@, p@) == Some(t@),
            None => suffix_rest(s@, p@) is None,
        }),
{
    if ends_with(s, p) {
        let len: usize = s.unicode_len();
        let plen: usize = p.unicode_len();
        Some(take_chars(s, len - plen))
    } else {
        None
    }
}

pub fn drop_prefix<'a>(s: &'a str, p: &str) -> (r: &'a str)
    ensures
        r@ == less_prefix(s@, p@),
{
    match strip_prefix(s, p) {
        Some(t) => t,
        None => s,
    }
}

pub fn drop_suffix<'a>(s: &'a str, p: &str) -> (r: &'a str)
    ensures
        r@ == less_suffix(s@, p@),
{
    match strip_suffix(s, p) {
        Some(t) => t,
        None => s,
    }
}

/// The first character, if there is one.
pub fn first_char(s: &str) -> (r: Option<char>)
    ensures
        r == (if s@.len() > 0 {
            Some(s@[0])
        } else {
            None::<char>
        }),
{
    if s.is_empty() {
        None
    } else {
        Some(s.get_char(0))
    }
}

/// The first character of `s` is in `k`.
pub fn opens_with(s: &str, k: CharClass) -> (r: bool)
    ensures
        r == leads_with(s@, k),
{
    match first_char(s) {
        Some(c) => class_has(c, k),
        None => false,
    }
}


/// How many characters of `s` are in `k`.
pub open spec fn count_in(s: Seq<char>, k: CharClass) -> nat
    decreases s.len(),
{
    if s.len() == 0 {
        0
    } else {
        count_in(s.drop_last(), k) + if in_class(s.last(), k) {
            1nat
        } else {
            0
        }
    }
}

pub fn count_of(s: &str, k: CharClass) -> (n: usize)
    ensures
        n == count_in(s@, k),
        n <= s@.len(),
{
    let v = chars_of(s);
    let mut i: usize = 0;
    let mut n: usize = 0;
    while i < v.len()
        invariant
            n <= i <= v.len(),
            v@ == s@,
            n == count_in(s@.take(i as int), k),
        decreases v.len() - i,
    {
        assert(s@.take(i + 1).drop_last() == s@.take(i as int));
        if class_has(v[i], k) {
            n = n + 1;
        }
        i = i + 1;
    }
    assert(s@.take(i as int) == s@);
    n
}

/// The pieces of `s` between the occurrences of `c`.
pub fn split_char<'a>(s: &'a str, c: char) -> (v: Vec<&'a str>)
    ensures
        strs(v@) == split_on(s@, c),
        v.len() > 0,
{
    let mut v: Vec<&'a str> = Vec::new();
    let mut rest: &'a str = s;
    loop
        invariant
            strs(v@) + split_on(rest@, c) == split_on(s@, c),
        decreases rest@.len(),
    {
        let n: usize = count_lead(rest, CharClass::NotOne(c));
        let ghost before = strs(v@);
        let ghost piece = rest@;
        if n < rest.unicode_len() {
            v.push(take_chars(rest, n));
            rest = skip_chars(rest, n + 1);
            proof {
                assert(strs(v@) =~= before + seq![piece.take(n as int)]);
                assert(strs(v@) + split_on(rest@, c) =~= before + split_on(piece, c));
            }
        } else {
            v.push(rest);
            assert(strs(v@) =~= before + seq![piece]);
            return v;
        }
    }
}

/// The pieces of `s` between the occurrences of `a`, `b` and `c`.
pub fn split_chars<'a>(s: &'a str, a: char, b: char, c: char) -> (v: Vec<&'a str>)
    ensures
        strs(v@) == split_on_three(s@, a, b, c),
{
    let mut v: Vec<&'a str> = Vec::new();
    let mut rest: &'a str = s;
    loop
        invariant
            strs(v@) + split_on_three(rest@, a, b, c) == split_on_three(s@, a, b, c),
        decreases rest@.len(),
    {
        let n: usize = count_lead(rest, CharClass::NotThree(a, b, c));
        let ghost before = strs(v@);
        let ghost piece = rest@;
        if n < rest.unicode_len() {
            v.push(take_chars(rest, n));
            rest = skip_chars(rest, n + 1);
            proof {
                assert(strs(v@) =~= before + seq![piece.take(n as int)]);
                assert(strs(v@) + split_on_three(rest@, a, b, c) =~= before + split_on_three(
                    piece,
                    a,
                    b,
                    c,
                ));
            }
        } else {
            v.push(rest);
            assert(strs(v@) =~= before + seq![piece]);
            return v;
        }
    }
}

pub proof fn lemma_words_step(s: Seq<char>)
    ensures
        trimmed_start(s).len() <= s.len(),
        trimmed_start(s).len() > 0 ==> 0 < lead_len(trimmed_start(s), CharClass::Solid)
            <= trimmed_start(s).len(),
        trimmed_start(s).len() == 0 ==> words_of(s).len() == 0,
{
    lemma_lead_len_facts(s, CharClass::White);
    lemma_lead_len_facts(trimmed_start(s), CharClass::Solid);
    if trimmed_start(s).len() > 0 {
        assert(trimmed_start(s)[0] == s[lead_len(s, CharClass::White) as int]);
    }
}

/// The words of `s`: its runs without white space.
pub fn split_words<'a>(s: &'a str) -> (v: Vec<&'a str>)
    ensures
        strs(v@) == words_of(s@),
{
    let mut v: Vec<&'a str> = Vec::new();
    let mut rest: &'a str = s;
    loop
        invariant
            strs(v@) + words_of(rest@) == words_of(s@),
        decreases rest@.len(),
    {
        let ghost before = strs(v@);
        let t = trim_start(rest);
        proof {
            lemma_words_step(rest@);
        }
        if t.is_empty() {
            assert(strs(v@) =~= strs(v@) + words_of(rest@));
            return v;
        }
        let n: usize = count_lead(t, CharClass::Solid);
        v.push(take_chars(t, n));
        let next = skip_chars(t, n);
        proof {
            assert(strs(v@) =~= before + seq![t@.take(n as int)]);
            assert(strs(v@) + words_of(next@) =~= before + words_of(rest@));
        }
        rest = next;
    }
}

/// The lines of `s`.
pub fn split_lines<'a>(s: &'a str) -> (v: Vec<&'a str>)
    ensures
        strs(v@) == lines_of(s@),
{
    let mut v: Vec<&'a str> = Vec::new();
    let mut rest: &'a str = s;
    loop
        invariant
            strs(v@) + lines_of(rest@) == lines_of(s@),
        decreases rest@.len(),
    {
        let ghost before = strs(v@);
        let n: usize = count_lead(rest, CharClass::NotOne('\n'));
        if n < rest.unicode_len() {
            let line = take_chars(rest, n);
            proof {
                reveal_strlit("\r");
                assert("\r"@ =~= seq!['\r']);
            }
            v.push(drop_suffix(line, "\r"));
            let next = skip_chars(rest, n + 1);
            proof {
                assert(strs(v@) =~= before + seq![less_suffix(rest@.take(n as int), seq!['\r'])]);
                assert(strs(v@) + lines_of(next@) =~= before + lines_of(rest@));
            }
            rest = next;
        } else {
            if !rest.is_empty() {
                v.push(rest);
                assert(strs(v@) =~= before + seq![rest@]);
            } else {
                assert(strs(v@) =~= before + lines_of(rest@));
            }
            return v;
        }
    }
}

/// `v[a]` to `v[b - 1]` with `sep` between neighbours.
pub fn join_range(v: &Vec<&str>, a: usize, b: usize, sep: &str) -> (r: String)
    requires
        a <= b <= v.len(),
    ensures
        r@ == joined(strs(v@).subrange(a as int, b as int), sep@),
{
    let mut out = String::new();
    let mut i: usize = a;
    let ghost all = strs(v@);
    while i < b
        invariant
            a <= i <= b <= v.len(),
            all == strs(v@),
            out@ == joined(all.subrange(a as int, i as int), sep@),
        decreases b - i,
    {
        if i > a {
            out.append(sep);
        }
        out.append(v[i]);
        proof {
            let upto = all.subrange(a as int, i + 1);
            assert(upto.drop_last() == all.subrange(a as int, i as int));
            assert(upto.last() == v@[i as int]@);
            if i == a {
                assert(out@ =~= upto[0]);
            }
        }
        i = i + 1;
    }
    out
}

/// All of `v` with `sep` between neighbours.
pub fn join_texts(v: &Vec<String>, sep: &str) -> (r: String)
    ensures
        r@ == joined(texts(v@), sep@),
{
    let mut out = String::new();
    let mut i: usize = 0;
    let ghost all = texts(v@);
    while i < v.len()
        invariant
            i <= v.len(),
            all == texts(v@),
            out@ == joined(all.take(i as int), sep@),
        decreases v.len() - i,
    {
        if i > 0 {
            out.append(sep);
        }
        out.append(v[i].as_str());
        proof {
            let upto = all.take(i + 1);
            assert(upto.drop_last() == all.take(i as int));
            assert(upto.last() == v@[i as int]@);
            if i == 0 {
                assert(out@ =~= upto[0]);
            }
        }
        i = i + 1;
    }
    assert(all.take(i as int) == all);
    out
}

pub fn cat2(a: &str, b: &str) -> (r: String)
    ensures
        r@ == a@ + b@,
{
    let mut out = a.to_string();
    out.append(b);
    out
}

pub fn cat3(a: &str, b: &str, c: &str) -> (r: String)
    ensures
        r@ == a@ + b@ + c@,
{
    let mut out = a.to_string();
    out.append(b);
    out.append(c);
    out
}

pub fn cat4(a: &str, b: &str, c: &str, d: &str) -> (r: String)
    ensures
        r@ == a@ + b@ + c@ + d@,
{
    let mut out = a.to_string();
    out.append(b);
    out.append(c);
    out.append(d);
    out
}

/// `n` times the character `c`.
pub open spec fn repeated(c: char, n: nat) -> Seq<char> {
    Seq::new(n, |i: int| c)
}

pub fn repeat_char(c: char, n: usize) -> (r: String)
    ensures
        r@ == repeated(c, n as nat),
{
    let mut out = String::new();
    let mut i: usize = 0;
    while i < n
        invariant
            i <= n,
            out@ == repeated(c, i as nat),
        decreases n - i,
    {
        out.push(c);
        i = i + 1;
        assert(out@ =~= repeated(c, i as nat));
    }
    assert(out@ =~= repeated(c, n as nat));
    out
}

/// `s` is one of the texts in `list`.
pub fn is_one_of(s: &str, list: &[&str]) -> (r: bool)
    ensures
        r == strs(list@).contains(s@),
{
    let ghost all = strs(list@);
    let mut i: usize = 0;
    while i < list.len()
        invariant
            i <= list.len(),
            all == strs(list@),
            forall|j: int| 0 <= j < i ==> #[trigger] all[j] != s@,
        decreases list.len() - i,
    {
        if same(s, list[i]) {
            assert(all[i as int] == s@);
            return true;
        }
        i = i + 1;
    }
    false
}


/// `c` with an ASCII capital made small.
pub open spec fn lower_char(c: char) -> char {
    if 'A' <= c <= 'Z' {
        (c as u32 + 32) as char
    } else {
        c
    }
}

/// `s` with its ASCII capitals made small.
pub open spec fn lowered(s: Seq<char>) -> Seq<char> {
    Seq::new(s.len(), |i: int| lower_char(s[i]))
}

pub fn lower_ascii(s: &str) -> (r: String)
    ensures
        r@ == lowered(s@),
{
    let v = chars_of(s);
    let mut out = String::new();
    let mut i: usize = 0;
    while i < v.len()
        invariant
            i <= v.len(),
            v@ == s@,
            out@ == lowered(s@.take(i as int)),
        decreases v.len() - i,
    {
        let c = v[i];
        let low = if 'A' <= c && c <= 'Z' {
            let code: u8 = c as u8;
            (code + 32) as char
        } else {
            c
        };
        out.push(low);
        i = i + 1;
        assert(out@ =~= lowered(s@.take(i as int)));
    }
    assert(s@.take(i as int) == s@);
    out
}

} // verus!
