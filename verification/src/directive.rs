//! Comments that are instructions to other tools, and other comments that must
//! not be touched.

use crate::language::Language;
use crate::text::{
    after_lead, before_trail, contains, drop_trail, ends_with, has_prefix, has_suffix, has_text,
    lead_run, leads_with, lines_of, opens_with, same, skip_lead, split_lines, starts_with,
    strip_prefix, strs, take_lead, trim, trim_start, trimmed, trimmed_start, CharClass,
};
use vstd::prelude::*;
use vstd::utf8::encode_utf8;

verus! {

/// The text of a comment without slashes and stars around it.
pub open spec fn bare_body(text: Seq<char>) -> Seq<char> {
    trimmed(
        before_trail(after_lead(text, CharClass::Two('/', '*')), CharClass::Two('/', '*')),
    )
}

/// A switch for clang-format, with or without a reason behind a colon.
pub open spec fn formatter_directive(text: Seq<char>) -> bool {
    let body = bare_body(text);
    ||| body == "clang-format off"@
    ||| body == "clang-format on"@
    ||| has_prefix(body, "clang-format off:"@)
    ||| has_prefix(body, "clang-format on:"@)
}

pub fn is_formatter_directive(text: &str) -> (r: bool)
    ensures
        r == formatter_directive(text@),
{
    let body = trim(
        drop_trail(skip_lead(text, CharClass::Two('/', '*')), CharClass::Two('/', '*')),
    );
    same(body, "clang-format off") || same(body, "clang-format on") || starts_with(
        body,
        "clang-format off:",
    ) || starts_with(body, "clang-format on:")
}

/// A line that suppresses a cppcheck message.
pub open spec fn suppress_line(line: Seq<char>) -> bool {
    let body = trimmed(after_lead(trimmed(line), CharClass::Two('/', '*')));
    let rest = body.skip("cppcheck-suppress"@.len() as int);
    &&& has_prefix(body, "cppcheck-suppress"@)
    &&& (rest.len() == 0 || leads_with(rest, CharClass::Blank) || leads_with(
        rest,
        CharClass::Two('[', '-'),
    ))
}

fn is_suppress_line(line: &str) -> (r: bool)
    ensures
        r == suppress_line(line@),
{
    let body = trim(skip_lead(trim(line), CharClass::Two('/', '*')));
    match strip_prefix(body, "cppcheck-suppress") {
        Some(rest) => rest.is_empty() || opens_with(rest, CharClass::Blank) || opens_with(
            rest,
            CharClass::Two('[', '-'),
        ),
        None => false,
    }
}

/// Some line suppresses a cppcheck message.
pub open spec fn cppcheck_suppress(text: Seq<char>) -> bool {
    exists|i: int| 0 <= i < lines_of(text).len() && suppress_line(#[trigger] lines_of(text)[i])
}

pub fn is_cppcheck_suppress(text: &str) -> (r: bool)
    ensures
        r == cppcheck_suppress(text@),
{
    let lines = split_lines(text);
    let ghost all = lines_of(text@);
    let mut i: usize = 0;
    assert(lines.len() == all.len());
    while i < lines.len()
        invariant
            i <= lines.len() == all.len(),
            all == strs(lines@),
            all == lines_of(text@),
            forall|j: int| 0 <= j < i ==> !suppress_line(#[trigger] all[j]),
        decreases lines.len() - i,
    {
        assert(all[i as int] == lines@[i as int]@);
        if is_suppress_line(lines[i]) {
            return true;
        }
        i = i + 1;
    }
    false
}

/// An ACSL annotation, or another one that shares its opener.
pub open spec fn acsl_annotation(text: Seq<char>) -> bool {
    has_prefix(text, "/*@"@) || has_prefix(text, "//@"@)
}

pub fn is_acsl_annotation(text: &str) -> (r: bool)
    ensures
        r == acsl_annotation(text@),
{
    starts_with(text, "/*@") || starts_with(text, "//@")
}

/// The first word of a comment line, up to the delimiter of its argument.
pub open spec fn keyword_of_line(line: Seq<char>) -> Seq<char> {
    lead_run(
        trimmed_start(after_lead(trimmed(line), CharClass::Three('/', '*', '#'))),
        CharClass::KeywordText,
    )
}

pub fn directive_keyword<'a>(line: &'a str) -> (r: &'a str)
    ensures
        r@ == keyword_of_line(line@),
{
    take_lead(
        trim_start(skip_lead(trim(line), CharClass::Three('/', '*', '#'))),
        CharClass::KeywordText,
    )
}

/// The keywords that an analyzer of the language reads in comments.
pub open spec fn lint_keyword(k: Seq<char>, lang: Language) -> bool {
    match lang {
        Language::C | Language::Cpp => k == "NOLINT"@ || k == "NOLINTNEXTLINE"@ || k
            == "NOLINTBEGIN"@ || k == "NOLINTEND"@ || k == "coverity"@ || k == "IWYU"@ || k
            == "NOSONAR"@,
        Language::Shell => k == "shellcheck"@,
        Language::Rust => k == "cbindgen"@,
        Language::Asm => false,
    }
}

fn is_lint_keyword(k: &str, lang: Language) -> (r: bool)
    ensures
        r == lint_keyword(k@, lang),
{
    match lang {
        Language::C | Language::Cpp => same(k, "NOLINT") || same(k, "NOLINTNEXTLINE") || same(
            k,
            "NOLINTBEGIN",
        ) || same(k, "NOLINTEND") || same(k, "coverity") || same(k, "IWYU") || same(k, "NOSONAR"),
        Language::Shell => same(k, "shellcheck"),
        Language::Rust => same(k, "cbindgen"),
        Language::Asm => false,
    }
}

/// The first line carries such a keyword.
pub open spec fn lint_directive(text: Seq<char>, lang: Language) -> bool {
    lines_of(text).len() > 0 && lint_keyword(keyword_of_line(lines_of(text)[0]), lang)
}

pub fn is_lint_directive(text: &str, lang: Language) -> (r: bool)
    ensures
        r == lint_directive(text@, lang),
{
    let lines = split_lines(text);
    assert(lines.len() == lines_of(text@).len());
    if lines.len() == 0 {
        return false;
    }
    assert(lines_of(text@)[0] == lines@[0]@);
    is_lint_keyword(directive_keyword(lines[0]), lang)
}

/// A comment that another tool reads back.
pub open spec fn passthrough_directive(text: Seq<char>, lang: Language) -> bool {
    ||| formatter_directive(text)
    ||| cppcheck_suppress(text)
    ||| lang.is_c_like() && acsl_annotation(text)
    ||| lint_directive(text, lang)
}

pub fn is_passthrough_directive(text: &str, lang: Language) -> (r: bool)
    ensures
        r == passthrough_directive(text@, lang),
{
    is_formatter_directive(text) || is_cppcheck_suppress(text) || (lang.c_like()
        && is_acsl_annotation(text)) || is_lint_directive(text, lang)
}

/// A block comment with another delimiter inside.
pub open spec fn nested_block(text: Seq<char>) -> bool {
    let inside = text.subrange(2, text.len() - 2);
    &&& text.len() >= 4
    &&& has_prefix(text, "/*"@)
    &&& has_suffix(text, "*/"@)
    &&& (has_text(inside, "/*"@) || has_text(inside, "*/"@))
}

pub fn rust_block_has_nested(text: &str) -> (r: bool)
    ensures
        r == nested_block(text@),
{
    let len: usize = text.unicode_len();
    if len < 4 || !starts_with(text, "/*") || !ends_with(text, "*/") {
        return false;
    }
    let inside = text.substring_char(2, len - 2);
    contains(inside, "/*") || contains(inside, "*/")
}

/// A backslash ends the line but for blanks: the next line belongs to it.
pub open spec fn spliced(line: Seq<char>) -> bool {
    has_suffix(before_trail(line, CharClass::Three(' ', '\t', '\r')), "\\"@)
}

pub fn ends_with_line_splice(line: &str) -> (r: bool)
    ensures
        r == spliced(line@),
{
    ends_with(drop_trail(line, CharClass::Three(' ', '\t', '\r')), "\\")
}

/// A C or C++ line comment that a backslash continues.
pub open spec fn line_splice(text: Seq<char>, lang: Language) -> bool {
    &&& lang.is_c_like()
    &&& has_prefix(text, "//"@)
    &&& exists|i: int| 0 <= i < lines_of(text).len() && spliced(#[trigger] lines_of(text)[i])
}

pub fn spans_line_splice(text: &str, lang: Language) -> (r: bool)
    ensures
        r == line_splice(text@, lang),
{
    if !lang.c_like() || !starts_with(text, "//") {
        return false;
    }
    let lines = split_lines(text);
    let ghost all = lines_of(text@);
    let mut i: usize = 0;
    assert(lines.len() == all.len());
    while i < lines.len()
        invariant
            i <= lines.len() == all.len(),
            all == strs(lines@),
            all == lines_of(text@),
            lang.is_c_like(),
            has_prefix(text@, "//"@),
            forall|j: int| 0 <= j < i ==> !spliced(#[trigger] all[j]),
        decreases lines.len() - i,
    {
        assert(all[i as int] == lines@[i as int]@);
        if ends_with_line_splice(lines[i]) {
            return true;
        }
        i = i + 1;
    }
    false
}

/// A carriage return at `i` without a line feed behind it.
pub open spec fn bare_cr_at(bytes: Seq<u8>, i: int) -> bool {
    bytes[i] == 13u8 && !(i + 1 < bytes.len() && bytes[i + 1] == 10u8)
}

/// A stretch of the source holds a carriage return that is no part of a line
/// break.
pub open spec fn bare_cr(bytes: Seq<u8>, start: int, end: int) -> bool {
    exists|i: int| start <= i < end && #[trigger] bare_cr_at(bytes, i)
}

pub fn spans_bare_cr(source: &str, start_byte: usize, end_byte: usize) -> (r: bool)
    requires
        start_byte <= end_byte <= encode_utf8(source@).len(),
    ensures
        r == bare_cr(encode_utf8(source@), start_byte as int, end_byte as int),
{
    let bytes = source.as_bytes();
    let mut i: usize = start_byte;
    while i < end_byte
        invariant
            start_byte <= i <= end_byte <= bytes@.len(),
            bytes@ == encode_utf8(source@),
            forall|j: int| start_byte <= j < i ==> !#[trigger] bare_cr_at(bytes@, j),
        decreases end_byte - i,
    {
        if bytes[i] == 13u8 {
            if i + 1 >= bytes.len() || bytes[i + 1] != 10u8 {
                assert(bare_cr_at(bytes@, i as int));
                return true;
            }
        }
        i = i + 1;
    }
    false
}

} // verus!
