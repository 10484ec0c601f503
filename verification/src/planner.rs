//! The replacements that reflow the comments of a source file.

use crate::assembly::{line_comment_line, opens_line_comment_at};
use crate::bytes::{
    at_boundary, lemma_line_start_boundary, lemma_source_ends, line_start, line_start_before, slice,
    span, span_ok,
};
use crate::classify::{classify, classify_style, kind_of, style_of, Style};
use crate::comment::{
    acsl_closer_split_allowed, acsl_split_allowed, comment_texts, Comment, CommentText,
};
use crate::config::IndentConfig;
use crate::directive::{ends_with_line_splice, spliced};
use crate::language::Language;
use crate::normalize::{closer_split, normalize, split_block_closer};
use crate::parse::{
    assembly_comments, extract_comments_with, extracted, tree_comments, well_placed, ExtractError,
    ParserPool,
};
use crate::reflow::{is_block, reflow, reflowed};
use crate::rewrite::{
    applicable, fault, make_replacement, replacement_of, splices, validate, Replacement,
    RewriteError, Splice,
};
use crate::syntax::parsed;
use crate::text::{
    after_lead, any_in, cat2, cat4, contains, ends_with, has_char, has_prefix, has_suffix, has_text,
    join_range, joined, leads_with, opens_with, prefix_rest, skip_lead, some_of, split_words,
    starts_with, strip_prefix, strs, trim, trim_end, trim_start, trimmed, trimmed_end,
    trimmed_start, words_of, CharClass,
};
use vstd::prelude::*;
use vstd::utf8::encode_utf8;

verus! {

/// A space or a tab.
pub open spec fn is_blank(b: u8) -> bool {
    b == 32 || b == 9
}

/// Where the blanks from `i` on end.
pub open spec fn past_blanks(b: Seq<u8>, i: int) -> int
    decreases b.len() - i,
{
    if 0 <= i < b.len() && is_blank(b[i]) {
        past_blanks(b, i + 1)
    } else {
        i
    }
}

/// Where the blanks start that end at `i`, not before `low`.
pub open spec fn before_blanks(b: Seq<u8>, i: int, low: int) -> int
    decreases i,
{
    if low < i && 0 < i && is_blank(b[i - 1]) {
        before_blanks(b, i - 1, low)
    } else {
        i
    }
}

/// Where the line break at `i` ends.
pub open spec fn past_break(b: Seq<u8>, i: int) -> int {
    if i + 1 < b.len() && b[i] == 13 && b[i + 1] == 10 {
        i + 2
    } else if i < b.len() {
        i + 1
    } else {
        i
    }
}

/// A comment that moves is alone on its line.
pub open spec fn alone_on_line(b: Seq<u8>, start: int, end: int) -> bool {
    let after = past_blanks(b, end);
    &&& forall|i: int| line_start(b, start) <= i < start ==> is_blank(#[trigger] b[i])
    &&& (after >= b.len() || b[after] == 10 || b[after] == 13)
}

/// What is deleted where a comment moves away: its whole line when it is alone
/// there, else the comment with the blanks before it (`backward`) or behind it.
pub open spec fn moved_span(b: Seq<u8>, start: int, end: int, backward: bool) -> (int, int) {
    let at = line_start(b, start);
    let after = past_blanks(b, end);
    if alone_on_line(b, start, end) {
        (at, past_break(b, after))
    } else if backward {
        (before_blanks(b, start, at), end)
    } else {
        (start, after)
    }
}

fn skip_blanks(bytes: &[u8], from: usize) -> (r: usize)
    requires
        from <= bytes@.len(),
    ensures
        r == past_blanks(bytes@, from as int),
        from <= r <= bytes@.len(),
{
    let mut i: usize = from;
    while i < bytes.len() && (bytes[i] == 32 || bytes[i] == 9)
        invariant
            from <= i <= bytes@.len(),
            past_blanks(bytes@, from as int) == past_blanks(bytes@, i as int),
        decreases bytes@.len() - i,
    {
        i = i + 1;
    }
    i
}

/// The byte range to delete when a comment is moved out of its spot.
fn comment_move_delete_span(source: &str, c: &Comment, backward: bool) -> (r: (usize, usize))
    requires
        c@.placed(source@),
    ensures
        (r.0 as int, r.1 as int) == moved_span(
            encode_utf8(source@),
            c.start_byte as int,
            c.end_byte as int,
            backward,
        ),
{
    let bytes = source.as_bytes();
    let start: usize = c.start_byte;
    let at: usize = line_start_before(source, start);
    let after: usize = skip_blanks(bytes, c.end_byte);
    let mut i: usize = at;
    let mut only_blanks = true;
    while i < start && only_blanks
        invariant
            at <= i <= start <= bytes@.len(),
            only_blanks ==> forall|j: int| at <= j < i ==> is_blank(#[trigger] bytes@[j]),
            !only_blanks ==> exists|j: int| at <= j < start && !is_blank(#[trigger] bytes@[j]),
        decreases start - i,
    {
        if bytes[i] != 32 && bytes[i] != 9 {
            only_blanks = false;
        }
        i = i + 1;
    }
    let at_eol = after >= bytes.len() || bytes[after] == 10 || bytes[after] == 13;
    if only_blanks && at_eol {
        let end: usize = if after >= bytes.len() {
            after
        } else if bytes[after] == 13 && after + 1 < bytes.len() && bytes[after + 1] == 10 {
            after + 2
        } else {
            after + 1
        };
        return (at, end);
    }
    if backward {
        let mut s: usize = start;
        while s > at && (bytes[s - 1] == 32 || bytes[s - 1] == 9)
            invariant
                at <= s <= start <= bytes@.len(),
                before_blanks(bytes@, start as int, at as int) == before_blanks(
                    bytes@,
                    s as int,
                    at as int,
                ),
            decreases s,
        {
            s = s - 1;
        }
        return (s, c.end_byte);
    }
    (start, after)
}

/// The line that ends at `end` together with the lines that a backslash ties it
/// to: where the first of them starts and ends.
pub open spec fn directive_line(src: Seq<char>, start: int, end: int) -> (int, int)
    decreases start,
{
    let above = line_start(encode_utf8(src), start - 1);
    if 0 < start && 0 <= above < start && spliced(span(src, above, start - 1)) {
        directive_line(src, above, start - 1)
    } else {
        (start, end)
    }
}

/// What follows the `#` of a directive line.
pub open spec fn directive_text(line: Seq<char>) -> Option<Seq<char>> {
    prefix_rest(
        trimmed_start(after_lead(trimmed(line), CharClass::One('\u{feff}'))),
        "#"@,
    )
}

/// A line with a `#` that opens what the comment below it stands in: the first
/// line of a shell script, or a conditional.
pub open spec fn opens_hash_scope(line: Seq<char>, first: bool, lang: Language) -> bool {
    match directive_text(line) {
        Some(rest) => {
            let d = trimmed_start(rest);
            ||| lang == Language::Shell && first && leads_with(rest, CharClass::One('!'))
            ||| has_prefix(d, "if"@)
            ||| has_prefix(d, "else"@)
            ||| has_prefix(d, "elif"@)
        },
        None => false,
    }
}

/// The line above a comment keeps the comment flush: there is nothing on it, or
/// it opens a block or names a label.
pub open spec fn keeps_flush(prev: Seq<char>) -> bool {
    prev.len() == 0 || has_suffix(prev, "{"@) || has_suffix(prev, ":"@)
}

/// The comment needs a blank line above it: it is an ordinary comment on
/// several lines and on lines of its own, code stands right above it, it is not
/// the first thing in a block, and no block opens behind it.
pub open spec fn needs_blank(
    src: Seq<char>,
    c: CommentText,
    style: Style,
    multiline: bool,
    prev_comment: Option<CommentText>,
    lang: Language,
) -> bool {
    let b = encode_utf8(src);
    let at = line_start(b, c.start_byte);
    let prev_start = line_start(b, at - 1);
    let prev = trimmed(span(src, prev_start, at));
    let d = directive_line(src, prev_start, at - 1);
    &&& !c.is_trailing && multiline
    &&& style == Style::Line || style == Style::Block
    &&& at > 0
    &&& !keeps_flush(prev)
    &&& !opens_hash_scope(span(src, d.0, d.1), prev_start == 0, lang)
    &&& match prev_comment {
        Some(o) => !(o.start_byte < at && o.end_byte > prev_start),
        None => true,
    }
    &&& !(lang == Language::Asm && line_comment_line(prev))
    &&& !leads_with(trimmed_start(span(src, c.end_byte, b.len() as int)), CharClass::One('{'))
}

/// The blank line and the indentation that go in front of the comment.
pub open spec fn blank_lead(src: Seq<char>, c: CommentText) -> Seq<char> {
    let b = encode_utf8(src);
    let at = line_start(b, c.start_byte);
    let nl = if at >= 2 && b[at - 2] == 13 {
        "\r\n"@
    } else {
        "\n"@
    };
    nl + span(src, at, c.start_byte)
}

fn find_directive_line(source: &str, start: usize, end: usize) -> (r: (usize, usize))
    requires
        start <= end <= encode_utf8(source@).len(),
        at_boundary(source@, start as int),
        at_boundary(source@, end as int),
        start == line_start(encode_utf8(source@), end as int),
    ensures
        (r.0 as int, r.1 as int) == directive_line(source@, start as int, end as int),
        span_ok(source@, r.0 as int, r.1 as int),
{
    let ghost want = directive_line(source@, start as int, end as int);
    let mut s: usize = start;
    let mut e: usize = end;
    while s > 0
        invariant
            s <= e <= encode_utf8(source@).len(),
            at_boundary(source@, s as int),
            at_boundary(source@, e as int),
            s == line_start(encode_utf8(source@), e as int),
            directive_line(source@, s as int, e as int) == want,
            want == directive_line(source@, start as int, end as int),
        decreases s,
    {
        proof {
            lemma_line_start_boundary(source@, e as int);
        }
        let above: usize = line_start_before(source, s - 1);
        proof {
            lemma_line_start_boundary(source@, s - 1);
        }
        if !ends_with_line_splice(slice(source, above, s - 1)) {
            return (s, e);
        }
        e = s - 1;
        s = above;
    }
    (s, e)
}

fn line_opens_hash_scope(line: &str, first: bool, lang: Language) -> (r: bool)
    ensures
        r == opens_hash_scope(line@, first, lang),
{
    match strip_prefix(trim_start(skip_lead(trim(line), CharClass::One('\u{feff}'))), "#") {
        Some(rest) => {
            let d = trim_start(rest);
            (lang == Language::Shell && first && opens_with(rest, CharClass::One('!')))
                || starts_with(d, "if") || starts_with(d, "else") || starts_with(d, "elif")
        },
        None => false,
    }
}

/// Where a comment is to be replaced from, and what goes in front of it, when it
/// needs a blank line above it.
fn blank_line_before(
    source: &str,
    c: &Comment,
    style: Style,
    multiline: bool,
    prev_comment: Option<&Comment>,
    lang: Language,
) -> (r: Option<(usize, String)>)
    requires
        c@.placed(source@),
    ensures
        ({
            let needs = needs_blank(
                source@,
                c@,
                style,
                multiline,
                match prev_comment {
                    Some(o) => Some(o@),
                    None => None,
                },
                lang,
            );
            match r {
                Some((start, lead)) => needs && start == line_start(
                    encode_utf8(source@),
                    c.start_byte as int,
                ) && lead@ == blank_lead(source@, c@),
                None => !needs,
            }
        }),
{
    if c.is_trailing || !multiline {
        return None;
    }
    if style != Style::Line && style != Style::Block {
        return None;
    }
    let bytes = source.as_bytes();
    let len: usize = bytes.len();
    let at: usize = line_start_before(source, c.start_byte);
    if at == 0 {
        return None;
    }
    proof {
        lemma_line_start_boundary(source@, c.start_byte as int);
        lemma_source_ends(source@);
    }
    let prev_start: usize = line_start_before(source, at - 1);
    proof {
        lemma_line_start_boundary(source@, at - 1);
    }
    let prev = trim(slice(source, prev_start, at));
    if prev.is_empty() || ends_with(prev, "{") || ends_with(prev, ":") {
        return None;
    }
    let (ds, de) = find_directive_line(source, prev_start, at - 1);
    if line_opens_hash_scope(slice(source, ds, de), prev_start == 0, lang) {
        return None;
    }
    if let Some(o) = prev_comment {
        if o.start_byte < at && o.end_byte > prev_start {
            return None;
        }
    }
    if lang == Language::Asm && opens_line_comment_at(prev) {
        return None;
    }
    if opens_with(trim_start(slice(source, c.end_byte, len)), CharClass::One('{')) {
        return None;
    }
    let nl = if at >= 2 && bytes[at - 2] == 13 {
        "\r\n"
    } else {
        "\n"
    };
    Some((at, cat2(nl, slice(source, at, c.start_byte))))
}

/// A block comment: an opener, a closer that does not overlap it, and no other
/// closer.
pub open spec fn well_formed_block(text: Seq<char>) -> bool {
    let t = trimmed_end(text);
    &&& t.len() >= 4
    &&& has_prefix(t, "/*"@)
    &&& has_suffix(t, "*/"@)
    &&& !has_text(t.subrange(2, t.len() - 2), "*/"@)
}

fn block_comment_well_formed(text: &str) -> (r: bool)
    ensures
        r == well_formed_block(text@),
{
    let t = trim_end(text);
    let len: usize = t.unicode_len();
    if len < 4 || !starts_with(t, "/*") || !ends_with(t, "*/") {
        return false;
    }
    !contains(t.substring_char(2, len - 2), "*/")
}

/// A comment as it is put back by a move: on one line.
pub open spec fn moved_text(text: Seq<char>) -> Seq<char> {
    if any_in(text, CharClass::Two('\n', '\r')) {
        joined(words_of(text), " "@)
    } else {
        text
    }
}

fn text_to_move(text: &str) -> (r: String)
    ensures
        r@ == moved_text(text@),
{
    if some_of(text, CharClass::Two('\n', '\r')) {
        let words = split_words(text);
        assert(strs(words@).subrange(0, words.len() as int) =~= strs(words@));
        join_range(&words, 0, words.len(), " ")
    } else {
        text.to_string()
    }
}

/// The deletion of a comment that moves.
pub open spec fn deletion(src: Seq<char>, c: CommentText, backward: bool) -> Splice {
    let d = moved_span(encode_utf8(src), c.start_byte, c.end_byte, backward);
    Splice { start: d.0, end: d.1, text: Seq::empty() }
}

/// The move of a parameter comment.
#[verifier::opaque]
pub open spec fn shift_splices(src: Seq<char>, c: CommentText) -> Seq<Splice> {
    let shift = c.param_shift->0;
    seq![
        deletion(src, c, shift.after_paren),
        Splice {
            start: shift.insert_at as int,
            end: shift.insert_at as int,
            text: " "@ + moved_text(c.text),
        },
    ]
}

/// The indentation for the closer of a comment that is left alone: `Some(None)`
/// is that of the last line. `None` where the closer stays too.
pub open spec fn closer_indent(src: Seq<char>, c: CommentText, lang: Language) -> Option<
    Option<Seq<char>>,
> {
    if acsl_split_allowed(src, c, lang) {
        Some(Some(c.line_indent_bytes + " "@))
    } else if !c.force_passthrough && c.is_trailing {
        Some(None)
    } else {
        None
    }
}

/// What happens to a comment that is left alone: a closer that is glued to the
/// last line of a trailing block or an annotation moves to its own line.
#[verifier::opaque]
pub open spec fn closer_splices(src: Seq<char>, c: CommentText, lang: Language) -> Seq<Splice> {
    match closer_indent(src, c, lang) {
        Some(indent) => if is_block(style_of(c.text)) {
            match closer_split(c.text, indent) {
                Some(text) => match replacement_of(c, text, src) {
                    Some(r) => seq![r],
                    None => Seq::empty(),
                },
                None => Seq::empty(),
            }
        } else {
            Seq::empty()
        },
        None => Seq::empty(),
    }
}

/// The text may replace a comment of that style: it has the style itself, and a
/// block is well formed.
pub open spec fn keeps_style(text: Seq<char>, style: Style) -> bool {
    text.len() == 0 || (style_of(text) == style && (is_block(style) ==> well_formed_block(text)))
}

/// A blank line stands in front of byte offset `at`, or the file starts there.
pub open spec fn blank_above(b: Seq<u8>, at: int) -> bool {
    ||| at == 0
    ||| at >= 2 && b[at - 1] == 10 && b[at - 2] == 10
    ||| at >= 4 && b[at - 1] == 10 && b[at - 2] == 13 && b[at - 3] == 10 && b[at - 4] == 13
}

/// The move of a manual page ahead of its function, set off by blank lines.
#[verifier::opaque]
pub open spec fn page_splices(src: Seq<char>, c: CommentText, text: Seq<char>) -> Seq<Splice> {
    let at = c.relocate_before->0 as int;
    let nl = c.fallback_ending;
    let lead = if blank_above(encode_utf8(src), at) {
        Seq::empty()
    } else {
        nl
    };
    seq![
        deletion(src, c, c.is_trailing),
        Splice { start: at, end: at, text: lead + text + nl + nl },
    ]
}

/// The replacement of a comment where it stands, with a blank line above it
/// where it needs one.
#[verifier::opaque]
pub open spec fn in_place_splices(
    src: Seq<char>,
    c: CommentText,
    text: Seq<char>,
    prev_comment: Option<CommentText>,
    lang: Language,
) -> Seq<Splice> {
    let style = style_of(c.text);
    let blank = needs_blank(src, c, style, text.contains('\n'), prev_comment, lang);
    let at = line_start(encode_utf8(src), c.start_byte);
    match replacement_of(c, text, src) {
        Some(r) => if blank {
            seq![Splice { start: at, end: r.end, text: blank_lead(src, c) + r.text }]
        } else {
            seq![r]
        },
        None => if blank {
            seq![
                Splice {
                    start: at,
                    end: c.end_byte,
                    text: blank_lead(src, c) + span(src, c.start_byte, c.end_byte),
                },
            ]
        } else {
            Seq::empty()
        },
    }
}

/// What happens to one comment.
#[verifier::opaque]
pub open spec fn comment_splices(
    src: Seq<char>,
    c: CommentText,
    prev_comment: Option<CommentText>,
    lang: Language,
    limit: usize,
    tab_width: usize,
) -> Seq<Splice> {
    let kind = kind_of(c.text, lang);
    if c.param_shift is Some {
        shift_splices(src, c)
    } else if c.left_alone(kind, lang, limit) {
        closer_splices(src, c, lang)
    } else {
        let doc = c.normalized(kind, lang, limit);
        let text = reflowed(doc, limit, tab_width);
        if !keeps_style(text, kind.style) {
            Seq::empty()
        } else if doc.manpage && c.relocate_before is Some && text.len() > 0 {
            page_splices(src, c, text)
        } else {
            in_place_splices(src, c, text, prev_comment, lang)
        }
    }
}

/// What happens to the first `n` comments.
pub open spec fn planned_upto(
    src: Seq<char>,
    comments: Seq<CommentText>,
    n: int,
    lang: Language,
    limit: usize,
    tab_width: usize,
) -> Seq<Splice>
    decreases n,
{
    if n <= 0 {
        Seq::empty()
    } else {
        let prev = if n > 1 {
            Some(comments[n - 2])
        } else {
            None
        };
        planned_upto(src, comments, n - 1, lang, limit, tab_width) + comment_splices(
            src,
            comments[n - 1],
            prev,
            lang,
            limit,
            tab_width,
        )
    }
}

/// What happens to the comments of a source.
pub open spec fn planned(
    src: Seq<char>,
    comments: Seq<CommentText>,
    lang: Language,
    limit: usize,
    tab_width: usize,
) -> Seq<Splice> {
    planned_upto(src, comments, comments.len() as int, lang, limit, tab_width)
}

fn empty_string() -> (r: String)
    ensures
        r@ == Seq::<char>::empty(),
{
    let s = String::new();
    assert(s@ =~= Seq::<char>::empty());
    s
}

fn delete_comment(source: &str, c: &Comment, backward: bool) -> (r: Replacement)
    requires
        c@.placed(source@),
    ensures
        r@ == deletion(source@, c@, backward),
{
    let (start, end) = comment_move_delete_span(source, c, backward);
    Replacement { start, end, text: empty_string() }
}

fn plan_closer(source: &str, c: &Comment, style: Style, lang: Language, out: &mut Vec<Replacement>)
    requires
        c@.placed(source@),
        style == style_of(c@.text),
    ensures
        splices(final(out)@) == splices(old(out)@) + closer_splices(source@, c@, lang),
{
    proof {
        reveal(closer_splices);
    }
    let ghost given = splices(out@);
    let text = c.text.as_str();
    let split = if acsl_closer_split_allowed(source, c, lang) {
        if style != Style::Block && style != Style::DocBlock {
            assert(splices(out@) =~= given + closer_splices(source@, c@, lang));
            return;
        }
        let indent = cat2(c.line_indent_bytes.as_str(), " ");
        split_block_closer(text, Some(indent.as_str()))
    } else if !c.force_passthrough && c.is_trailing {
        if style != Style::Block && style != Style::DocBlock {
            assert(splices(out@) =~= given + closer_splices(source@, c@, lang));
            return;
        }
        split_block_closer(text, None)
    } else {
        assert(splices(out@) =~= given + closer_splices(source@, c@, lang));
        return;
    };
    match split {
        Some(t) => match make_replacement(c, t.as_str(), source) {
            Some(r) => {
                out.push(r);
                assert(splices(out@) =~= given + seq![r@]);
            },
            None => {
                assert(splices(out@) =~= given + closer_splices(source@, c@, lang));
            },
        },
        None => {
            assert(splices(out@) =~= given + closer_splices(source@, c@, lang));
        },
    }
}

fn has_blank_above(source: &str, at: usize) -> (r: bool)
    requires
        at <= encode_utf8(source@).len(),
    ensures
        r == blank_above(encode_utf8(source@), at as int),
{
    let bytes = source.as_bytes();
    at == 0 || (at >= 2 && bytes[at - 1] == 10 && bytes[at - 2] == 10) || (at >= 4 && bytes[at - 1]
        == 10 && bytes[at - 2] == 13 && bytes[at - 3] == 10 && bytes[at - 4] == 13)
}

fn plan_page(source: &str, c: &Comment, text: &str, at: usize, out: &mut Vec<Replacement>)
    requires
        c@.placed(source@),
        at <= encode_utf8(source@).len(),
        c.relocate_before == Some(at),
    ensures
        splices(final(out)@) == splices(old(out)@) + page_splices(source@, c@, text@),
{
    proof {
        reveal(page_splices);
    }
    let ghost given = splices(out@);
    let del = delete_comment(source, c, c.is_trailing);
    let nl = c.fallback_ending;
    let lead = if has_blank_above(source, at) {
        empty_string()
    } else {
        nl.to_string()
    };
    let ins = Replacement { start: at, end: at, text: cat4(lead.as_str(), text, nl, nl) };
    out.push(del);
    out.push(ins);
    assert(splices(out@) =~= given + seq![del@, ins@]);
}

fn plan_in_place(
    source: &str,
    c: &Comment,
    text: &str,
    style: Style,
    prev_comment: Option<&Comment>,
    lang: Language,
    out: &mut Vec<Replacement>,
)
    requires
        c@.placed(source@),
        style == style_of(c@.text),
    ensures
        splices(final(out)@) == splices(old(out)@) + in_place_splices(
            source@,
            c@,
            text@,
            match prev_comment {
                Some(o) => Some(o@),
                None => None,
            },
            lang,
        ),
{
    proof {
        reveal(in_place_splices);
    }
    let ghost given = splices(out@);
    let ghost prev = match prev_comment {
        Some(o) => Some(o@),
        None => None,
    };
    let multiline = has_char(text, '\n');
    let blank = blank_line_before(source, c, style, multiline, prev_comment, lang);
    let rep = make_replacement(c, text, source);
    match (rep, blank) {
        (Some(r), Some((start, lead))) => {
            let joined_text = cat2(lead.as_str(), r.text.as_str());
            let full = Replacement { start, end: r.end, text: joined_text };
            out.push(full);
            assert(splices(out@) =~= given + seq![full@]);
        },
        (Some(r), None) => {
            out.push(r);
            assert(splices(out@) =~= given + seq![r@]);
        },
        (None, Some((start, lead))) => {
            let kept = cat2(lead.as_str(), slice(source, c.start_byte, c.end_byte));
            let full = Replacement { start, end: c.end_byte, text: kept };
            out.push(full);
            assert(splices(out@) =~= given + seq![full@]);
        },
        (None, None) => {
            assert(splices(out@) =~= given + in_place_splices(source@, c@, text@, prev, lang));
        },
    }
}

fn style_kept(text: &str, style: Style) -> (r: bool)
    ensures
        r == keeps_style(text@, style),
{
    text.is_empty() || (classify_style(text) == style && ((style != Style::Block && style
        != Style::DocBlock) || block_comment_well_formed(text)))
}

/// Appends what happens to one comment.
fn plan_comment(
    source: &str,
    c: &Comment,
    prev_comment: Option<&Comment>,
    lang: Language,
    column_limit: usize,
    indent: IndentConfig,
    out: &mut Vec<Replacement>,
)
    requires
        c@.placed(source@),
        c.relocate_before is Some ==> c.relocate_before->0 <= encode_utf8(source@).len(),
        indent.wf(),
    ensures
        splices(final(out)@) == splices(old(out)@) + comment_splices(
            source@,
            c@,
            match prev_comment {
                Some(o) => Some(o@),
                None => None,
            },
            lang,
            column_limit,
            indent.tab_width,
        ),
{
    proof {
        reveal(comment_splices);
        reveal(shift_splices);
    }
    let ghost given = splices(out@);
    if let Some(shift) = c.param_shift {
        let del = delete_comment(source, c, shift.after_paren);
        let moved = text_to_move(c.text.as_str());
        let ins = Replacement {
            start: shift.insert_at,
            end: shift.insert_at,
            text: cat2(" ", moved.as_str()),
        };
        out.push(del);
        out.push(ins);
        assert(splices(out@) =~= given + seq![del@, ins@]);
        return;
    }
    let kind = classify(c.text.as_str(), lang);
    let doc = match normalize(c, &kind, lang, column_limit) {
        Some(d) => d,
        None => {
            plan_closer(source, c, kind.style, lang, out);
            return;
        },
    };
    let text = reflow(&doc, column_limit, indent);
    if !style_kept(text.as_str(), kind.style) {
        assert(splices(out@) =~= given + Seq::<Splice>::empty());
        return;
    }
    if doc.manpage && !text.as_str().is_empty() {
        if let Some(at) = c.relocate_before {
            plan_page(source, c, text.as_str(), at, out);
            return;
        }
    }
    plan_in_place(source, c, text.as_str(), kind.style, prev_comment, lang, out);
}

/// The replacements for the given comments of a source. They are checked: none
/// covers code, and text goes in only where a comment moves to.
pub fn plan_comments(
    source: &str,
    comments: &Vec<Comment>,
    lang: Language,
    column_limit: usize,
    indent: IndentConfig,
) -> (r: Result<Vec<Replacement>, RewriteError>)
    requires
        well_placed(comment_texts(comments@), source@),
        indent.wf(),
    ensures
        ({
            let cs = comment_texts(comments@);
            let plan = planned(source@, cs, lang, column_limit, indent.tab_width);
            match r {
                Ok(v) => {
                    &&& splices(v@) == plan
                    &&& fault(plan, source@, cs) is None
                    &&& applicable(plan, source@)
                },
                Err(e) => fault(plan, source@, cs) == Some(e),
            }
        }),
{
    let ghost cs = comment_texts(comments@);
    let tab_width: usize = indent.tab_width;
    let mut out: Vec<Replacement> = Vec::new();
    let mut i: usize = 0;
    assert(splices(out@) =~= planned_upto(source@, cs, 0, lang, column_limit, tab_width));
    while i < comments.len()
        invariant
            i <= comments.len(),
            cs == comment_texts(comments@),
            well_placed(cs, source@),
            indent.wf(),
            tab_width == indent.tab_width,
            splices(out@) == planned_upto(source@, cs, i as int, lang, column_limit, tab_width),
        decreases comments.len() - i,
    {
        assert(cs[i as int] == comments@[i as int]@);
        assert(cs[i as int].placed(source@));
        let prev = if i > 0 {
            assert(cs[i - 1] == comments@[i - 1]@);
            Some(&comments[i - 1])
        } else {
            None
        };
        plan_comment(source, &comments[i], prev, lang, column_limit, indent, &mut out);
        i = i + 1;
    }
    match validate(&out, source, comments) {
        Ok(_) => {
            proof {
                crate::rewrite::law_no_code_is_covered(splices(out@), source@, cs);
            }
            Ok(out)
        },
        Err(e) => Err(e),
    }
}

/// Why there is no plan for a source.
#[derive(Debug, Clone, Copy, PartialEq, Eq, Structural)]
pub enum PlanError {
    /// The comments could not be found.
    Extract(ExtractError),
    /// The replacements were refused.
    Rewrite(RewriteError),
}

impl PlanError {
    pub open spec fn message(self) -> Seq<char> {
        match self {
            PlanError::Extract(e) => e.message(),
            PlanError::Rewrite(e) => e.message(),
        }
    }

    /// What to tell the user.
    pub fn describe(&self) -> (r: &'static str)
        ensures
            r@ == self.message(),
    {
        match self {
            PlanError::Extract(e) => e.describe(),
            PlanError::Rewrite(e) => e.describe(),
        }
    }
}

/// The comments of a source for which the parser gives a tree.
pub open spec fn found_comments(src: Seq<char>, lang: Language) -> Seq<CommentText> {
    if lang == Language::Asm {
        assembly_comments(src)
    } else {
        tree_comments(parsed(lang, src)->0, src, lang)
    }
}

/// Finds the comments of a source and plans their replacements.
pub fn plan(
    source: &str,
    lang: Language,
    column_limit: usize,
    indent: IndentConfig,
    pool: &mut ParserPool,
) -> (r: Result<Vec<Replacement>, PlanError>)
    requires
        old(pool).wf(),
        indent.wf(),
    ensures
        final(pool).wf(),
        final(pool).used(*old(pool), lang),
        ({
            let cs = found_comments(source@, lang);
            let plan = planned(source@, cs, lang, column_limit, indent.tab_width);
            match r {
                Ok(v) => {
                    &&& extracted(source@, lang, Ok(cs))
                    &&& splices(v@) == plan
                    &&& fault(plan, source@, cs) is None
                    &&& applicable(plan, source@)
                },
                Err(PlanError::Rewrite(e)) => extracted(source@, lang, Ok(cs)) && fault(
                    plan,
                    source@,
                    cs,
                ) == Some(e),
                Err(PlanError::Extract(e)) => extracted(source@, lang, Err(e)),
            }
        }),
{
    match extract_comments_with(source, lang, pool) {
        Ok(comments) => {
            assert(comment_texts(comments@) == found_comments(source@, lang));
            match plan_comments(source, &comments, lang, column_limit, indent) {
                Ok(v) => Ok(v),
                Err(e) => Err(PlanError::Rewrite(e)),
            }
        },
        Err(e) => Err(PlanError::Extract(e)),
    }
}

} // verus!
