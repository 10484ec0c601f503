//! Output is stable: a second pass leaves a comment as the first one emitted it.

use crate::block_settling::{
    block_emitted, first_row, lemma_block_ends, lemma_block_opens, lemma_block_settles,
    lemma_continues_behind_star, lemma_framed, lemma_lines_stay_open, shares_row,
};
use crate::classify::{kind_of, style_of, Style};
use crate::comment::CommentText;
use crate::language::Language;
use crate::normalize::{block_marker_of, line_marker_of, paragraphs_from, DocText, ParagraphKind};
use crate::reflow::{body_lines, is_block, line_comment_lines, reflowed};
use crate::rows::{
    block_opener, eol_of, is_break, lemma_joined_opens, lemma_marker_found, plain_marker,
};
use crate::second_pass::lemma_laid_body;
use crate::settling::{
    doc_lines, doc_room, doc_stretches, lemma_first_line, lemma_line_comment_settles,
    lemma_line_ends, lemma_line_prefix, line_comment_emitted, reads_again, sound_stretches,
};
use crate::text::{all_in, has_prefix, in_class, joined, lead_run, lemma_lead_len_facts, CharClass};
use vstd::prelude::*;

verus! {

/// The comment as a first pass lays it out.
pub open spec fn first_doc(c: CommentText, lang: Language, limit: usize) -> DocText {
    c.normalized(kind_of(c.text, lang), lang, limit)
}

/// The comment's text as a first pass emits it.
pub open spec fn emitted(c: CommentText, lang: Language, limit: usize, tab_width: usize) -> Seq<
    char,
> {
    reflowed(first_doc(c, lang, limit), limit, tab_width)
}

/// The comment is one that stands in a source: blanks indent it, a marker opens
/// it, and its line ending is one of the two there are.
pub open spec fn stands_in_source(c: CommentText) -> bool {
    &&& all_in(c.line_indent_bytes, CharClass::Blank)
    &&& !is_block(style_of(c.text)) ==> line_marker_of(c.text) is Some
    &&& c.fallback_ending == "\n"@ || c.fallback_ending == "\r\n"@
}

/// The first line of the comment can stand at its opener or marker. A line of
/// prose always can.
pub open spec fn opens_well(
    doc: DocText,
    text: Seq<char>,
    limit: usize,
    tab_width: usize,
) -> bool {
    let kind = doc_stretches(doc, limit, tab_width)[0].kind;
    if is_block(doc.style) {
        kind != ParagraphKind::Prose && !doc.is_file_header ==> shares_row(
            doc,
            doc_lines(doc, limit, tab_width)[0],
        )
    } else {
        kind == ParagraphKind::Preformatted ==> line_marker_of(text) == doc.line_marker
            && style_of(text) == doc.style
    }
}

pub proof fn lemma_plain_marker(text: Seq<char>)
    requires
        line_marker_of(text) is Some,
    ensures
        plain_marker(line_marker_of(text)->0),
{
    if !has_prefix(text, "///"@) && !has_prefix(text, "//!"@) && !has_prefix(text, "//"@)
        && !has_prefix(text, "#!"@) {
        lemma_lead_len_facts(text, CharClass::One('#'));
        let m = lead_run(text, CharClass::One('#'));
        assert forall|i: int| 0 <= i < m.len() implies in_class(
            #[trigger] m[i],
            CharClass::One('#'),
        ) by {
            assert(m[i] == text[i]);
        }
    }
}

/// The marker of a line comment tells its style.
pub proof fn lemma_marker_style(text: Seq<char>)
    requires
        line_marker_of(text) is Some,
    ensures
        style_of(text) == if line_marker_of(text)->0 == "///"@ || line_marker_of(text)->0
            == "//!"@ {
            Style::DocLine
        } else {
            Style::Line
        },
{
    reveal_strlit("///");
    reveal_strlit("//!");
    reveal_strlit("//");
    reveal_strlit("#!");
    reveal_strlit("/*");
    reveal_strlit("/**");
    reveal_strlit("/*!");
    let m = line_marker_of(text)->0;
    if has_prefix(text, "/*"@) || has_prefix(text, "/**"@) || has_prefix(text, "/*!"@) {
        assert(text[0] == '/' && text[1] == '*') by {
            if has_prefix(text, "/*"@) {
                assert(text.subrange(0, 2)[0] == '/' && text.subrange(0, 2)[1] == '*');
            } else {
                assert(text.subrange(0, 3)[0] == '/' && text.subrange(0, 3)[1] == '*');
            }
        }
        if has_prefix(text, "//"@) {
            assert(text.subrange(0, 2)[1] == '/');
        }
        if has_prefix(text, "///"@) {
            assert(text.subrange(0, 3)[1] == '/');
        }
        if has_prefix(text, "//!"@) {
            assert(text.subrange(0, 3)[1] == '/');
        }
        if has_prefix(text, "#!"@) {
            assert(text.subrange(0, 2)[0] == '#');
        }
    }
    if has_prefix(text, "///"@) || has_prefix(text, "//!"@) {
    } else {
        if has_prefix(text, "//"@) {
            assert(m.len() == 2);
        } else if has_prefix(text, "#!"@) {
            assert(m.len() == 2);
        } else {
            lemma_lead_len_facts(text, CharClass::One('#'));
            assert(m[0] == text[0]);
            assert("///"@[0] == '/' && "//!"@[0] == '/');
        }
    }
}

/// The line ending of a comment is one of the two there are.
pub proof fn lemma_ending(c: CommentText, lang: Language, limit: usize) -> (crlf: bool)
    requires
        stands_in_source(c),
    ensures
        first_doc(c, lang, limit).ending() == eol_of(crlf),
{
    reveal(CommentText::normalized);
    let e = first_doc(c, lang, limit).ending();
    e == "\r\n"@
}

/// The body of a comment is its stretches, laid out.
proof fn lemma_body(doc: DocText, limit: usize, tab_width: usize)
    requires
        doc_stretches(doc, limit, tab_width).len() > 0,
    ensures
        body_lines(doc, doc.prefix(), doc_room(doc, limit, tab_width), is_block(doc.style))
            == doc_lines(doc, limit, tab_width),
{
    reveal(doc_stretches);
    let n = doc.paragraphs.len() as int;
    lemma_laid_body(
        doc,
        n,
        doc.prefix(),
        doc_room(doc, limit, tab_width),
        is_block(doc.style),
    );
}

/// The marker of an emitted line comment is the one that it had.
proof fn lemma_marker_kept(
    doc: DocText,
    text: Seq<char>,
    marker: Seq<char>,
    crlf: bool,
    brk: Seq<char>,
    limit: usize,
    tab_width: usize,
)
    requires
        doc.style == Style::Line || doc.style == Style::DocLine,
        doc.line_marker == Some(marker),
        plain_marker(marker),
        all_in(doc.indent, CharClass::Blank),
        sound_stretches(doc_stretches(doc, limit, tab_width), doc.style),
        doc_stretches(doc, limit, tab_width)[0].kind != ParagraphKind::Preformatted,
        text == joined(
            line_comment_lines(doc, doc_lines(doc, limit, tab_width)),
            eol_of(crlf),
        ) + brk,
    ensures
        line_marker_of(text) == Some(marker),
{
    reveal_strlit(" ");
    let lines = doc_lines(doc, limit, tab_width);
    let prefix = doc.prefix();
    lemma_line_prefix(doc, marker);
    lemma_first_line(doc, limit, tab_width);
    let rows = line_comment_lines(doc, lines);
    let n = doc.indent.len() as int;
    let m = prefix.len() as int;
    let x = lines[0].skip(m);
    assert(lines[0].subrange(0, m) == prefix);
    assert(lines[0].subrange(0, n) =~= doc.indent);
    assert(rows[0] =~= marker + seq![' '] + x) by {
        assert(lines[0] =~= prefix + x);
    }
    lemma_joined_opens(rows, eol_of(crlf));
    let whole = joined(rows, eol_of(crlf));
    let tail = text.skip(rows[0].len() as int);
    assert(text =~= rows[0] + tail) by {
        assert(whole =~= whole.take(rows[0].len() as int) + whole.skip(rows[0].len() as int));
    }
    assert(text =~= marker + seq![' '] + (x + tail));
    lemma_marker_found(marker, x + tail);
}

/// The opener of a block tells its style.
pub proof fn lemma_opener_style(text: Seq<char>)
    requires
        is_block(style_of(text)),
    ensures
        block_marker_of(text) is Some,
        block_opener(block_marker_of(text)->0, style_of(text)),
{
    reveal_strlit("/*");
    reveal_strlit("/**");
    reveal_strlit("/*!");
    reveal_strlit("/*-");
    if has_prefix(text, "/**"@) {
        assert(text.subrange(0, 2) =~= "/*"@) by {
            assert(text.subrange(0, 3)[0] == '/' && text.subrange(0, 3)[1] == '*');
        }
    }
    if has_prefix(text, "/*-"@) {
        assert(text.subrange(0, 2) =~= "/*"@) by {
            assert(text.subrange(0, 3)[0] == '/' && text.subrange(0, 3)[1] == '*');
        }
    }
}

/// The comment is a manual page, which moves ahead of its function.
pub open spec fn is_page(c: CommentText, lang: Language, limit: usize) -> bool {
    c.page(kind_of(c.text, lang), lang, limit) is Some
}

/// The comment is none that moves ahead of its function.
#[verifier::opaque]
pub open spec fn is_no_page(c: CommentText, lang: Language, limit: usize) -> bool {
    !is_page(c, lang, limit)
}

/// The comment as a first pass leaves it: with the emitted text, and the line
/// break that it ended in. A manual page stands at a line's start then, and at the
/// file's start if it was moved there.
pub open spec fn after_first(
    c: CommentText,
    brk: Seq<char>,
    lang: Language,
    limit: usize,
    tab_width: usize,
) -> CommentText {
    let d = c.with_text(emitted(c, lang, limit, tab_width) + brk);
    if is_page(c, lang, limit) {
        CommentText {
            is_trailing: false,
            line_indent_bytes: Seq::empty(),
            at_file_start: c.relocate_before == Some(0usize),
            relocate_before: None,
            ..d
        }
    } else {
        d
    }
}

/// What the first pass emits for the comment is read so that it goes out again as
/// it was emitted.
pub open spec fn reads_as_emitted(
    c: CommentText,
    brk: Seq<char>,
    lang: Language,
    limit: usize,
    tab_width: usize,
) -> bool {
    let kind = kind_of(c.text, lang);
    let doc = first_doc(c, lang, limit);
    let d = after_first(c, brk, lang, limit, tab_width);
    &&& sound_stretches(doc_stretches(doc, limit, tab_width), doc.style)
    &&& opens_well(doc, d.text, limit, tab_width)
    &&& reads_again(d, kind, lang, doc, limit, tab_width, first_row(doc))
}

/// The text that a first pass emits, as its stretches are laid out.
pub proof fn lemma_emitted_forms(
    c: CommentText,
    brk: Seq<char>,
    lang: Language,
    limit: usize,
    tab_width: usize,
) -> (crlf: bool)
    requires
        stands_in_source(c),
        is_break(brk),
        is_block(style_of(c.text)) ==> brk.len() == 0,
        ({
            let doc = first_doc(c, lang, limit);
            let d = after_first(c, brk, lang, limit, tab_width);
            &&& sound_stretches(doc_stretches(doc, limit, tab_width), doc.style)
            &&& opens_well(doc, d.text, limit, tab_width)
        }),
    ensures
        ({
            let doc = first_doc(c, lang, limit);
            let d = after_first(c, brk, lang, limit, tab_width);
            let lines = doc_lines(doc, limit, tab_width);
            &&& kind_of(d.text, lang) == kind_of(c.text, lang)
            &&& is_block(doc.style) ==> block_emitted(
                doc,
                d,
                block_marker_of(c.text)->0,
                crlf,
                limit,
                tab_width,
            ) && d.text == emitted(c, lang, limit, tab_width)
            &&& !is_block(doc.style) ==> line_comment_emitted(
                doc,
                d,
                line_marker_of(c.text)->0,
                crlf,
                brk,
                limit,
                tab_width,
            ) && emitted(c, lang, limit, tab_width) == joined(
                line_comment_lines(doc, lines),
                eol_of(crlf),
            )
        }),
{
    let kind = kind_of(c.text, lang);
    let doc = first_doc(c, lang, limit);
    let st = doc_stretches(doc, limit, tab_width);
    let d = after_first(c, brk, lang, limit, tab_width);
    let crlf = lemma_ending(c, lang, limit);
    lemma_body(doc, limit, tab_width);
    lemma_first_facts(c, brk, lang, limit, tab_width);
    if is_block(kind.style) {
        assert(d.text =~= emitted(c, lang, limit, tab_width));
        lemma_continues_behind_star(c, kind, lang, limit);
        lemma_opener_style(c.text);
        let m = block_marker_of(c.text)->0;
        lemma_lines_stay_open(doc, limit, tab_width);
        lemma_framed(doc, m, doc_lines(doc, limit, tab_width), limit, tab_width);
        assert(block_emitted(doc, d, m, crlf, limit, tab_width)) by {
            reveal(reflowed);
        }
        lemma_block_opens(doc, d, m, crlf, limit, tab_width);
    } else {
        assert(emitted(c, lang, limit, tab_width) == joined(
            line_comment_lines(doc, doc_lines(doc, limit, tab_width)),
            eol_of(crlf),
        )) by {
            reveal(reflowed);
        }
        let marker = line_marker_of(c.text)->0;
        lemma_plain_marker(c.text);
        lemma_marker_style(c.text);
        if st[0].kind != ParagraphKind::Preformatted {
            lemma_marker_kept(doc, d.text, marker, crlf, brk, limit, tab_width);
        }
        lemma_marker_style(d.text);
    }
    crlf
}

/// Output is stable: a second pass emits the same text again. This holds of every
/// style, of any number of paragraphs, of list items and tags with their hanging
/// indentation, of headers, of lines that keep their layout, of `Return` sentences
/// that were set apart, and of manual pages at the place they were moved to. The
/// emitted lines may group into other paragraphs than those they came from, as
/// long as each lies in one of them and wraps as it stands; nothing on them may be
/// decoration to take off, and no tag may be left to convert.
pub proof fn law_second_pass_changes_nothing(
    c: CommentText,
    brk: Seq<char>,
    lang: Language,
    limit: usize,
    tab_width: usize,
)
    requires
        stands_in_source(c),
        is_break(brk),
        is_block(style_of(c.text)) ==> brk.len() == 0,
        reads_as_emitted(c, brk, lang, limit, tab_width),
    ensures
        ({
            let d = after_first(c, brk, lang, limit, tab_width);
            &&& kind_of(d.text, lang) == kind_of(c.text, lang)
            &&& emitted(d, lang, limit, tab_width) == emitted(c, lang, limit, tab_width)
        }),
{
    let kind = kind_of(c.text, lang);
    let doc = first_doc(c, lang, limit);
    let d = after_first(c, brk, lang, limit, tab_width);
    lemma_first_facts(c, brk, lang, limit, tab_width);
    let crlf = lemma_emitted_forms(c, brk, lang, limit, tab_width);
    if is_block(kind.style) {
        let m = block_marker_of(c.text)->0;
        lemma_block_settles(doc, d, kind, lang, m, crlf, limit, tab_width);
    } else {
        let marker = line_marker_of(c.text)->0;
        lemma_line_comment_settles(doc, d, kind, lang, marker, crlf, brk, limit, tab_width);
    }
}

/// What a first pass emits ends in no line break.
pub proof fn lemma_emitted_ends(
    c: CommentText,
    brk: Seq<char>,
    lang: Language,
    limit: usize,
    tab_width: usize,
)
    requires
        stands_in_source(c),
        is_break(brk),
        is_block(style_of(c.text)) ==> brk.len() == 0,
        reads_as_emitted(c, brk, lang, limit, tab_width),
    ensures
        ({
            let text = emitted(c, lang, limit, tab_width);
            text.len() > 0 && text.last() != '\n' && text.last() != '\r'
        }),
{
    let doc = first_doc(c, lang, limit);
    let d = after_first(c, brk, lang, limit, tab_width);
    lemma_first_facts(c, brk, lang, limit, tab_width);
    let crlf = lemma_emitted_forms(c, brk, lang, limit, tab_width);
    if is_block(doc.style) {
        lemma_block_ends(doc, d, block_marker_of(c.text)->0, crlf, limit, tab_width);
    } else {
        lemma_line_ends(doc, d, line_marker_of(c.text)->0, crlf, brk, limit, tab_width);
    }
}

/// What the comment says of its first layout.
pub proof fn lemma_first_facts(
    c: CommentText,
    brk: Seq<char>,
    lang: Language,
    limit: usize,
    tab_width: usize,
)
    requires
        stands_in_source(c),
    ensures
        ({
            let kind = kind_of(c.text, lang);
            let doc = first_doc(c, lang, limit);
            let d = after_first(c, brk, lang, limit, tab_width);
            &&& doc.style == kind.style
            &&& doc.flavor == kind.flavor
            &&& doc.indent == d.line_indent_bytes
            &&& all_in(doc.indent, CharClass::Blank)
            &&& doc.lines == c.final_lines(kind, lang, limit)
            &&& doc.paragraphs == paragraphs_from(doc.lines, 0, false)
            &&& doc.line_marker == line_marker_of(c.text)
            &&& doc.block_opener_marker == block_marker_of(c.text)
            &&& doc.style == Style::Block ==> doc.is_file_header == d.at_file_start
            &&& !is_block(doc.style) ==> !doc.is_file_header
        }),
{
    reveal(CommentText::normalized);
}

} // verus!
