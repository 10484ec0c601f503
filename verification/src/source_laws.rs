//! Output is stable as a whole: a second run over a source changes nothing.

use crate::blank_form::{law_empty_comment_settles, settles_as_empty};
use crate::bytes::{lemma_encode_concat, lemma_source_ends, span};
use crate::classify::{kind_of, style_of};
use crate::comment::CommentText;
use crate::directive::{acsl_annotation, bare_cr, bare_cr_at};
use crate::final_form::{
    after_first, emitted, first_doc, is_no_page, is_page, law_second_pass_changes_nothing,
    lemma_emitted_ends, reads_as_emitted, stands_in_source,
};
use crate::language::Language;
use crate::laws::law_closer_split_is_final;
use crate::lines_before::lemma_no_carriage_return;
use crate::normalize::{closer_split, source_lines, DocText};
use crate::placement::new_text;
use crate::plan_laws::{law_settled_source_stays, lemma_nothing_planned};
use crate::planner::{
    closer_indent, closer_splices, comment_splices, found_comments, in_place_splices, keeps_style,
    moved_text, needs_blank, planned,
};
use crate::reflow::{comment_lines, first_paragraphs, is_block, paragraph_text, raw_lines, reflowed};
use crate::rewrite::{final_break, replacement_of, rewritten};
use crate::rows::{is_break, lemma_line_shape};
use crate::run_places::{
    comments_set, is_placed, lemma_around, lemma_in_front, lemma_no_blank_missing, new_front,
    new_rest, own_text, well_set,
};
use crate::settling::reads_again;
use crate::text::{
    all_in, any_in, in_class, joined, lemma_trail_len, lemma_trail_len_facts, trail_len, words_of,
    CharClass,
};
use crate::words::lemma_words_are_words;
use vstd::prelude::*;
use vstd::utf8::encode_utf8;

verus! {

/// A first pass replaces the comment's text.
pub open spec fn is_replaced(c: CommentText, lang: Language, limit: usize, tab_width: usize) -> bool {
    let kind = kind_of(c.text, lang);
    &&& c.param_shift is None
    &&& !c.left_alone(kind, lang, limit)
    &&& emitted(c, lang, limit, tab_width).len() > 0
    &&& keeps_style(emitted(c, lang, limit, tab_width), kind.style)
}

/// The comment's text as a first run leaves it.
pub open spec fn text_left(
    src: Seq<char>,
    c: CommentText,
    lang: Language,
    limit: usize,
    tab_width: usize,
) -> Seq<char> {
    if is_replaced(c, lang, limit, tab_width) {
        emitted(c, lang, limit, tab_width) + final_break(c.text)
    } else if c.left_alone(kind_of(c.text, lang), lang, limit) && is_block(style_of(c.text))
        && closer_indent(src, c, lang) is Some {
        match closer_split(c.text, closer_indent(src, c, lang)->0) {
            Some(text) => text,
            None => c.text,
        }
    } else {
        c.text
    }
}

/// `d` is `c` at another place, ahead of a function at another place where `c` stands
/// behind a signature.
pub open spec fn same_elsewhere(c: CommentText, d: CommentText) -> bool {
    &&& d == CommentText {
        start_byte: d.start_byte,
        end_byte: d.end_byte,
        start_col_byte: d.start_col_byte,
        relocate_before: d.relocate_before,
        ..c
    }
    &&& (d.relocate_before is Some) == (c.relocate_before is Some)
}

/// `d` is comment `c` of `src` as it stands in the rewritten source: at another
/// place, with the text that the run left. A parameter comment that moved stands
/// on one line behind its parameter, and a manual page ahead of its function. A
/// comment with a new text may read as one that another tool reads, and the line
/// ending of the file matters only where a comment on one line is laid out.
pub open spec fn carried(
    src: Seq<char>,
    c: CommentText,
    d: CommentText,
    lang: Language,
    limit: usize,
    tab_width: usize,
) -> bool {
    if c.param_shift is Some {
        &&& d.text == moved_text(c.text)
        &&& d.is_trailing
        &&& d.param_shift is None
        &&& d.relocate_before is None
    } else if is_replaced(c, lang, limit, tab_width) {
        let e = after_first(c, final_break(c.text), lang, limit, tab_width);
        same_elsewhere(
            CommentText {
                force_passthrough: d.force_passthrough,
                fallback_ending: if lang.is_c_like() {
                    e.fallback_ending
                } else {
                    d.fallback_ending
                },
                ..e
            },
            d,
        )
    } else {
        let text = text_left(src, c, lang, limit, tab_width);
        &&& is_page(c, lang, limit) ==> d.relocate_before == c.relocate_before
        &&& same_elsewhere(
            CommentText {
                force_passthrough: if text == c.text || c.force_passthrough {
                    c.force_passthrough
                } else {
                    d.force_passthrough
                },
                fallback_ending: if c.left_alone(kind_of(c.text, lang), lang, limit) {
                    d.fallback_ending
                } else {
                    c.fallback_ending
                },
                ..c.with_text(text)
            },
            d,
        )
    }
}

/// The comment is one that stands in a source, an annotation is pinned, and what a
/// first pass emits is no annotation and is left alone, read so that it goes out
/// again as it was emitted, or without text.
pub open spec fn stays_readable(
    c: CommentText,
    lang: Language,
    limit: usize,
    tab_width: usize,
) -> bool {
    &&& stands_in_source(c)
    &&& is_break(final_break(c.text))
    &&& is_block(style_of(c.text)) ==> final_break(c.text).len() == 0
    &&& acsl_annotation(c.text) ==> c.force_passthrough || c.param_shift is Some
    &&& is_replaced(c, lang, limit, tab_width) ==> !acsl_annotation(
        emitted(c, lang, limit, tab_width) + final_break(c.text),
    )
    &&& c.is_trailing && c.relocate_before is Some ==> is_replaced(c, lang, limit, tab_width)
    &&& is_replaced(c, lang, limit, tab_width) ==> {
        let d = after_first(c, final_break(c.text), lang, limit, tab_width);
        ||| d.left_alone(kind_of(d.text, lang), lang, limit)
        ||| reads_as_emitted(c, final_break(c.text), lang, limit, tab_width)
        ||| settles_as_empty(c, final_break(c.text), lang, limit, tab_width)
    }
}

/// The comment stands in the rewritten source as it should: with its own text and
/// no blank line missing above it where it was replaced, and with the carriage
/// returns that it had where it was not.
pub open spec fn stands_well(
    src: Seq<char>,
    c: CommentText,
    out: Seq<char>,
    d: CommentText,
    prev: Option<CommentText>,
    lang: Language,
    limit: usize,
    tab_width: usize,
) -> bool {
    &&& is_replaced(c, lang, limit, tab_width) ==> {
        &&& span(out, d.start_byte, d.end_byte) == d.text
        &&& !needs_blank(
            out,
            d,
            style_of(c.text),
            emitted(c, lang, limit, tab_width).contains('\n'),
            prev,
            lang,
        )
    }
    &&& !is_replaced(c, lang, limit, tab_width) && c.param_shift is None && d.text == c.text
        ==> bare_cr(encode_utf8(out), d.start_byte, d.end_byte) == bare_cr(
        encode_utf8(src),
        c.start_byte,
        c.end_byte,
    )
}

/// What a comment is depends on its text and surroundings, not on its place.
proof fn lemma_same_comment(a: CommentText, b: CommentText, lang: Language, limit: usize)
    requires
        same_elsewhere(a, b),
        a.relocate_before == b.relocate_before || !is_page(a, lang, limit),
    ensures
        b.left_alone(kind_of(b.text, lang), lang, limit) == a.left_alone(
            kind_of(a.text, lang),
            lang,
            limit,
        ),
        first_doc(b, lang, limit) == first_doc(a, lang, limit),
{
    reveal(CommentText::left_alone);
    reveal(CommentText::normalized);
    let kind = kind_of(a.text, lang);
    assert(a.plain_lines(kind) == b.plain_lines(kind));
    assert(a.body(kind, limit) == b.body(kind, limit));
    assert(a.page(kind, lang, limit) == b.page(kind, lang, limit));
    assert(a.final_lines(kind, lang, limit) == b.final_lines(kind, lang, limit));
}

/// `b` is `a` at another place, in a file with other line endings.
pub open spec fn same_but_ending(a: CommentText, b: CommentText) -> bool {
    same_elsewhere(CommentText { fallback_ending: b.fallback_ending, ..a }, b)
}

/// Whether a comment is left alone does not depend on the file's line endings.
proof fn lemma_same_left(a: CommentText, b: CommentText, lang: Language, limit: usize)
    requires
        same_but_ending(a, b),
    ensures
        b.left_alone(kind_of(b.text, lang), lang, limit) == a.left_alone(
            kind_of(a.text, lang),
            lang,
            limit,
        ),
{
    reveal(CommentText::left_alone);
    let kind = kind_of(a.text, lang);
    assert(a.plain_lines(kind) == b.plain_lines(kind));
    assert(a.body(kind, limit) == b.body(kind, limit));
    assert(a.page(kind, lang, limit) == b.page(kind, lang, limit));
}

/// A text that ends in no line break has the break that is put behind it.
proof fn lemma_final_break(text: Seq<char>, brk: Seq<char>)
    requires
        text.len() > 0,
        text.last() != '\n',
        text.last() != '\r',
        all_in(brk, CharClass::Two('\r', '\n')),
    ensures
        final_break(text + brk) == brk,
{
    let s = text + brk;
    let n = brk.len() as int;
    assert forall|i: int| s.len() - n <= i < s.len() implies in_class(
        #[trigger] s[i],
        CharClass::Two('\r', '\n'),
    ) by {
        assert(s[i] == brk[i - text.len()]);
    }
    assert(s[s.len() - n - 1] == text.last());
    lemma_trail_len(s, CharClass::Two('\r', '\n'), n);
    assert(final_break(s) =~= brk);
}

proof fn lemma_break_chars(text: Seq<char>)
    ensures
        all_in(final_break(text), CharClass::Two('\r', '\n')),
{
    lemma_trail_len_facts(text, CharClass::Two('\r', '\n'));
    let n = trail_len(text, CharClass::Two('\r', '\n')) as int;
    let b = final_break(text);
    assert forall|i: int| 0 <= i < b.len() implies in_class(
        #[trigger] b[i],
        CharClass::Two('\r', '\n'),
    ) by {
        assert(b[i] == text[text.len() - n + i]);
    }
}

/// A parameter comment that moved stays where it is.
proof fn lemma_moved_stays(
    out: Seq<char>,
    c: CommentText,
    d: CommentText,
    prev: Option<CommentText>,
    lang: Language,
    limit: usize,
    tab_width: usize,
)
    requires
        d.text == moved_text(c.text),
        d.is_trailing,
        d.param_shift is None,
        d.relocate_before is None,
    ensures
        comment_splices(out, d, prev, lang, limit, tab_width).len() == 0,
{
    reveal(comment_splices);
    reveal(closer_splices);
    reveal(CommentText::left_alone);
    lemma_moved_on_one_line(c.text);
    lemma_trail_len(d.text, CharClass::NotOne('\n'), d.text.len() as int);
}

/// A comment that moves is put on one line.
proof fn lemma_moved_on_one_line(text: Seq<char>)
    ensures
        all_in(moved_text(text), CharClass::NotOne('\n')),
{
    let t = moved_text(text);
    if any_in(text, CharClass::Two('\n', '\r')) {
        lemma_words_are_words(text);
        let words = words_of(text);
        if words.len() > 0 {
            lemma_line_shape(words, 0, words.len() as int);
            assert(words.subrange(0, words.len() as int) =~= words);
        }
    } else {
        assert forall|i: int| 0 <= i < t.len() implies in_class(
            #[trigger] t[i],
            CharClass::NotOne('\n'),
        ) by {
            if t[i] == '\n' {
                assert(in_class(text[i], CharClass::Two('\n', '\r')));
            }
        }
    }
}

/// A comment that is laid out as it stands is so whatever the line ending of its
/// file: on one line it has no use for one, and on several it has its own.
proof fn lemma_ending_free(
    e: CommentText,
    ending: Seq<char>,
    text: Seq<char>,
    brk: Seq<char>,
    lang: Language,
    limit: usize,
    tab_width: usize,
)
    requires
        !lang.is_c_like(),
        e.text == text + brk,
        emitted(e, lang, limit, tab_width) == text,
        text.len() > 0,
        text.last() != '\n',
        e.fallback_ending == "\n"@ || e.fallback_ending == "\r\n"@,
    ensures
        emitted(
            CommentText { fallback_ending: ending, ..e },
            lang,
            limit,
            tab_width,
        ) == text,
{
    reveal(reflowed);
    reveal(CommentText::normalized);
    reveal_strlit("\n");
    reveal_strlit("\r\n");
    let f = CommentText { fallback_ending: ending, ..e };
    let kind = kind_of(e.text, lang);
    let doc = first_doc(e, lang, limit);
    let other = first_doc(f, lang, limit);
    assert(e.plain_lines(kind) == f.plain_lines(kind));
    assert(e.body(kind, limit) == f.body(kind, limit));
    assert(e.final_lines(kind, lang, limit) == f.final_lines(kind, lang, limit));
    assert(other == DocText { fallback_ending: ending, ..doc });
    lemma_same_lines(doc, ending, limit, tab_width);
    let rows = comment_lines(doc, limit, tab_width);
    if doc.lines.len() <= 1 {
        if rows.len() == 1 {
            assert(joined(rows, doc.ending()) == joined(rows, other.ending()));
        } else if rows.len() > 1 {
            let k = lemma_break_inside(rows, doc.ending());
            lemma_two_lines(text, brk, k);
            assert(doc.lines.len() == source_lines(e.text).len());
        }
    }
}

/// Rows that are joined have a line feed between them.
proof fn lemma_break_inside(rows: Seq<Seq<char>>, sep: Seq<char>) -> (k: int)
    requires
        rows.len() > 1,
        sep == "\n"@ || sep == "\r\n"@,
    ensures
        0 <= k < joined(rows, sep).len(),
        joined(rows, sep)[k] == '\n',
{
    reveal_strlit("\n");
    reveal_strlit("\r\n");
    let tail = crate::block_settling::lemma_joined_front(rows, sep);
    let k = rows[0].len() + sep.len() - 1;
    assert(joined(rows, sep)[k] == sep[sep.len() - 1]);
    k
}

/// A text with a line feed inside has two lines.
pub proof fn lemma_two_lines(text: Seq<char>, brk: Seq<char>, k: int)
    requires
        0 <= k < text.len(),
        text[k] == '\n',
        text.last() != '\n',
    ensures
        source_lines(text + brk).len() >= 2,
{
    reveal_strlit("\n");
    let s = text + brk;
    let a = s.take(k);
    let b = s.skip(k + 1);
    assert(s =~= a + seq!['\n'] + b);
    crate::rows::lemma_split_apart(a, '\n', b);
    lemma_splits(a);
    lemma_splits(b);
    if crate::text::has_suffix(s, "\n"@) {
        assert(s.subrange(s.len() - 1, s.len() as int)[0] == '\n');
        assert(s.last() == '\n');
        assert(b.last() == '\n');
        let c = b.drop_last();
        let none = Seq::<char>::empty();
        assert(b =~= c + seq!['\n'] + none);
        crate::rows::lemma_split_apart(c, '\n', none);
        lemma_splits(c);
        lemma_splits(none);
    }
}

/// A text has a piece.
proof fn lemma_splits(s: Seq<char>)
    ensures
        crate::text::split_on(s, '\n').len() > 0,
{
}

/// The lines of a comment are laid out whatever the line ending of its file.
proof fn lemma_same_lines(doc: DocText, ending: Seq<char>, limit: usize, tab_width: usize)
    ensures
        comment_lines(DocText { fallback_ending: ending, ..doc }, limit, tab_width)
            == comment_lines(doc, limit, tab_width),
{
    let other = DocText { fallback_ending: ending, ..doc };
    let effective = crate::reflow::text_room(doc.prefix(), limit, tab_width);
    assert(other.prefix() == doc.prefix());
    lemma_same_paragraphs(
        doc,
        ending,
        doc.paragraphs.len() as int,
        doc.prefix(),
        effective,
        is_block(doc.style),
    );
    assert(other.has_blank_line() == doc.has_blank_line());
}

proof fn lemma_same_paragraphs(
    doc: DocText,
    ending: Seq<char>,
    n: int,
    prefix: Seq<char>,
    effective: usize,
    inline_opener: bool,
)
    ensures
        first_paragraphs(
            DocText { fallback_ending: ending, ..doc },
            n,
            prefix,
            effective,
            inline_opener,
        ) == first_paragraphs(doc, n, prefix, effective, inline_opener),
    decreases n,
{
    let other = DocText { fallback_ending: ending, ..doc };
    if n > 0 {
        lemma_same_paragraphs(doc, ending, n - 1, prefix, effective, inline_opener);
        let para = doc.paragraphs[n - 1];
        lemma_same_text(doc, ending, para.line_indices, para.line_indices.len() as int);
        assert(raw_lines(other, para, prefix, inline_opener) =~= raw_lines(
            doc,
            para,
            prefix,
            inline_opener,
        ));
    }
}

proof fn lemma_same_text(doc: DocText, ending: Seq<char>, lines: Seq<usize>, n: int)
    ensures
        paragraph_text(DocText { fallback_ending: ending, ..doc }, lines, n) == paragraph_text(
            doc,
            lines,
            n,
        ),
    decreases n,
{
    if n > 0 {
        lemma_same_text(doc, ending, lines, n - 1);
    }
}

/// A comment that was replaced is not replaced again.
proof fn lemma_replaced_stays(
    src: Seq<char>,
    c: CommentText,
    out: Seq<char>,
    d: CommentText,
    prev: Option<CommentText>,
    lang: Language,
    limit: usize,
    tab_width: usize,
)
    requires
        stays_readable(c, lang, limit, tab_width),
        carried(src, c, d, lang, limit, tab_width),
        stands_well(src, c, out, d, prev, lang, limit, tab_width),
        is_replaced(c, lang, limit, tab_width),
    ensures
        comment_splices(out, d, prev, lang, limit, tab_width).len() == 0,
{
    let brk = final_break(c.text);
    let text = emitted(c, lang, limit, tab_width);
    let e = after_first(c, brk, lang, limit, tab_width);
    if d.left_alone(kind_of(d.text, lang), lang, limit) {
        assert(!d.is_trailing) by {
            reveal(CommentText::left_alone);
        }
        assert(closer_indent(out, d, lang) is None);
        reveal(comment_splices);
        reveal(closer_splices);
    } else {
        assert(!d.force_passthrough && !e.force_passthrough) by {
            reveal(CommentText::left_alone);
        }
        lemma_same_left(e, d, lang, limit);
        let f = CommentText { fallback_ending: d.fallback_ending, ..e };
        assert(!is_page(e, lang, limit)) by {
            reveal(reads_again);
            if !settles_as_empty(c, brk, lang, limit, tab_width) {
                law_second_pass_changes_nothing(c, brk, lang, limit, tab_width);
            }
        }
        assert(!is_page(f, lang, limit)) by {
            assert(f.body(kind_of(f.text, lang), limit) == e.body(kind_of(e.text, lang), limit));
        }
        lemma_same_comment(f, d, lang, limit);
        if settles_as_empty(c, brk, lang, limit, tab_width) {
            law_empty_comment_settles(c, brk, lang, limit, tab_width);
        } else {
            law_second_pass_changes_nothing(c, brk, lang, limit, tab_width);
            lemma_emitted_ends(c, brk, lang, limit, tab_width);
        }
        if lang.is_c_like() {
            assert(f == e);
        } else {
            lemma_ending_free(e, d.fallback_ending, text, brk, lang, limit, tab_width);
        }
        assert(emitted(d, lang, limit, tab_width) == text);
        lemma_break_chars(c.text);
        lemma_final_break(text, brk);
        assert(replacement_of(d, text, out) is None);
        assert(style_of(d.text) == style_of(c.text));
        assert(!first_doc(e, lang, limit).manpage && !first_doc(f, lang, limit).manpage) by {
            reveal(reads_again);
            reveal(CommentText::normalized);
        }
        reveal(comment_splices);
        reveal(in_place_splices);
    }
}

/// A closer may move where it might before.
proof fn lemma_same_closer(
    src: Seq<char>,
    c: CommentText,
    out: Seq<char>,
    d: CommentText,
    lang: Language,
)
    requires
        same_but_ending(c, d),
        bare_cr(encode_utf8(out), d.start_byte, d.end_byte) == bare_cr(
            encode_utf8(src),
            c.start_byte,
            c.end_byte,
        ),
    ensures
        closer_indent(out, d, lang) == closer_indent(src, c, lang),
{
}

/// A comment that kept its text keeps it again, and a closer that moved stays.
proof fn lemma_kept_stays(
    src: Seq<char>,
    c: CommentText,
    out: Seq<char>,
    d: CommentText,
    prev: Option<CommentText>,
    lang: Language,
    limit: usize,
    tab_width: usize,
)
    requires
        stays_readable(c, lang, limit, tab_width),
        carried(src, c, d, lang, limit, tab_width),
        stands_well(src, c, out, d, prev, lang, limit, tab_width),
        !is_replaced(c, lang, limit, tab_width),
        c.param_shift is None,
    ensures
        comment_splices(out, d, prev, lang, limit, tab_width).len() == 0,
{
    reveal_strlit(" ");
    let kind = kind_of(c.text, lang);
    if d.text == c.text {
        lemma_same_left(c, d, lang, limit);
        lemma_same_closer(src, c, out, d, lang);
        if c.left_alone(kind, lang, limit) {
            reveal(comment_splices);
            reveal(closer_splices);
            if is_block(style_of(c.text)) && closer_indent(src, c, lang) is Some {
                let indent = closer_indent(src, c, lang)->0;
                if closer_split(c.text, indent) is Some {
                    lemma_closer_settled(c, indent);
                }
            }
        } else {
            lemma_same_comment(c, d, lang, limit);
            reveal(comment_splices);
            reveal(in_place_splices);
            let none = Seq::<char>::empty();
            assert(!none.contains('\n'));
            if emitted(c, lang, limit, tab_width).len() == 0 {
                assert(emitted(c, lang, limit, tab_width) =~= none);
            }
        }
    } else {
        let indent = closer_indent(src, c, lang)->0;
        assert(d.text == closer_split(c.text, indent)->0);
        assert(d.left_alone(kind_of(d.text, lang), lang, limit)) by {
            reveal(CommentText::left_alone);
        }
        reveal(comment_splices);
        reveal(closer_splices);
        if closer_indent(out, d, lang) is Some {
            lemma_closer_again(c, indent, closer_indent(out, d, lang)->0);
        }
    }
}

/// A closer that moved stays.
proof fn lemma_closer_again(
    c: CommentText,
    indent: Option<Seq<char>>,
    again: Option<Seq<char>>,
)
    requires
        stands_in_source(c),
        indent is Some ==> indent->0 == c.line_indent_bytes + " "@,
        closer_split(c.text, indent) is Some,
    ensures
        closer_split(closer_split(c.text, indent)->0, again) is None,
{
    reveal_strlit(" ");
    assert(indent is Some ==> all_in(indent->0, CharClass::Blank)) by {
        if indent is Some {
            let s = c.line_indent_bytes + " "@;
            assert forall|i: int| 0 <= i < s.len() implies in_class(
                #[trigger] s[i],
                CharClass::Blank,
            ) by {
                if i < c.line_indent_bytes.len() {
                    assert(s[i] == c.line_indent_bytes[i]);
                }
            }
        }
    }
    law_closer_split_is_final(c.text, indent, again);
}

/// A closer that is where it should be is not split off.
pub proof fn lemma_closer_settled(c: CommentText, indent: Option<Seq<char>>)
    requires
        stands_in_source(c),
        indent is Some ==> indent->0 == c.line_indent_bytes + " "@,
    ensures
        closer_split(c.text, indent) != Some(c.text),
{
    if closer_split(c.text, indent) == Some(c.text) {
        lemma_closer_again(c, indent, indent);
    }
}

/// Comment `i` of the rewritten source is comment `i` of the source, as the run
/// left it, and stands well.
pub open spec fn comment_settles(
    src: Seq<char>,
    comments: Seq<CommentText>,
    out: Seq<char>,
    found: Seq<CommentText>,
    i: int,
    lang: Language,
    limit: usize,
    tab_width: usize,
) -> bool {
    let c = comments[i];
    let d = found[i];
    let prev = if i > 0 {
        Some(found[i - 1])
    } else {
        None
    };
    &&& stays_readable(c, lang, limit, tab_width)
    &&& carried(src, c, d, lang, limit, tab_width)
    &&& stands_well(src, c, out, d, prev, lang, limit, tab_width)
}

/// A source is settled when its comments are those of a source that a first run
/// was made on, as the run left them: nothing is planned for it.
pub proof fn law_settled_comments_settle_the_source(
    src: Seq<char>,
    comments: Seq<CommentText>,
    out: Seq<char>,
    found: Seq<CommentText>,
    lang: Language,
    limit: usize,
    tab_width: usize,
)
    requires
        found.len() == comments.len(),
        forall|i: int|
            0 <= i < comments.len() ==> #[trigger] comment_settles(
                src,
                comments,
                out,
                found,
                i,
                lang,
                limit,
                tab_width,
            ),
    ensures
        planned(out, found, lang, limit, tab_width).len() == 0,
        rewritten(out, planned(out, found, lang, limit, tab_width)) == out,
{
    assert forall|i: int| 0 <= i < found.len() implies comment_splices(
        out,
        #[trigger] found[i],
        if i > 0 {
            Some(found[i - 1])
        } else {
            None
        },
        lang,
        limit,
        tab_width,
    ).len() == 0 by {
        assert(comment_settles(src, comments, out, found, i, lang, limit, tab_width));
        let c = comments[i];
        let d = found[i];
        let prev = if i > 0 {
            Some(found[i - 1])
        } else {
            None
        };
        if c.param_shift is Some {
            lemma_moved_stays(out, c, d, prev, lang, limit, tab_width);
        } else if is_replaced(c, lang, limit, tab_width) {
            lemma_replaced_stays(src, c, out, d, prev, lang, limit, tab_width);
        } else {
            lemma_kept_stays(src, c, out, d, prev, lang, limit, tab_width);
        }
    }
    lemma_nothing_planned(out, found, found.len() as int, lang, limit, tab_width);
    law_settled_source_stays(out, found, lang, limit, tab_width);
}

/// The source that a run leaves.
pub open spec fn after_run(src: Seq<char>, lang: Language, limit: usize, tab_width: usize) -> Seq<
    char,
> {
    rewritten(src, planned(src, found_comments(src, lang), lang, limit, tab_width))
}

/// Comment `i` of the rewritten source is comment `i` of the source, as the run
/// left it and where the run put it.
pub open spec fn found_again(
    src: Seq<char>,
    comments: Seq<CommentText>,
    found: Seq<CommentText>,
    i: int,
    lang: Language,
    limit: usize,
    tab_width: usize,
) -> bool {
    &&& carried(src, comments[i], found[i], lang, limit, tab_width)
    &&& is_placed(src, comments, i, found[i], lang, limit, tab_width)
}

/// A comment's text is its stretch of the source, but for a run of blocks that were
/// joined, and what is emitted for it can be read again.
pub open spec fn is_ready(
    src: Seq<char>,
    c: CommentText,
    lang: Language,
    limit: usize,
    tab_width: usize,
) -> bool {
    &&& stays_readable(c, lang, limit, tab_width)
    &&& final_break(own_text(src, c)) == final_break(c.text)
    &&& !is_replaced(c, lang, limit, tab_width) && c.left_alone(
        kind_of(c.text, lang),
        lang,
        limit,
    ) ==> c.text == own_text(src, c)
}

/// Output is stable, for given comments: running twice gives what running once
/// gives. That the comments stand in the rewritten source with their new text, and
/// that no blank line is missing above them, follows from the rewriting. No comment
/// is one that moves.
pub proof fn law_second_run_of_comments(
    src: Seq<char>,
    comments: Seq<CommentText>,
    found: Seq<CommentText>,
    lang: Language,
    limit: usize,
    tab_width: usize,
)
    requires
        comments_set(src, comments, lang, limit, tab_width),
        forall|i: int|
            0 <= i < comments.len() ==> is_ready(
                src,
                #[trigger] comments[i],
                lang,
                limit,
                tab_width,
            ),
        found.len() == comments.len(),
        forall|i: int|
            0 <= i < comments.len() ==> #[trigger] found_again(
                src,
                comments,
                found,
                i,
                lang,
                limit,
                tab_width,
            ),
    ensures
        ({
            let out = rewritten(src, planned(src, comments, lang, limit, tab_width));
            &&& planned(out, found, lang, limit, tab_width).len() == 0
            &&& rewritten(out, planned(out, found, lang, limit, tab_width)) == out
        }),
{
    let out = rewritten(src, planned(src, comments, lang, limit, tab_width));
    assert forall|i: int| 0 <= i < comments.len() implies #[trigger] comment_settles(
        src,
        comments,
        out,
        found,
        i,
        lang,
        limit,
        tab_width,
    ) by {
        lemma_found_settles(src, comments, found, i, lang, limit, tab_width);
    }
    law_settled_comments_settle_the_source(src, comments, out, found, lang, limit, tab_width);
}

/// A comment that is found again stands well.
proof fn lemma_found_settles(
    src: Seq<char>,
    comments: Seq<CommentText>,
    found: Seq<CommentText>,
    i: int,
    lang: Language,
    limit: usize,
    tab_width: usize,
)
    requires
        comments_set(src, comments, lang, limit, tab_width),
        forall|i: int|
            0 <= i < comments.len() ==> is_ready(
                src,
                #[trigger] comments[i],
                lang,
                limit,
                tab_width,
            ),
        found.len() == comments.len(),
        forall|i: int|
            0 <= i < comments.len() ==> #[trigger] found_again(
                src,
                comments,
                found,
                i,
                lang,
                limit,
                tab_width,
            ),
        0 <= i < comments.len(),
    ensures
        comment_settles(
            src,
            comments,
            rewritten(src, planned(src, comments, lang, limit, tab_width)),
            found,
            i,
            lang,
            limit,
            tab_width,
        ),
{
    let out = rewritten(src, planned(src, comments, lang, limit, tab_width));
    let c = comments[i];
    let d = found[i];
    assert(is_ready(src, comments[i], lang, limit, tab_width));
    assert(found_again(src, comments, found, i, lang, limit, tab_width));
    assert(well_set(src, comments, i, lang, limit, tab_width));
    if i > 0 {
        assert(found_again(src, comments, found, i - 1, lang, limit, tab_width));
    }
    lemma_around(src, comments, i, lang, limit, tab_width);
    assert(!is_page(c, lang, limit)) by {
        reveal(is_no_page);
    }
    if is_replaced(c, lang, limit, tab_width) {
        lemma_no_blank_missing(src, comments, found, i, lang, limit, tab_width);
    }
    if !is_replaced(c, lang, limit, tab_width) && d.text == c.text {
        lemma_same_returns(src, comments, i, d, lang, limit, tab_width);
    }
}

/// The carriage returns of a text that keeps its bytes.
proof fn lemma_same_returns(
    src: Seq<char>,
    comments: Seq<CommentText>,
    i: int,
    d: CommentText,
    lang: Language,
    limit: usize,
    tab_width: usize,
)
    requires
        comments_set(src, comments, lang, limit, tab_width),
        0 <= i < comments.len(),
        is_ready(src, comments[i], lang, limit, tab_width),
        carried(src, comments[i], d, lang, limit, tab_width),
        is_placed(src, comments, i, d, lang, limit, tab_width),
        d.text == comments[i].text,
        !is_replaced(comments[i], lang, limit, tab_width),
    ensures
        bare_cr(
            encode_utf8(rewritten(src, planned(src, comments, lang, limit, tab_width))),
            d.start_byte,
            d.end_byte,
        ) == bare_cr(encode_utf8(src), comments[i].start_byte, comments[i].end_byte),
{
    let c = comments[i];
    let out = rewritten(src, planned(src, comments, lang, limit, tab_width));
    let own = own_text(src, c);
    let a = new_front(src, comments, i, lang, limit, tab_width);
    let t = new_text(src, c, lang, limit, tab_width);
    let z = new_rest(src, comments, i + 1, lang, limit, tab_width);
    assert(well_set(src, comments, i, lang, limit, tab_width));
    lemma_around(src, comments, i, lang, limit, tab_width);
    lemma_source_ends(src);
    let len = encode_utf8(src).len() as int;
    let before = span(src, 0, c.start_byte);
    let after = span(src, c.end_byte, len);
    lemma_in_front(src, comments, i, lang, limit, tab_width);
    assert(before + own + after == src);
    lemma_encode_concat(before, own);
    lemma_encode_concat(a, t);
    assert(t == own) by {
        if closer_indent(src, c, lang) is Some {
            lemma_closer_settled(c, closer_indent(src, c, lang)->0);
        }
    }
    lemma_returns_inside(a, own, z);
    lemma_returns_inside(before, own, after);
}

/// Carriage returns inside a text that does not end in one.
pub proof fn lemma_returns_inside(a: Seq<char>, t: Seq<char>, z: Seq<char>)
    requires
        t.len() > 0,
        t.last() != '\r',
    ensures
        bare_cr(
            encode_utf8(a + t + z),
            encode_utf8(a).len() as int,
            encode_utf8(a + t).len() as int,
        ) == bare_cr(encode_utf8(t), 0, encode_utf8(t).len() as int),
{
    let n = encode_utf8(a).len() as int;
    let b = encode_utf8(t);
    lemma_encode_concat(a, t);
    lemma_encode_concat(a + t, z);
    lemma_no_carriage_return(t);
    let all = encode_utf8(a + t + z);
    assert forall|i: int| 0 <= i < b.len() implies #[trigger] bare_cr_at(b, i) == bare_cr_at(
        all,
        n + i,
    ) by {
        assert(all[n + i] == b[i]);
        if i + 1 < b.len() {
            assert(all[n + i + 1] == b[i + 1]);
        } else {
            assert(b[i] == b.last());
        }
    }
    if bare_cr(b, 0, b.len() as int) {
        let i = choose|i: int| 0 <= i < b.len() && #[trigger] bare_cr_at(b, i);
        assert(bare_cr_at(all, n + i));
    }
    if bare_cr(all, n, n + b.len()) {
        let i = choose|i: int| n <= i < n + b.len() && #[trigger] bare_cr_at(all, i);
        assert(bare_cr_at(b, i - n) == bare_cr_at(all, n + (i - n)));
    }
}

/// Output is stable where no comment moves: running twice gives what running once
/// gives, if each comment can be read again as it is emitted and the parser finds in
/// what the first run leaves the comments of the source, with their new texts and
/// where the run put them.
pub proof fn law_second_run_without_moves(
    src: Seq<char>,
    lang: Language,
    limit: usize,
    tab_width: usize,
)
    requires
        ({
            let comments = found_comments(src, lang);
            let found = found_comments(after_run(src, lang, limit, tab_width), lang);
            &&& comments_set(src, comments, lang, limit, tab_width)
            &&& forall|i: int|
                0 <= i < comments.len() ==> is_ready(
                    src,
                    #[trigger] comments[i],
                    lang,
                    limit,
                    tab_width,
                )
            &&& found.len() == comments.len()
            &&& forall|i: int|
                0 <= i < comments.len() ==> #[trigger] found_again(
                    src,
                    comments,
                    found,
                    i,
                    lang,
                    limit,
                    tab_width,
                )
        }),
    ensures
        ({
            let out = after_run(src, lang, limit, tab_width);
            &&& planned(out, found_comments(out, lang), lang, limit, tab_width).len() == 0
            &&& after_run(out, lang, limit, tab_width) == out
        }),
{
    let out = after_run(src, lang, limit, tab_width);
    law_second_run_of_comments(
        src,
        found_comments(src, lang),
        found_comments(out, lang),
        lang,
        limit,
        tab_width,
    );
}

} // verus!
