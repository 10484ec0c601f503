//! That a comment keeps its style wherever it is put.

use crate::bytes::{line_start, span};
use crate::classify::{kind_of, style_of, DocFlavor};
use crate::comment::CommentText;
use crate::final_form::{
    emitted, first_doc, lemma_first_facts, lemma_plain_marker, stands_in_source,
};
use crate::language::Language;
use crate::normalize::{
    closer_split, last_line, line_marker_of, DocText, ParagraphKind, ParagraphText,
};
use crate::plan_laws::{law_moved_comment_keeps_words, lemma_white_break};
use crate::planner::well_formed_block;
use crate::planner::{
    blank_lead, closer_indent, closer_splices, comment_splices, in_place_splices, moved_text,
    needs_blank, page_splices, shift_splices,
};
use crate::reflow::{
    body_lines, first_paragraphs, is_block, line_comment_lines, paragraph_lines, piece_hang,
    piece_lines, prose_body, reflowed, text_room,
};
use crate::rewrite::{final_break, replacement_of};
use crate::rows::plain_marker;
use crate::settling::{lemma_bare, lemma_line_prefix, lemma_paragraph_rows};
use crate::text::{
    all_in, any_in, has_prefix, has_text, in_class, is_white, joined, lead_len, lemma_lead_len,
    lemma_lead_len_facts, lemma_trail_len, lemma_trail_len_facts, sub_at, trail_len, trimmed,
    trimmed_end, words_of, CharClass,
};
use crate::textline::return_pieces;
use crate::words::{
    all_words, lemma_no_words, lemma_words_apart, lemma_words_are_words, lemma_words_trimmed,
};
use crate::wrap::wrapped_lines;
use vstd::prelude::*;
use vstd::utf8::encode_utf8;

verus! {

/// The text that goes in for a comment, without what sets it off.
pub open spec fn put_text(
    src: Seq<char>,
    c: CommentText,
    lang: Language,
    limit: usize,
    tab_width: usize,
) -> Seq<char> {
    let kind = kind_of(c.text, lang);
    if c.param_shift is Some {
        moved_text(c.text)
    } else if c.left_alone(kind, lang, limit) {
        closer_split(c.text, closer_indent(src, c, lang)->0)->0
    } else {
        reflowed(c.normalized(kind, lang, limit), limit, tab_width)
    }
}

/// `s` is `put` between white space.
pub open spec fn set_off(s: Seq<char>, put: Seq<char>) -> bool {
    exists|lead: Seq<char>, tail: Seq<char>|
        #![auto]
        s == lead + put + tail && all_in(lead, CharClass::White) && all_in(tail, CharClass::White)
}

/// The style of a text is that of its first word.
pub proof fn lemma_style_of_word(s: Seq<char>)
    requires
        s.len() > 0,
        !is_white(s[0]),
    ensures
        words_of(s).len() > 0,
        style_of(s) == style_of(words_of(s)[0]),
        words_of(s)[0][0] == s[0],
{
    reveal_strlit("///");
    reveal_strlit("//!");
    reveal_strlit("/**");
    reveal_strlit("/*!");
    reveal_strlit("/*");
    let n = lead_len(s, CharClass::Solid) as int;
    lemma_lead_len_facts(s, CharClass::Solid);
    lemma_lead_len_facts(s, CharClass::White);
    assert(crate::text::trimmed_start(s) =~= s);
    let w = s.take(n);
    assert(words_of(s)[0] == w);
    assert(n > 0);
    assert(n < s.len() ==> is_white(s[n]));
    assert forall|p: Seq<char>|
        p.len() <= 3 && (forall|i: int| 0 <= i < p.len() ==> !is_white(#[trigger] p[i])) implies
        #[trigger] has_prefix(w, p) == has_prefix(s, p) by {
        if has_prefix(s, p) {
            assert(s.take(p.len() as int) == p);
            if n < p.len() {
                assert(p[n] == s[n]);
            }
            assert(w.take(p.len() as int) =~= p);
        }
        if has_prefix(w, p) {
            assert(s.take(p.len() as int) =~= w.take(p.len() as int));
        }
    }
    assert(has_prefix(w, "///"@) == has_prefix(s, "///"@));
    assert(has_prefix(w, "//!"@) == has_prefix(s, "//!"@));
    assert(has_prefix(w, "/**"@) == has_prefix(s, "/**"@));
    assert(has_prefix(w, "/*!"@) == has_prefix(s, "/*!"@));
    assert(has_prefix(w, "/*"@) == has_prefix(s, "/*"@));
    if has_prefix(s, "/**"@) {
        if s.len() > 3 && n > 3 {
            assert(s.skip(3)[0] == w.skip(3)[0]);
        }
        if s.len() > 3 {
            assert(s.skip(3)[0] == s[3]);
        }
    }
}

/// What sets a text off adds no word.
pub proof fn lemma_set_off_words(s: Seq<char>, put: Seq<char>)
    requires
        set_off(s, put),
    ensures
        words_of(s) == words_of(put),
{
    let (lead, tail) = choose|lead: Seq<char>, tail: Seq<char>|
        #![auto]
        s == lead + put + tail && all_in(lead, CharClass::White) && all_in(tail, CharClass::White);
    if tail.len() > 0 {
        assert(in_class(tail[0], CharClass::White));
        lemma_words_apart(put, tail[0], tail.skip(1));
        assert(put + seq![tail[0]] + tail.skip(1) =~= put + tail);
        assert(all_in(tail.skip(1), CharClass::White)) by {
            assert forall|i: int| 0 <= i < tail.skip(1).len() implies in_class(
                #[trigger] tail.skip(1)[i],
                CharClass::White,
            ) by {
                assert(in_class(tail[i + 1], CharClass::White));
            }
        }
        lemma_no_words(tail.skip(1));
        assert(words_of(put + tail) =~= words_of(put));
    } else {
        assert(put + tail =~= put);
    }
    if lead.len() > 0 {
        let front = lead.drop_last();
        assert(in_class(lead[lead.len() - 1], CharClass::White));
        lemma_words_apart(front, lead.last(), put + tail);
        assert(front + seq![lead.last()] + (put + tail) =~= s);
        assert(all_in(front, CharClass::White)) by {
            assert forall|i: int| 0 <= i < front.len() implies in_class(
                #[trigger] front[i],
                CharClass::White,
            ) by {
                assert(in_class(lead[i], CharClass::White));
            }
        }
        lemma_no_words(front);
        assert(words_of(s) =~= words_of(put + tail));
    } else {
        assert(s =~= put + tail);
    }
}

/// A comment on one line has the style it had.
proof fn lemma_moved_style(text: Seq<char>)
    requires
        text.len() > 0,
        !is_white(text[0]),
    ensures
        style_of(moved_text(text)) == style_of(text),
{
    let t = moved_text(text);
    if any_in(text, CharClass::Two('\n', '\r')) {
        lemma_style_of_word(text);
        law_moved_comment_keeps_words(text);
        let ws = words_of(text);
        lemma_words_are_words(text);
        crate::rows::lemma_joined_opens(ws, " "@);
        assert(t.take(ws[0].len() as int)[0] == t[0]);
        assert(t[0] == ws[0][0]);
        lemma_style_of_word(t);
    }
}

/// A block whose closer moves has the style it had.
proof fn lemma_split_style(text: Seq<char>, indent: Option<Seq<char>>)
    requires
        text.len() > 0,
        !is_white(text[0]),
        closer_split(text, indent) is Some,
    ensures
        style_of(closer_split(text, indent)->0) == style_of(text),
{
    let (above, last) = last_line(text)->0;
    let r = closer_split(text, indent)->0;
    let n = trail_len(text, CharClass::NotOne('\n')) as int;
    lemma_trail_len_facts(text, CharClass::NotOne('\n'));
    let front = above.drop_last();
    assert(above.last() == '\n');
    assert(above[0] == text[0]);
    assert(front.len() > 0 && front[0] == text[0]);
    let rest = r.skip(above.len() as int);
    assert(front + seq!['\n'] + rest =~= r);
    assert(front + seq!['\n'] + last =~= text);
    lemma_words_apart(front, '\n', rest);
    lemma_words_apart(front, '\n', last);
    lemma_style_of_word(front);
    lemma_style_of_word(text);
    lemma_style_of_word(r);
    assert(words_of(r)[0] == words_of(front)[0]);
    assert(words_of(text)[0] == words_of(front)[0]);
}

/// The lead of a comment that gets a blank line is white space.
proof fn lemma_lead_white(src: Seq<char>, c: CommentText)
    requires
        all_in(span(src, line_start(encode_utf8(src), c.start_byte), c.start_byte), CharClass::White),
    ensures
        all_in(blank_lead(src, c), CharClass::White),
{
    reveal_strlit("\n");
    reveal_strlit("\r\n");
    let b = encode_utf8(src);
    let own = span(src, line_start(b, c.start_byte), c.start_byte);
    let lead = blank_lead(src, c);
    let m = lead.len() - own.len();
    assert forall|i: int| 0 <= i < lead.len() implies in_class(
        #[trigger] lead[i],
        CharClass::White,
    ) by {
        if i >= m {
            assert(lead[i] == own[i - m]);
            assert(in_class(own[i - m], CharClass::White));
        }
    }
}

/// A comment in its own style, set off by white space, is what every replacement
/// that has text puts in.
proof fn lemma_what_is_put(
    src: Seq<char>,
    c: CommentText,
    prev: Option<CommentText>,
    lang: Language,
    limit: usize,
    tab_width: usize,
    k: int,
)
    requires
        c.text.len() > 0,
        !is_white(c.text[0]),
        all_in(c.fallback_ending, CharClass::White),
        !c.is_trailing ==> all_in(
            span(src, line_start(encode_utf8(src), c.start_byte), c.start_byte),
            CharClass::White,
        ),
        0 <= k < comment_splices(src, c, prev, lang, limit, tab_width).len(),
        comment_splices(src, c, prev, lang, limit, tab_width)[k].text.len() > 0,
    ensures
        ({
            let put = put_text(src, c, lang, limit, tab_width);
            &&& put.len() > 0
            &&& set_off(comment_splices(src, c, prev, lang, limit, tab_width)[k].text, put)
            &&& style_of(put) == style_of(c.text)
        }),
{
    reveal(comment_splices);
    reveal(shift_splices);
    reveal(closer_splices);
    reveal(in_place_splices);
    reveal(page_splices);
    reveal_strlit(" ");
    let kind = kind_of(c.text, lang);
    let s = comment_splices(src, c, prev, lang, limit, tab_width)[k].text;
    let put = put_text(src, c, lang, limit, tab_width);
    let own = span(src, c.start_byte, c.end_byte);
    let nothing = Seq::<char>::empty();
    lemma_white_break(own);
    if c.param_shift is Some {
        lemma_moved_style(c.text);
        assert(s == " "@ + put);
        assert(s =~= " "@ + put + nothing);
        lemma_style_of_word(c.text);
        law_moved_comment_keeps_words(c.text);
        if put.len() == 0 {
            lemma_no_words(put);
        }
    } else if c.left_alone(kind, lang, limit) {
        let indent = closer_indent(src, c, lang)->0;
        lemma_split_style(c.text, indent);
        assert(s =~= nothing + put + final_break(own));
    } else {
        let doc = c.normalized(kind, lang, limit);
        if doc.manpage && c.relocate_before is Some && put.len() > 0 {
            let nl = c.fallback_ending;
            let lead = if crate::planner::blank_above(encode_utf8(src), c.relocate_before->0 as int) {
                nothing
            } else {
                nl
            };
            let tail = nl + nl;
            assert(all_in(tail, CharClass::White)) by {
                assert forall|i: int| 0 <= i < tail.len() implies in_class(
                    #[trigger] tail[i],
                    CharClass::White,
                ) by {
                    let j = if i < nl.len() { i } else { i - nl.len() };
                    assert(in_class(nl[j], CharClass::White));
                }
            }
            assert(s =~= lead + put + tail);
        } else {
            let style = style_of(c.text);
            let blank = needs_blank(src, c, style, put.contains('\n'), prev, lang);
            if blank {
                assert(put.contains('\n'));
                lemma_lead_white(src, c);
                assert(s =~= blank_lead(src, c) + put + final_break(own));
            } else {
                assert(replacement_of(c, put, src) is Some);
                assert(s =~= nothing + put + final_break(own));
            }
        }
    }
}

/// The style of a comment is preserved, wherever it is put: what goes in for it,
/// on its place or on another, is a comment of the same style between white
/// space.
pub proof fn law_style_is_preserved(
    src: Seq<char>,
    c: CommentText,
    prev: Option<CommentText>,
    lang: Language,
    limit: usize,
    tab_width: usize,
    k: int,
)
    requires
        c.text.len() > 0,
        !is_white(c.text[0]),
        all_in(c.fallback_ending, CharClass::White),
        !c.is_trailing ==> all_in(
            span(src, line_start(encode_utf8(src), c.start_byte), c.start_byte),
            CharClass::White,
        ),
        0 <= k < comment_splices(src, c, prev, lang, limit, tab_width).len(),
        comment_splices(src, c, prev, lang, limit, tab_width)[k].text.len() > 0,
    ensures
        ({
            let text = comment_splices(src, c, prev, lang, limit, tab_width)[k].text;
            let put = put_text(src, c, lang, limit, tab_width);
            &&& put.len() > 0
            &&& set_off(text, put)
            &&& style_of(put) == style_of(c.text)
            &&& !is_white(put[0]) ==> style_of(trimmed(text)) == style_of(c.text)
            &&& is_block(style_of(c.text)) ==> !is_white(put[0])
        }),
{
    let text = comment_splices(src, c, prev, lang, limit, tab_width)[k].text;
    let put = put_text(src, c, lang, limit, tab_width);
    lemma_what_is_put(src, c, prev, lang, limit, tab_width, k);
    if is_block(style_of(c.text)) {
        reveal_strlit("/**");
        reveal_strlit("/*!");
        reveal_strlit("/*");
        let n = if has_prefix(put, "/**"@) || has_prefix(put, "/*!"@) {
            3int
        } else {
            2int
        };
        assert(put.take(n)[0] == put[0]);
        assert(put[0] == '/');
    }
    if !is_white(put[0]) {
        lemma_set_off_words(text, put);
        lemma_style_of_word(put);
        lemma_words_trimmed(text);
        let t = trimmed(text);
        lemma_starts_solid(text);
        lemma_style_of_word(t);
    }
}

/// What is left of a text with words starts with one.
proof fn lemma_starts_solid(s: Seq<char>)
    requires
        words_of(s).len() > 0,
    ensures
        trimmed(s).len() > 0,
        !is_white(trimmed(s)[0]),
{
    let t = crate::text::trimmed_start(s);
    lemma_lead_len_facts(s, CharClass::White);
    lemma_trail_len_facts(t, CharClass::White);
    lemma_words_trimmed(s);
    if trimmed(s).len() == 0 {
        lemma_no_words(trimmed(s));
    }
}

/// The row starts with no white space behind the indentation.
pub open spec fn opens_solid(row: Seq<char>, indent: Seq<char>) -> bool {
    let l = if has_prefix(row, indent) {
        row.skip(indent.len() as int)
    } else {
        row
    };
    l.len() > 0 && !is_white(l[0])
}

/// A row behind the indentation and a marker starts with that marker.
proof fn lemma_marker_opens(row: Seq<char>, indent: Seq<char>, m: Seq<char>)
    requires
        m.len() > 0,
        !is_white(m[0]),
        has_prefix(row, indent + m),
    ensures
        opens_solid(row, indent),
{
    let n = indent.len() as int;
    let both = indent + m;
    assert(row.subrange(0, both.len() as int) == both);
    assert(row.subrange(0, n) =~= both.subrange(0, n)) by {
        assert forall|i: int| 0 <= i < n implies row[i] == both[i] by {
            assert(row.subrange(0, both.len() as int)[i] == both[i]);
        }
    }
    assert(both.subrange(0, n) =~= indent);
    assert(row[n] == row.subrange(0, both.len() as int)[n]);
    assert(row[n] == m[0]);
}

/// Trimming what stands behind a prefix leaves the marker.
proof fn lemma_trimmed_opens(indent: Seq<char>, m: Seq<char>, s: Seq<char>)
    requires
        m.len() > 0,
        !is_white(m.last()),
    ensures
        has_prefix(trimmed_end(indent + m + s), indent + m),
{
    let all = indent + m + s;
    let both = indent + m;
    lemma_trail_len_facts(all, CharClass::White);
    let row = trimmed_end(all);
    if row.len() < both.len() {
        assert(all[both.len() - 1] == m.last());
        assert(in_class(all[both.len() - 1], CharClass::White));
    }
    assert(row.subrange(0, both.len() as int) =~= both);
}

/// The lines of prose start with the prefix.
proof fn lemma_prose_opens(
    pieces: Seq<Seq<char>>,
    n: int,
    indent: Seq<char>,
    m: Seq<char>,
    effective: usize,
    flavor: DocFlavor,
    k: int,
)
    requires
        m.len() > 0,
        m.last() != ' ',
        !is_white(m[0]),
        0 <= k < piece_lines(pieces, n, indent + m + " "@, effective, flavor).len(),
    ensures
        opens_solid(piece_lines(pieces, n, indent + m + " "@, effective, flavor)[k], indent),
    decreases n,
{
    reveal_strlit(" ");
    let prefix = indent + m + " "@;
    let both = indent + m;
    let head = piece_lines(pieces, n - 1, prefix, effective, flavor);
    let row = piece_lines(pieces, n, prefix, effective, flavor)[k];
    let gap = if n > 1 {
        1int
    } else {
        0int
    };
    lemma_bare(both);
    if k < head.len() {
        lemma_prose_opens(pieces, n - 1, indent, m, effective, flavor, k);
    } else if k < head.len() + gap {
        assert(row == both);
        assert(row.subrange(0, both.len() as int) =~= both);
        lemma_marker_opens(row, indent, m);
    } else {
        let hang = piece_hang(pieces[n - 1], effective, flavor);
        let lines = wrapped_lines(pieces[n - 1], prefix, effective as nat, hang);
        let j = k - head.len() - gap;
        assert(row == lines[j]);
        assert(row.subrange(0, both.len() as int) =~= both);
        lemma_marker_opens(row, indent, m);
    }
}

/// Every line of a line comment that keeps its layout starts, behind the indentation,
/// with no white space.
pub open spec fn kept_rows_open(doc: DocText) -> bool {
    forall|i: int| 0 <= i < doc.lines.len() ==> opens_solid((#[trigger] doc.lines[i]).raw, doc.indent)
}

/// The lines of a paragraph of a line comment start with its marker.
proof fn lemma_paragraph_opens(
    doc: DocText,
    para: ParagraphText,
    m: Seq<char>,
    effective: usize,
    k: int,
)
    requires
        !is_block(doc.style),
        doc.prefix() == doc.indent + m + " "@,
        m.len() > 0,
        !is_white(m[0]),
        !is_white(m.last()),
        para.kind == ParagraphKind::Preformatted ==> kept_rows_open(doc),
        forall|i: int|
            0 <= i < para.line_indices.len() ==> #[trigger] para.line_indices[i]
                < doc.lines.len(),
        0 <= k < paragraph_lines(doc, para, doc.prefix(), effective, false).len(),
    ensures
        opens_solid(paragraph_lines(doc, para, doc.prefix(), effective, false)[k], doc.indent),
{
    reveal_strlit(" ");
    let prefix = doc.prefix();
    let both = doc.indent + m;
    let row = paragraph_lines(doc, para, prefix, effective, false)[k];
    match para.kind {
        ParagraphKind::Prose => {
            let pieces = return_pieces(prose_body(doc, para.line_indices));
            lemma_prose_opens(
                pieces,
                pieces.len() as int,
                doc.indent,
                m,
                effective,
                doc.flavor,
                k,
            );
        },
        ParagraphKind::AtxHeader => {
            assert(row.subrange(0, both.len() as int) =~= both);
            lemma_marker_opens(row, doc.indent, m);
        },
        ParagraphKind::Preformatted => {
            let li = para.line_indices[k] as int;
            let line = doc.lines[li];
            lemma_trimmed_opens(doc.indent, m, " "@ + line.text);
            assert(prefix + line.text =~= doc.indent + m + (" "@ + line.text));
            if row == trimmed_end(prefix + line.text) {
                lemma_marker_opens(row, doc.indent, m);
            } else {
                assert(row == line.raw);
            }
        },
    }
}

/// The body lines of a line comment start with its marker.
proof fn lemma_body_opens(doc: DocText, m: Seq<char>, n: int, effective: usize, k: int)
    requires
        !is_block(doc.style),
        doc.prefix() == doc.indent + m + " "@,
        m.len() > 0,
        !is_white(m[0]),
        !is_white(m.last()),
        kept_rows_open(doc),
        0 <= n <= doc.paragraphs.len(),
        forall|p: int, i: int|
            0 <= p < doc.paragraphs.len() && 0 <= i < doc.paragraphs[p].line_indices.len()
                ==> #[trigger] doc.paragraphs[p].line_indices[i] < doc.lines.len(),
        0 <= k < first_paragraphs(doc, n, doc.prefix(), effective, false).len(),
    ensures
        opens_solid(first_paragraphs(doc, n, doc.prefix(), effective, false)[k], doc.indent),
    decreases n,
{
    reveal_strlit(" ");
    let prefix = doc.prefix();
    let both = doc.indent + m;
    let head = first_paragraphs(doc, n - 1, prefix, effective, false);
    let para = doc.paragraphs[n - 1];
    let row = first_paragraphs(doc, n, prefix, effective, false)[k];
    let gap = if n > 1 && para.preceded_by_blank {
        1int
    } else {
        0int
    };
    lemma_bare(both);
    if k < head.len() {
        lemma_body_opens(doc, m, n - 1, effective, k);
    } else if k < head.len() + gap {
        assert(row == both);
        assert(row.subrange(0, both.len() as int) =~= both);
        lemma_marker_opens(row, doc.indent, m);
    } else {
        lemma_paragraph_opens(doc, para, m, effective, k - head.len() - gap);
    }
}

/// What is emitted for a line comment starts with no white space.
proof fn lemma_emitted_opens(c: CommentText, lang: Language, limit: usize, tab_width: usize)
    requires
        stands_in_source(c),
        !is_block(style_of(c.text)),
        kept_rows_open(first_doc(c, lang, limit)),
        first_doc(c, lang, limit).lines.len() <= usize::MAX,
        emitted(c, lang, limit, tab_width).len() > 0,
    ensures
        !is_white(emitted(c, lang, limit, tab_width)[0]),
{
    reveal(reflowed);
    reveal_strlit(" ");
    let doc = first_doc(c, lang, limit);
    let m = line_marker_of(c.text)->0;
    lemma_first_facts(c, Seq::empty(), lang, limit, tab_width);
    lemma_plain_marker(c.text);
    lemma_line_prefix(doc, m);
    lemma_marker_solid(m);
    let effective = text_room(doc.prefix(), limit, tab_width);
    let body = body_lines(doc, doc.prefix(), effective, false);
    let rows = line_comment_lines(doc, body);
    let text = joined(rows, doc.ending());
    if body.len() > 0 {
        if doc.paragraphs.len() == 0 && doc.has_blank_line() {
            let both = doc.indent + m;
            assert(both.subrange(0, both.len() as int) =~= both);
            lemma_marker_opens(both, doc.indent, m);
        } else {
            assert forall|p: int, i: int|
                0 <= p < doc.paragraphs.len() && 0 <= i
                    < doc.paragraphs[p].line_indices.len() implies #[trigger] doc.paragraphs[p].line_indices[i]
                < doc.lines.len() by {
                lemma_paragraph_rows(doc.lines, 0, false, p);
            }
            lemma_body_opens(doc, m, doc.paragraphs.len() as int, effective, 0);
        }
        crate::rows::lemma_joined_opens(rows, doc.ending());
        assert(text.take(rows[0].len() as int)[0] == text[0]);
    } else {
        assert(rows =~= Seq::empty());
        assert(text.len() == 0);
    }
}

/// A marker starts and ends in no white space.
proof fn lemma_marker_solid(m: Seq<char>)
    requires
        plain_marker(m),
    ensures
        m.len() > 0,
        !is_white(m[0]),
        !is_white(m.last()),
{
    reveal_strlit("//");
    reveal_strlit("///");
    reveal_strlit("//!");
    reveal_strlit("#!");
    if m != "//"@ && m != "///"@ && m != "//!"@ && m != "#!"@ {
        assert(in_class(m[0], CharClass::One('#')));
        assert(in_class(m[m.len() - 1], CharClass::One('#')));
    }
}

/// A line comment keeps its style too, with no white space in front of its marker: what
/// goes in for it, trimmed, is a comment of the same style.
pub proof fn law_line_comments_keep_their_style(
    src: Seq<char>,
    c: CommentText,
    prev: Option<CommentText>,
    lang: Language,
    limit: usize,
    tab_width: usize,
    k: int,
)
    requires
        stands_in_source(c),
        !is_block(style_of(c.text)),
        c.text.len() > 0,
        !is_white(c.text[0]),
        kept_rows_open(first_doc(c, lang, limit)),
        first_doc(c, lang, limit).lines.len() <= usize::MAX,
        !c.is_trailing ==> all_in(
            span(src, line_start(encode_utf8(src), c.start_byte), c.start_byte),
            CharClass::White,
        ),
        0 <= k < comment_splices(src, c, prev, lang, limit, tab_width).len(),
        comment_splices(src, c, prev, lang, limit, tab_width)[k].text.len() > 0,
    ensures
        style_of(trimmed(comment_splices(src, c, prev, lang, limit, tab_width)[k].text))
            == style_of(c.text),
        !is_white(put_text(src, c, lang, limit, tab_width)[0]),
{
    reveal_strlit("\n");
    reveal_strlit("\r\n");
    let put = put_text(src, c, lang, limit, tab_width);
    law_style_is_preserved(src, c, prev, lang, limit, tab_width, k);
    if c.param_shift is Some {
        lemma_moved_opens(c.text);
    } else if c.left_alone(kind_of(c.text, lang), lang, limit) {
        reveal(comment_splices);
        reveal(closer_splices);
    } else {
        lemma_emitted_opens(c, lang, limit, tab_width);
    }
}

/// A comment on one line starts as it did.
proof fn lemma_moved_opens(text: Seq<char>)
    requires
        text.len() > 0,
        !is_white(text[0]),
    ensures
        moved_text(text).len() > 0,
        !is_white(moved_text(text)[0]),
{
    let t = moved_text(text);
    if any_in(text, CharClass::Two('\n', '\r')) {
        lemma_style_of_word(text);
        let ws = words_of(text);
        lemma_words_are_words(text);
        assert(crate::words::is_word(ws[0]));
        assert(in_class(ws[0][0], CharClass::Solid));
        crate::rows::lemma_joined_opens(ws, " "@);
        assert(t.take(ws[0].len() as int)[0] == t[0]);
    }
}

/// Where a word of a text stands in it.
pub proof fn lemma_word_at(s: Seq<char>, j: int) -> (o: int)
    requires
        0 <= j < words_of(s).len(),
    ensures
        0 <= o,
        o + words_of(s)[j].len() <= s.len(),
        s.subrange(o, o + words_of(s)[j].len()) == words_of(s)[j],
        j == 0 && !is_white(s[0]) ==> o == 0,
        o > 0 ==> is_white(s[o - 1]),
        j > 0 ==> o >= words_of(s)[0].len(),
        j + 1 < words_of(s).len() ==> o + words_of(s)[j].len() + words_of(s).last().len()
            < s.len(),
        j + 1 == words_of(s).len() && !is_white(s.last()) ==> o + words_of(s)[j].len() == s.len(),
    decreases s.len(),
{
    let t = crate::text::trimmed_start(s);
    let a = lead_len(s, CharClass::White) as int;
    lemma_lead_len_facts(s, CharClass::White);
    crate::text::lemma_words_step(s);
    let n = lead_len(t, CharClass::Solid) as int;
    lemma_lead_len_facts(t, CharClass::Solid);
    let rest = t.skip(n);
    let ws = words_of(s);
    assert(ws =~= seq![t.take(n)] + words_of(rest));
    assert(s.len() > 0);
    if j == 0 {
        assert(s.subrange(a, a + n) =~= ws[0]);
        if ws.len() > 1 {
            let k = words_of(rest).len() - 1;
            assert(words_of(rest)[k] == ws.last());
            let p = lemma_word_at(rest, k);
            assert(is_white(rest[0]));
            lemma_words_are_words(rest);
            assert(crate::words::is_word(words_of(rest)[k]));
            if p == 0 {
                assert(rest.subrange(p, p + words_of(rest)[k].len())[0] == rest[0]);
                assert(in_class(words_of(rest)[k][0], CharClass::Solid));
            }
        } else if !is_white(s.last()) && rest.len() > 0 {
            assert(rest.last() == s.last());
            crate::pieces::lemma_solid_inside(rest, rest.len() - 1);
            crate::pieces::lemma_has_words(rest);
        }
        a
    } else {
        let p = lemma_word_at(rest, j - 1);
        assert(words_of(rest)[j - 1] == ws[j]);
        assert(words_of(rest).last() == ws.last());
        let o = a + n + p;
        lemma_words_are_words(rest);
        assert(crate::words::is_word(words_of(rest)[j - 1]));
        assert(is_white(rest[0]));
        if p == 0 {
            assert(rest.subrange(p, p + ws[j].len())[0] == rest[0]);
            assert(in_class(words_of(rest)[j - 1][0], CharClass::Solid));
        }
        assert(s.subrange(o, o + ws[j].len()) =~= rest.subrange(p, p + ws[j].len()));
        if !is_white(s.last()) && rest.len() > 0 {
            assert(rest.last() == s.last());
        }
        o
    }
}

/// A closer on a line of words stands in one of them.
proof fn lemma_closer_in_word(ws: Seq<Seq<char>>, p: int) -> (r: (int, int))
    requires
        all_words(ws),
        0 <= p,
        sub_at(joined(ws, " "@), "*/"@, p),
    ensures
        ({
            let j = r.0;
            let q = r.1;
            &&& 0 <= j < ws.len()
            &&& sub_at(ws[j], "*/"@, q)
            &&& j == 0 ==> q == p
            &&& j == ws.len() - 1 ==> joined(ws, " "@).len() - p == ws[j].len() - q
        }),
    decreases ws.len(),
{
    reveal_strlit("*/");
    reveal_strlit(" ");
    let s = joined(ws, " "@);
    let at = s.subrange(p, p + 2);
    assert(at[0] == '*' && at[1] == '/');
    if ws.len() <= 1 {
        if ws.len() == 1 {
            assert(s =~= ws[0]);
        }
        (0, p)
    } else {
        let head = ws.drop_last();
        let h = joined(head, " "@);
        let w = ws.last();
        assert(s =~= h + " "@ + w);
        if p + 2 <= h.len() {
            assert(h.subrange(p, p + 2) =~= at);
            assert(all_words(head)) by {
                assert forall|i: int| 0 <= i < head.len() implies crate::words::is_word(
                    #[trigger] head[i],
                ) by {
                    assert(crate::words::is_word(ws[i]));
                }
            }
            let (j, q) = lemma_closer_in_word(head, p);
            (j, q)
        } else {
            assert(p > h.len()) by {
                if p == h.len() {
                    assert(at[0] == ' ');
                } else if p + 1 == h.len() {
                    assert(at[1] == ' ');
                }
            }
            let q = p - h.len() - 1;
            assert(w.subrange(q, q + 2) =~= at);
            (ws.len() - 1, q)
        }
    }
}

/// A block that is put on one line is well formed if it was.
#[verifier::spinoff_prover]
#[verifier::rlimit(80)]
proof fn lemma_moved_formed(text: Seq<char>)
    requires
        well_formed_block(text),
    ensures
        well_formed_block(moved_text(text)),
{
    reveal_strlit("*/");
    reveal_strlit("/*");
    if any_in(text, CharClass::Two('\n', '\r')) {
        let t = trimmed_end(text);
        let ws = words_of(t);
        lemma_words_trimmed(text);
        lemma_words_are_words(t);
        let m = joined(ws, " "@);
        let len = t.len() as int;
        assert(t.subrange(0, 2)[0] == '/' && t.subrange(0, 2)[1] == '*');
        assert(t.subrange(len - 2, len)[0] == '*' && t.subrange(len - 2, len)[1] == '/');
        assert(t[0] == '/' && t[1] == '*' && t[len - 2] == '*' && t[len - 1] == '/');
        crate::pieces::lemma_solid_inside(t, 0);
        crate::pieces::lemma_has_words(t);
        let n = ws.len() as int;
        lemma_lead_len(t, CharClass::White, 0);
        assert(crate::text::trimmed_start(t) =~= t);
        crate::plain_words::lemma_first_word(t);
        crate::plain_words::lemma_word_prefix(t, "/*"@);
        crate::rows::lemma_joined_opens(ws, " "@);
        assert(ws[0].subrange(0, 2) == "/*"@);
        assert(m.subrange(0, 2) =~= m.take(ws[0].len() as int).subrange(0, 2));
        let o = lemma_word_at(t, n - 1);
        let w = ws[n - 1];
        assert(crate::words::is_word(w));
        assert(w.last() == '/') by {
            assert(t.subrange(o, o + w.len())[w.len() - 1] == t[len - 1]);
        }
        assert(w.len() >= 2 && w[w.len() - 2] == '*') by {
            if w.len() == 1 {
                assert(o == len - 1);
                assert(is_white(t[o - 1]));
            } else {
                assert(t.subrange(o, o + w.len())[w.len() - 2] == t[len - 2]);
            }
        }
        crate::plain_form::lemma_ends_in_word(ws);
        let k = m.len() as int;
        assert(m.skip(k - w.len()) == w);
        assert(m[k - 1] == m.skip(k - w.len())[w.len() - 1]);
        assert(m[k - 2] == m.skip(k - w.len())[w.len() - 2]);
        assert(m.subrange(k - 2, k) =~= "*/"@);
        crate::block_settling::lemma_trimmed_end(m);
        assert(k >= 4) by {
            if n == 1 {
                assert(o == 0);
                assert(t =~= w);
            } else {
                crate::rows::lemma_joined_opens(ws.drop_last(), " "@);
                reveal_strlit(" ");
            }
        }
        let inner = m.subrange(2, k - 2);
        if has_text(inner, "*/"@) {
            let i = choose|i: int| #[trigger] sub_at(inner, "*/"@, i);
            assert(m.subrange(i + 2, i + 4) =~= inner.subrange(i, i + 2));
            let (j, q) = lemma_closer_in_word(ws, i + 2);
            let p = lemma_word_at(t, j);
            let x = p + q;
            assert(t.subrange(p, p + ws[j].len()).subrange(q, q + 2) =~= t.subrange(x, x + 2));
            assert(2 <= x);
            assert(x + 2 <= len - 2);
            let own = t.subrange(2, len - 2);
            assert(own.subrange(x - 2, x) =~= t.subrange(x, x + 2));
            assert(sub_at(own, "*/"@, x - 2));
        }
    }
}

/// A block is well formed with other white space in front of its closer.
proof fn lemma_respaced(front: Seq<char>, z: Seq<char>, mid: Seq<char>)
    requires
        well_formed_block(front + z + "*/"@),
        front.len() >= 3,
        forall|i: int| 0 <= i < mid.len() ==> #[trigger] mid[i] != '/' && mid[i] != '*',
    ensures
        well_formed_block(front + mid + "*/"@),
{
    reveal_strlit("*/");
    reveal_strlit("/*");
    let t = front + z + "*/"@;
    let r = front + mid + "*/"@;
    let k = r.len() as int;
    let len = t.len() as int;
    crate::block_settling::lemma_trimmed_end(t);
    crate::block_settling::lemma_trimmed_end(r);
    assert(t.subrange(0, 2)[0] == '/' && t.subrange(0, 2)[1] == '*');
    assert(r[0] == t[0] && r[1] == t[1]);
    assert(r.subrange(0, 2) =~= "/*"@);
    assert(r.subrange(k - 2, k) =~= "*/"@);
    let inner = r.subrange(2, k - 2);
    if has_text(inner, "*/"@) {
        let i = choose|i: int| #[trigger] sub_at(inner, "*/"@, i);
        let at = inner.subrange(i, i + 2);
        assert(at[0] == '*' && at[1] == '/');
        assert(r[i + 2] == '*' && r[i + 3] == '/');
        assert(i + 4 <= front.len()) by {
            if i + 3 >= front.len() {
                assert(r[i + 3] == mid[i + 3 - front.len()]);
            }
        }
        let own = t.subrange(2, len - 2);
        assert(t[i + 2] == r[i + 2] && t[i + 3] == r[i + 3]);
        assert(own.subrange(i, i + 2) =~= "*/"@);
        assert(sub_at(own, "*/"@, i));
    }
}

/// A line break and blanks hold no part of a closer.
proof fn lemma_closer_lead(mid: Seq<char>, eol: Seq<char>, lead: Seq<char>)
    requires
        mid == eol + lead,
        eol == "\n"@ || eol == "\r\n"@,
        all_in(lead, CharClass::Blank),
    ensures
        forall|i: int| 0 <= i < mid.len() ==> #[trigger] mid[i] != '/' && mid[i] != '*',
{
    reveal_strlit("\n");
    reveal_strlit("\r\n");
    assert forall|i: int| 0 <= i < mid.len() implies #[trigger] mid[i] != '/' && mid[i] != '*' by {
        if i >= eol.len() {
            assert(mid[i] == lead[i - eol.len()]);
            assert(in_class(lead[i - eol.len()], CharClass::Blank));
        }
    }
}

/// The blanks that a line starts with are blanks.
proof fn lemma_lead_blank(s: Seq<char>)
    ensures
        all_in(crate::text::lead_run(s, CharClass::Blank), CharClass::Blank),
{
    lemma_lead_len_facts(s, CharClass::Blank);
    let l = crate::text::lead_run(s, CharClass::Blank);
    assert forall|i: int| 0 <= i < l.len() implies in_class(#[trigger] l[i], CharClass::Blank) by {
        assert(l[i] == s[i]);
    }
}

/// A text whose last line holds a closer, taken apart in front of it.
proof fn lemma_before_closer(above: Seq<char>, last: Seq<char>) -> (z: Seq<char>)
    requires
        crate::text::has_suffix(trimmed_end(last), "*/"@),
    ensures
        ({
            let e = trimmed_end(last);
            let before = trimmed_end(e.take(e.len() - 2));
            trimmed_end(above + last) == above + before + z + "*/"@
        }),
{
    reveal_strlit("*/");
    let e = trimmed_end(last);
    let head = e.take(e.len() - 2);
    let before = trimmed_end(head);
    lemma_trail_len_facts(last, CharClass::White);
    lemma_trail_len_facts(head, CharClass::White);
    assert(e.subrange(e.len() - 2, e.len() as int) == "*/"@);
    assert(e =~= head + "*/"@);
    let z = head.skip(before.len() as int);
    assert(head =~= before + z);
    crate::block_settling::lemma_trimmed_behind(above, last);
    assert(above + e =~= above + before + z + "*/"@);
    z
}

/// A block whose closer moves is well formed if it was.
#[verifier::spinoff_prover]
proof fn lemma_split_formed(text: Seq<char>, indent: Option<Seq<char>>)
    requires
        well_formed_block(text),
        closer_split(text, indent) is Some,
        indent is Some ==> all_in(indent->0, CharClass::Blank),
    ensures
        well_formed_block(closer_split(text, indent)->0),
{
    let (above, last) = last_line(text)->0;
    let r = closer_split(text, indent)->0;
    lemma_trail_len_facts(text, CharClass::NotOne('\n'));
    assert(text =~= above + last);
    assert(above.len() > 0 && above.last() == '\n');
    let e = trimmed_end(last);
    let before = trimmed_end(e.take(e.len() - 2));
    let z = lemma_before_closer(above, last);
    let lead = match indent {
        Some(x) => x,
        None => crate::text::lead_run(last, CharClass::Blank),
    };
    lemma_lead_blank(last);
    reveal_strlit("*/");
    let eol = if crate::text::has_suffix(above, "\r\n"@) {
        "\r\n"@
    } else {
        "\n"@
    };
    let mid = eol + lead;
    lemma_closer_lead(mid, eol, lead);
    assert(r =~= above + before + mid + "*/"@);
    lemma_formed_again(text, above, before, z, mid);
}

proof fn lemma_formed_again(
    text: Seq<char>,
    above: Seq<char>,
    before: Seq<char>,
    z: Seq<char>,
    mid: Seq<char>,
)
    requires
        well_formed_block(text),
        trimmed_end(text) == above + before + z + "*/"@,
        above.len() > 0,
        above.last() == '\n',
        forall|i: int| 0 <= i < mid.len() ==> #[trigger] mid[i] != '/' && mid[i] != '*',
    ensures
        well_formed_block(above + before + mid + "*/"@),
{
    reveal_strlit("/*");
    reveal_strlit("*/");
    let t = trimmed_end(text);
    assert(t.last() == '/');
    crate::block_settling::lemma_trimmed_end(t);
    assert(above.len() >= 3) by {
        assert(t.subrange(0, 2)[0] == '/' && t.subrange(0, 2)[1] == '*');
        assert(above[0] == t[0]);
        if above.len() == 2 {
            assert(above[1] == t[1]);
        }
    }
    lemma_respaced(above + before, z, mid);
}

/// A text in white space is as well formed as it is without.
proof fn lemma_set_off_formed(s: Seq<char>, put: Seq<char>)
    requires
        set_off(s, put),
        well_formed_block(put),
    ensures
        well_formed_block(trimmed(s)),
{
    reveal_strlit("/*");
    reveal_strlit("*/");
    let (lead, tail) = choose|lead: Seq<char>, tail: Seq<char>|
        #![auto]
        s == lead + put + tail && all_in(lead, CharClass::White) && all_in(tail, CharClass::White);
    let t = trimmed_end(put);
    assert(t.subrange(0, 2)[0] == '/');
    lemma_trail_len_facts(put, CharClass::White);
    assert(put[0] == '/');
    let n = lead.len() as int;
    assert forall|i: int| 0 <= i < n implies in_class(#[trigger] s[i], CharClass::White) by {
        assert(s[i] == lead[i]);
    }
    assert(s[n] == put[0]);
    lemma_lead_len(s, CharClass::White, n);
    let x = crate::text::trimmed_start(s);
    assert(x =~= put + tail);
    let m = trail_len(put, CharClass::White) as int + tail.len();
    assert forall|i: int| x.len() - m <= i < x.len() implies in_class(
        #[trigger] x[i],
        CharClass::White,
    ) by {
        if i < put.len() {
            assert(x[i] == put[i]);
        } else {
            assert(x[i] == tail[i - put.len()]);
        }
    }
    assert(t.subrange(t.len() - 2, t.len() as int)[1] == '/');
    assert(x[x.len() - m - 1] == t[t.len() - 1]);
    lemma_trail_len(x, CharClass::White, m);
    assert(trimmed(s) =~= t);
    crate::block_settling::lemma_trimmed_end(t);
}

/// A block stays a block that ends where it should, wherever it is put and whatever goes
/// in for it.
pub proof fn law_blocks_stay_closed(
    src: Seq<char>,
    c: CommentText,
    prev: Option<CommentText>,
    lang: Language,
    limit: usize,
    tab_width: usize,
    k: int,
)
    requires
        stands_in_source(c),
        is_block(style_of(c.text)),
        well_formed_block(c.text),
        c.text.len() > 0,
        !is_white(c.text[0]),
        !c.is_trailing ==> all_in(
            span(src, line_start(encode_utf8(src), c.start_byte), c.start_byte),
            CharClass::White,
        ),
        0 <= k < comment_splices(src, c, prev, lang, limit, tab_width).len(),
        comment_splices(src, c, prev, lang, limit, tab_width)[k].text.len() > 0,
    ensures
        well_formed_block(put_text(src, c, lang, limit, tab_width)),
        well_formed_block(trimmed(comment_splices(src, c, prev, lang, limit, tab_width)[k].text)),
{
    reveal_strlit("\n");
    reveal_strlit("\r\n");
    reveal_strlit(" ");
    let kind = kind_of(c.text, lang);
    let put = put_text(src, c, lang, limit, tab_width);
    law_style_is_preserved(src, c, prev, lang, limit, tab_width, k);
    if c.param_shift is Some {
        lemma_moved_formed(c.text);
    } else if c.left_alone(kind, lang, limit) {
        reveal(comment_splices);
        reveal(closer_splices);
        let indent = closer_indent(src, c, lang)->0;
        assert(indent is Some ==> all_in(indent->0, CharClass::Blank)) by {
            if indent is Some {
                let x = c.line_indent_bytes + " "@;
                assert forall|i: int| 0 <= i < x.len() implies in_class(
                    #[trigger] x[i],
                    CharClass::Blank,
                ) by {
                    if i < c.line_indent_bytes.len() {
                        assert(x[i] == c.line_indent_bytes[i]);
                    }
                }
            }
        }
        lemma_split_formed(c.text, indent);
    } else {
        reveal(comment_splices);
    }
    lemma_set_off_formed(comment_splices(src, c, prev, lang, limit, tab_width)[k].text, put);
}

} // verus!
