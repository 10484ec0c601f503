//! Ordinary sentences are read as prose, and are laid out.

use crate::block_settling::{fits_one_row, framed, shared_text};
use crate::classify::{kind_of, style_of, DocFlavor, Style};
use crate::comment::CommentText;
use crate::comment_words::{stretch_pieces, texts_from};
use crate::final_form::{emitted, first_doc, lemma_first_facts, stands_in_source};
use crate::fit_laws::{
    law_line_comments_fit, law_plain_words_fill_their_lines, leaves, lemma_flat_from,
    lemma_line_text_is, lemma_no_half_banner, narrow, narrow_word, rows_fit, stands_alone_at,
    words_fit,
};
use crate::language::Language;
use crate::laws::{law_paragraph_keeps_words, law_return_split_keeps_words, named_texts};
use crate::linekind::{
    art_adjacent_bookend, atx_header, base_kind, blockquote, label_shape, list_item, metadata_line,
    reference_link, setext_rule, StrippedText,
};
use crate::lower_prose::lemma_none_counted;
use crate::normalize::{
    block_marker_of, line_marker_of, lines_stripped, paragraph_end, paragraphs_from, source_lines,
    DocText, LineKind, LineText, ParagraphKind,
};
use crate::plain_form::{is_plain_prose, lemma_plain_doc, lemma_plain_stretches, may_be_page};
use crate::plain_words::{
    lemma_plain_before, lemma_plain_hang, lemma_plain_line, lemma_plain_no_bookend,
    lemma_plain_piece, lemma_plain_region, plain_text, plain_word,
};
use crate::planner::comment_splices;
use crate::prose_form::{lemma_empty_no_bookend, lemma_keeps_bodies};
use crate::reflow::{is_block, prose_body};
use crate::rewrite::rewritten;
use crate::rows::eol_of;
use crate::second_pass::{laid, stretches};
use crate::settling::{doc_lines, doc_room, doc_stretches};
use crate::text::{
    all_in, alphabetic, has_prefix, has_text, in_class, joined, lead_len, lead_run, lemma_lead_len,
    lemma_lead_len_facts, lemma_trail_len_facts, sub_at, trimmed, trimmed_start, words_of,
    CharClass,
};
use crate::textline::{
    alpha_word, art, assignment_line, indented_code, is_bookend, kernel_doc_tag, return_pieces,
    table_row,
};
use crate::width::columns;
use crate::words::{all_words, all_words_of, flat_words, lemma_words_are_words};
use crate::wrap::{
    law_lines_partition_words, lemma_start_bounds, line_body, line_end, line_starts, wrapped_lines,
};
use vstd::prelude::*;

verus! {

/// An ordinary line: it starts with a letter, has a word of four letters or more somewhere and
/// single spaces between its words. It has no tab, bar, plus or equals sign, and no colon behind
/// a capital. It does not start like a licence or version note, and its words are plain.
pub open spec fn ordinary_line(s: Seq<char>) -> bool {
    let t = trimmed(s);
    &&& plain_text(s)
    &&& forall|i: int|
        0 <= i < s.len() ==> #[trigger] s[i] != '\t' && s[i] != '|' && s[i] != '+' && s[i] != '='
    &&& forall|i: int| 0 <= i < s.len() - 1 && #[trigger] s[i] == ' ' ==> s[i + 1] != ' '
    &&& t.len() > 0 ==> {
        &&& 'a' <= t[0] <= 'z' || 'A' <= t[0] <= 'Z'
        &&& 'A' <= t[0] <= 'Z' ==> !t.contains(':')
        &&& !has_prefix(t, "SPDX-"@)
        &&& !has_prefix(t, "Version:"@)
        &&& !has_prefix(t, "License:"@)
        &&& !has_prefix(t, "Copyright"@)
        &&& exists|i: int|
            0 <= i && i + 4 <= s.len() && alphabetic(#[trigger] s[i]) && alphabetic(s[i + 1])
                && alphabetic(s[i + 2]) && alphabetic(s[i + 3])
    }
}

/// Where a trimmed text stands in the text.
pub proof fn lemma_trimmed_at(s: Seq<char>) -> (o: int)
    ensures
        0 <= o,
        o + trimmed(s).len() <= s.len(),
        trimmed(s) == s.subrange(o, o + trimmed(s).len()),
        trimmed_start(s) == s.skip(o),
        trimmed(s).len() == 0 ==> trimmed_start(s).len() == 0,
        trimmed(s).len() > 0 ==> trimmed_start(s)[0] == trimmed(s)[0],
{
    lemma_lead_len_facts(s, CharClass::White);
    let n = lead_len(s, CharClass::White) as int;
    let t = trimmed_start(s);
    lemma_trail_len_facts(t, CharClass::White);
    let u = trimmed(s);
    assert(u =~= s.subrange(n, n + u.len()));
    assert(t =~= s.skip(n));
    if u.len() == 0 && t.len() > 0 {
        assert(in_class(t[0], CharClass::White));
        assert(t[0] == s[n]);
    }
    n
}

pub proof fn lemma_no_table(s: Seq<char>)
    requires
        ordinary_line(s),
    ensures
        !table_row(s),
        !assignment_line(s),
        !indented_code(s),
{
    reveal_strlit("+--");
    reveal_strlit("  ");
    let t = trimmed(s);
    let u = trimmed_start(s);
    let o = lemma_trimmed_at(s);
    if has_text(t, "+--"@) {
        let i = choose|i: int| #[trigger] sub_at(t, "+--"@, i);
        assert(t.subrange(i, i + 3)[0] == t[i]);
        assert(t[i] == s[o + i]);
    }
    assert forall|i: int| 0 <= i < t.len() implies !in_class(
        #[trigger] t[i],
        CharClass::One('|'),
    ) by {
        assert(t[i] == s[o + i]);
    }
    lemma_none_counted(t, CharClass::One('|'));
    if t.contains('\t') {
        let i = choose|i: int| 0 <= i < t.len() && t[i] == '\t';
        assert(t[i] == s[o + i]);
    }
    if u.len() > 0 && has_prefix(u.skip(1), "  "@) {
        assert(u.skip(1).subrange(0, 2)[0] == u[1]);
        assert(u.skip(1).subrange(0, 2)[1] == u[2]);
        assert(s[o + 1] == ' ' && s[o + 2] == ' ');
    }
    let n = lead_len(t, CharClass::NotOne('=')) as int;
    lemma_lead_len_facts(t, CharClass::NotOne('='));
    if n < t.len() {
        assert(t[n] == s[o + n]);
        assert(s[o + n] != '=');
    }
    let lead = lead_run(s, CharClass::Blank);
    lemma_lead_len_facts(s, CharClass::Blank);
    if lead.len() >= 2 {
        assert(in_class(s[0], CharClass::Blank) && in_class(s[1], CharClass::Blank));
        assert(s[0] != '\t' && s[1] != '\t');
        assert(s[0] == ' ');
    }
    if lead.contains('\t') {
        let i = choose|i: int| 0 <= i < lead.len() && lead[i] == '\t';
        assert(lead[i] == s[i]);
    }
}

proof fn lemma_no_opening(s: Seq<char>)
    requires
        ordinary_line(s),
    ensures
        !atx_header(s),
        !setext_rule(s),
        !blockquote(s),
        !reference_link(s),
        !list_item(s),
        !kernel_doc_tag(trimmed_start(s)),
        !label_shape(s),
        !metadata_line(s),
        crate::linekind::command_shape(s) is None,
{
    reveal_strlit(">");
    reveal_strlit("> ");
    let t = trimmed(s);
    let u = trimmed_start(s);
    let o = lemma_trimmed_at(s);
    if t.len() == 0 {
        lemma_lead_len(t, CharClass::One('#'), 0);
        lemma_lead_len(u, CharClass::Digit, 0);
        reveal_strlit("SPDX-");
        reveal_strlit("Version:");
        reveal_strlit("License:");
        reveal_strlit("Copyright");
    } else {
        lemma_lead_len(t, CharClass::One('#'), 0);
        lemma_lead_len(u, CharClass::Digit, 0);
        assert(!in_class(t[0], CharClass::One('=')) && !in_class(t[0], CharClass::One('-')));
        if has_prefix(t, "> "@) {
            assert(t.subrange(0, 2)[0] == t[0]);
        }
        if label_shape(s) {
            let key = lead_len(t, CharClass::Word) as int;
            lemma_lead_len_facts(t, CharClass::Word);
            let a = t.skip(key);
            let r = trimmed_start(a);
            lemma_lead_len_facts(a, CharClass::White);
            let m = lead_len(a, CharClass::White) as int;
            assert(r[0] == a[m]);
            assert(a[m] == t[key + m]);
            assert(t.contains(':'));
        }
    }
}

pub proof fn lemma_no_drawing(s: Seq<char>)
    requires
        ordinary_line(s),
    ensures
        trimmed(s).len() > 0 ==> !art(s),
        !is_bookend(s),
{
    let t = trimmed(s);
    crate::pieces::lemma_has_words(s);
    if t.len() > 0 {
        let i = choose|i: int|
            0 <= i && i + 4 <= s.len() && alphabetic(#[trigger] s[i]) && alphabetic(s[i + 1])
                && alphabetic(s[i + 2]) && alphabetic(s[i + 3]);
        let w = s.subrange(i, i + 4);
        assert(all_in(w, CharClass::Letter)) by {
            assert forall|k: int| 0 <= k < 4 implies in_class(#[trigger] w[k], CharClass::Letter) by {
                assert(w[k] == s[i + k]);
                assert(k == 0 || k == 1 || k == 2 || k == 3);
            }
        }
        assert(alpha_word(s));
        assert(plain_word(words_of(s)[0]));
        lemma_plain_no_bookend(s);
    } else {
        let none = Seq::<char>::empty();
        assert(t =~= none);
        lemma_empty_no_bookend(none);
        lemma_lead_len(none, CharClass::White, 0);
        lemma_trail_len_facts(none, CharClass::White);
        assert(trimmed(none) =~= none);
        assert(is_bookend(s) == is_bookend(none));
    }
}

/// A line among such lines is prose, or blank where it holds nothing.
proof fn lemma_kind(plain: Seq<StrippedText>, flavor: DocFlavor, r: int)
    requires
        0 <= r < plain.len(),
        forall|i: int| 0 <= i < plain.len() ==> ordinary_line((#[trigger] plain[i]).body),
    ensures
        base_kind(plain, r, flavor) == if trimmed(plain[r].body).len() > 0 {
            LineKind::Prose
        } else {
            LineKind::Blank
        },
{
    let s = plain[r].body;
    assert forall|i: int| 0 <= i < plain.len() implies plain_text((#[trigger] plain[i]).body) by {
        assert(ordinary_line(plain[i].body));
    }
    assert(ordinary_line(s));
    lemma_plain_before(plain, r);
    lemma_plain_region(s);
    lemma_no_opening(s);
    lemma_no_table(s);
    lemma_no_drawing(s);
    assert(!art_adjacent_bookend(plain, r));
}

/// The comment holds ordinary lines, one of them at least with text.
pub open spec fn is_ordinary(c: CommentText, lang: Language) -> bool {
    let marked = lines_stripped(source_lines(c.text), style_of(c.text));
    &&& stands_in_source(c)
    &&& !may_be_page(c, lang)
    &&& marked.len() <= usize::MAX
    &&& forall|r: int| 0 <= r < marked.len() ==> ordinary_line((#[trigger] marked[r]).body)
    &&& exists|r: int| 0 <= r < marked.len() && trimmed((#[trigger] marked[r]).body).len() > 0
}

/// Ordinary sentences are prose: none of their lines is taken for code, a table, a drawing, a
/// heading, a list or a row.
pub proof fn law_ordinary_lines_read_as_prose(c: CommentText, lang: Language, limit: usize)
    requires
        is_ordinary(c, lang),
    ensures
        is_plain_prose(c, lang, limit),
        ({
            let kind = kind_of(c.text, lang);
            let marked = lines_stripped(source_lines(c.text), style_of(c.text));
            let lines = c.body(kind, limit);
            &&& lines.len() == marked.len()
            &&& forall|r: int|
                0 <= r < lines.len() ==> (#[trigger] lines[r]).text == marked[r].body
                    && lines[r].kind == if trimmed(marked[r].body).len() > 0 {
                    LineKind::Prose
                } else {
                    LineKind::Blank
                }
        }),
{
    let kind = kind_of(c.text, lang);
    let marked = lines_stripped(source_lines(c.text), kind.style);
    let plain = c.plain_lines(kind);
    let lines = c.body(kind, limit);
    assert forall|r: int| 0 <= r < marked.len() implies !is_bookend((#[trigger] marked[r]).body) by {
        assert(ordinary_line(marked[r].body));
        lemma_no_drawing(marked[r].body);
    }
    lemma_keeps_bodies(c, kind);
    assert forall|r: int| 0 <= r < plain.len() implies ordinary_line((#[trigger] plain[r]).body) by {
        assert(plain[r].body == marked[r].body);
    }
    assert forall|r: int| 0 <= r < lines.len() implies (#[trigger] lines[r]).text == marked[r].body
        && lines[r].kind == (if trimmed(marked[r].body).len() > 0 {
        LineKind::Prose
    } else {
        LineKind::Blank
    }) by {
        assert(ordinary_line(plain[r].body));
        assert(plain[r].body == marked[r].body);
        lemma_kind(plain, kind.flavor, r);
        lemma_no_opening(plain[r].body);
        lemma_no_table(plain[r].body);
        lemma_no_half_banner(plain[r].body);
    }
    let some = choose|r: int|
        0 <= r < marked.len() && trimmed((#[trigger] marked[r]).body).len() > 0;
    assert(lines[some].kind != LineKind::Blank);
    assert forall|r: int| 0 <= r < lines.len() implies ((#[trigger] lines[r]).kind
        == LineKind::Prose || lines[r].kind == LineKind::Blank) && plain_text(lines[r].text) by {
        assert(ordinary_line(marked[r].body));
    }
}

/// Ordinary line comments fit the limit after a run: by the characters of the comment alone,
/// no line of it is wider than the limit, its indentation included.
pub proof fn law_ordinary_line_comments_fit(
    h: Seq<char>,
    c: CommentText,
    rest: Seq<char>,
    prev: Option<CommentText>,
    lang: Language,
    limit: usize,
    tab_width: usize,
)
    requires
        stands_alone_at(h, c, rest, tab_width),
        is_ordinary(c, lang),
        style_of(c.text) == Style::Line || style_of(c.text) == Style::DocLine,
        narrow(' '),
        words_fit(
            c,
            c.line_indent_bytes + line_marker_of(c.text)->0 + " "@,
            lang,
            limit,
            tab_width,
        ),
        limit < usize::MAX,
    ensures
        ({
            let src = h + c.line_indent_bytes + c.text + rest;
            exists|gap: Seq<char>, text: Seq<char>| #[trigger]
                leaves(
                    rewritten(src, comment_splices(src, c, prev, lang, limit, tab_width)),
                    h,
                    gap,
                    c.line_indent_bytes,
                    text,
                    rest,
                ) && rows_fit(c.line_indent_bytes + text, limit, tab_width)
        }),
{
    law_ordinary_lines_read_as_prose(c, lang, limit);
    law_line_comments_fit(h, c, rest, prev, lang, limit, tab_width);
}

/// Every line of the comment holds text: it is one paragraph.
pub open spec fn is_one_paragraph(c: CommentText, lang: Language) -> bool {
    let marked = lines_stripped(source_lines(c.text), style_of(c.text));
    is_ordinary(c, lang) && forall|r: int|
        0 <= r < marked.len() ==> trimmed((#[trigger] marked[r]).body).len() > 0
}

/// Lines of plain prose are one paragraph.
proof fn lemma_all_join(lines: Seq<LineText>, i: int)
    requires
        0 <= i <= lines.len(),
        forall|k: int|
            0 <= k < lines.len() ==> (#[trigger] lines[k]).kind == LineKind::Prose && plain_text(
                lines[k].text,
            ),
    ensures
        paragraph_end(lines, i, ParagraphKind::Prose) == lines.len(),
    decreases lines.len() - i,
{
    if i < lines.len() {
        lemma_plain_line(lines[i]);
        lemma_all_join(lines, i + 1);
    }
}

/// The one stretch of a comment of one paragraph.
proof fn lemma_one_stretch(c: CommentText, lang: Language, limit: usize, tab_width: usize)
    requires
        is_one_paragraph(c, lang),
    ensures
        ({
            let doc = first_doc(c, lang, limit);
            let st = doc_stretches(doc, limit, tab_width);
            &&& st.len() == 1
            &&& doc_lines(doc, limit, tab_width) == st[0].lines
            &&& words_of(st[0].piece) == all_words_of(
                texts_from(c.body(kind_of(c.text, lang), limit), 0),
            )
        }),
{
    reveal(doc_stretches);
    let kind = kind_of(c.text, lang);
    let doc = first_doc(c, lang, limit);
    let lines = c.body(kind, limit);
    let prefix = doc.prefix();
    let room = doc_room(doc, limit, tab_width);
    let inline = is_block(doc.style);
    law_ordinary_lines_read_as_prose(c, lang, limit);
    lemma_plain_doc(c, lang, limit);
    lemma_first_facts(c, Seq::empty(), lang, limit, tab_width);
    lemma_plain_stretches(c, lang, limit, tab_width);
    assert(lines[0].kind == LineKind::Prose);
    lemma_all_join(lines, 1);
    let paras = doc.paragraphs;
    assert(paragraphs_from(lines, lines.len() as int, false) =~= Seq::empty());
    assert(paras.len() == 1);
    let para = paras[0];
    let pieces = return_pieces(prose_body(doc, para.line_indices));
    let st = doc_stretches(doc, limit, tab_width);
    assert(stretches(doc, 0, prefix, room, inline) =~= Seq::empty());
    assert(st =~= crate::second_pass::paragraph_stretches(doc, para, prefix, room, inline));
    assert(st[0].piece == pieces[0]);
    crate::comment_words::lemma_text_words(c, lang, limit, tab_width);
    let all = stretch_pieces(st, st.len() as int);
    lemma_body_plain(c, lang, limit, tab_width);
    lemma_plain_piece(prose_body(doc, para.line_indices));
    assert(st.len() == 1);
    assert(all =~= seq![st[0].piece]);
    assert(flat_words(all, 0) =~= Seq::empty());
    assert(all_words_of(all) =~= words_of(st[0].piece));
    assert(laid(st, 0, prefix) =~= Seq::empty());
    assert(laid(st, 1, prefix) =~= st[0].lines);
}

/// The text of its paragraph is plain.
proof fn lemma_body_plain(c: CommentText, lang: Language, limit: usize, tab_width: usize)
    requires
        is_one_paragraph(c, lang),
        first_doc(c, lang, limit).paragraphs.len() == 1,
        first_doc(c, lang, limit).lines == c.body(kind_of(c.text, lang), limit),
        is_plain_prose(c, lang, limit),
    ensures
        ({
            let doc = first_doc(c, lang, limit);
            plain_text(prose_body(doc, doc.paragraphs[0].line_indices))
        }),
{
    let doc = first_doc(c, lang, limit);
    let idx = doc.paragraphs[0].line_indices;
    let body = prose_body(doc, idx);
    let lines = doc.lines;
    law_paragraph_keeps_words(doc, idx);
    law_return_split_keeps_words(body);
    let texts = named_texts(doc, idx);
    lemma_first_facts(c, Seq::empty(), lang, limit, tab_width);
    crate::settling::lemma_paragraph_rows(lines, 0, false, 0);
    assert forall|j: int| 0 <= j < words_of(body).len() implies plain_word(
        #[trigger] words_of(body)[j],
    ) by {
        let (a, b) = lemma_flat_from(texts, texts.len() as int, j);
        assert(texts[a] == lines[idx[a] as int].text);
        assert(plain_text(lines[idx[a] as int].text));
    }
}

/// Short lines are joined and long ones wrapped: the words of a paragraph, in order, fill its
/// lines. Every line fits behind the indentation and the marker, and none ends while the next
/// word would still have fitted on it.
pub proof fn law_a_paragraph_fills_its_lines(
    c: CommentText,
    lang: Language,
    limit: usize,
    tab_width: usize,
)
    requires
        is_one_paragraph(c, lang),
        style_of(c.text) == Style::Line || style_of(c.text) == Style::DocLine,
        c.relocate_before is None,
        narrow(' '),
        words_fit(
            c,
            c.line_indent_bytes + line_marker_of(c.text)->0 + " "@,
            lang,
            limit,
            tab_width,
        ),
        limit < usize::MAX,
    ensures
        ({
            let marked = lines_stripped(source_lines(c.text), style_of(c.text));
            let words = all_words_of(Seq::new(marked.len(), |r: int| marked[r].body));
            let prefix = c.line_indent_bytes + line_marker_of(c.text)->0 + " "@;
            let room = limit - columns(prefix, tab_width as nat);
            exists|starts: Seq<int>, sep: Seq<char>| #[trigger]
                fills(words, starts, room) && (sep == "\n"@ || sep == "\r\n"@)
                    && c.line_indent_bytes + emitted(c, lang, limit, tab_width) == #[trigger] joined(
                    rows_of(words, starts, prefix),
                    sep,
                )
        }),
{
    let none = Seq::<char>::empty();
    let doc = first_doc(c, lang, limit);
    let st = doc_stretches(doc, limit, tab_width);
    let kind = kind_of(c.text, lang);
    let lines = c.body(kind, limit);
    let marked = lines_stripped(source_lines(c.text), style_of(c.text));
    let prefix = c.line_indent_bytes + line_marker_of(c.text)->0 + " "@;
    law_ordinary_lines_read_as_prose(c, lang, limit);
    lemma_plain_stretches(c, lang, limit, tab_width);
    lemma_one_stretch(c, lang, limit, tab_width);
    lemma_first_facts(c, none, lang, limit, tab_width);
    crate::final_form::lemma_plain_marker(c.text);
    crate::settling::lemma_line_prefix(doc, line_marker_of(c.text)->0);
    let crlf = lemma_line_text_is(c, lang, limit, tab_width);
    let words = words_of(st[0].piece);
    let texts = Seq::new(marked.len(), |r: int| marked[r].body);
    assert(texts =~= texts_from(lines, 0));
    let room = (limit - columns(prefix, tab_width as nat)) as nat;
    let effective = doc_room(doc, limit, tab_width);
    assert(effective == room);
    assert(crate::settling::sound_stretch(st[0], doc.style));
    assert(st[0].kind == ParagraphKind::Prose);
    crate::settling::lemma_stretch_of(doc, limit, tab_width, 0);
    lemma_plain_hang(st[0].piece, effective, doc.flavor);
    let starts = line_starts(words, room, 0);
    lemma_words_are_words(st[0].piece);
    assert forall|x: int| 0 <= x < words.len() implies plain_word(#[trigger] words[x])
        && narrow_word(words[x]) && words[x].len() <= room by {
        crate::fit_laws::lemma_piece_word(c, lang, limit, tab_width, 0, x);
    }
    lemma_fills(words, room);
    lemma_rows_are(st[0].piece, prefix, room);
    assert(doc_lines(doc, limit, tab_width) =~= rows_of(words, starts, prefix));
    assert(fills(words, starts, room as int));
    assert(c.line_indent_bytes + emitted(c, lang, limit, tab_width) == joined(
        rows_of(words, starts, prefix),
        eol_of(crlf),
    ));
}

/// The lines start at these words, none is wider than the room, and none could have taken the
/// word that the next one starts with.
pub open spec fn fills(words: Seq<Seq<char>>, starts: Seq<int>, room: int) -> bool {
    &&& starts.len() > 0
    &&& starts[0] == 0
    &&& forall|j: int| 0 <= j < starts.len() ==> 0 <= #[trigger] starts[j] < words.len()
    &&& forall|j: int|
        0 <= j < starts.len() - 1 ==> #[trigger] starts[j] < starts[j + 1] && joined(
            words.subrange(starts[j], starts[j + 1]),
            " "@,
        ).len() <= room && joined(words.subrange(starts[j], starts[j + 1]), " "@).len() + 1
            + words[starts[j + 1]].len() > room
    &&& joined(words.subrange(starts.last(), words.len() as int), " "@).len() <= room
}

/// The rows: the words of each line with a space between, behind the prefix.
pub open spec fn rows_of(words: Seq<Seq<char>>, starts: Seq<int>, prefix: Seq<char>) -> Seq<
    Seq<char>,
> {
    Seq::new(
        starts.len(),
        |j: int|
            prefix + joined(
                words.subrange(
                    starts[j],
                    if j + 1 < starts.len() {
                        starts[j + 1]
                    } else {
                        words.len() as int
                    },
                ),
                " "@,
            ),
    )
}

proof fn lemma_rows_are(piece: Seq<char>, prefix: Seq<char>, room: nat)
    ensures
        wrapped_lines(piece, prefix, room, 0) == rows_of(
            words_of(piece),
            line_starts(words_of(piece), room, 0),
            prefix,
        ),
{
    let words = words_of(piece);
    let starts = line_starts(words, room, 0);
    let a = wrapped_lines(piece, prefix, room, 0);
    let b = rows_of(words, starts, prefix);
    assert forall|j: int| 0 <= j < a.len() implies a[j] == b[j] by {
        assert(prefix + crate::text::repeated(' ', 0) =~= prefix);
    }
    assert(a =~= b);
}

proof fn lemma_fills(words: Seq<Seq<char>>, room: nat)
    requires
        words.len() > 0,
        all_words(words),
        forall|i: int| 0 <= i < words.len() ==> plain_word(#[trigger] words[i]) && narrow_word(
            words[i],
        ) && words[i].len() <= room,
    ensures
        fills(words, line_starts(words, room, 0), room as int),
{
    let n = words.len() as int;
    let starts = line_starts(words, room, 0);
    law_lines_partition_words(words, room, 0);
    assert forall|j: int| 0 <= j < starts.len() implies 0 <= #[trigger] starts[j] < words.len() by {
        lemma_start_bounds(starts, n, j);
    }
    assert forall|j: int| 0 <= j < starts.len() implies #[trigger] line_body(words, starts, j).len()
        <= room by {
        law_plain_words_fill_their_lines(words, room, j);
        lemma_start_bounds(starts, n, j);
        if j + 1 < starts.len() {
            assert(starts[j] < starts[j + 1]);
        }
        let a = starts[j];
        let b = line_end(words, starts, j);
        if b - a < 2 {
            assert(words.subrange(a, b) =~= seq![words[a]]);
            assert(joined(seq![words[a]], " "@) == words[a]);
        }
    }
    assert forall|j: int| 0 <= j < starts.len() - 1 implies #[trigger] starts[j] < starts[j + 1]
        && joined(words.subrange(starts[j], starts[j + 1]), " "@).len() <= room && joined(
        words.subrange(starts[j], starts[j + 1]),
        " "@,
    ).len() + 1 + words[starts[j + 1]].len() > room by {
        law_plain_words_fill_their_lines(words, room, j);
        assert(line_body(words, starts, j).len() <= room);
    }
    assert(line_body(words, starts, starts.len() - 1).len() <= room);
}

/// What frames a block: its opener with the first line or alone, the other lines, and the
/// closer on the same row or on a row of its own.
pub open spec fn framed_rows(
    opener: Seq<char>,
    indent: Seq<char>,
    lines: Seq<Seq<char>>,
    header: bool,
    one_row: bool,
) -> Seq<Seq<char>> {
    let behind = Seq::new(lines.len(), |j: int| indent + " * "@ + lines[j]);
    if header {
        seq![opener] + behind + seq![indent + " */"@]
    } else if one_row {
        seq![opener + " "@ + lines[0] + " */"@]
    } else {
        seq![opener + " "@ + lines[0]] + behind.skip(1) + seq![indent + " */"@]
    }
}

/// The lines of a packing without a prefix.
pub open spec fn lines_of_words(words: Seq<Seq<char>>, starts: Seq<int>) -> Seq<Seq<char>> {
    Seq::new(
        starts.len(),
        |j: int|
            joined(
                words.subrange(
                    starts[j],
                    if j + 1 < starts.len() {
                        starts[j + 1]
                    } else {
                        words.len() as int
                    },
                ),
                " "@,
            ),
    )
}

/// The text is the lines in their frame, on one row where that fits.
pub open spec fn is_framed(
    text: Seq<char>,
    opener: Seq<char>,
    indent: Seq<char>,
    lines: Seq<Seq<char>>,
    header: bool,
    sep: Seq<char>,
    limit: usize,
    tab_width: usize,
) -> bool {
    let fits = lines.len() == 1 && columns(
        indent + (opener + " "@ + lines[0] + " */"@),
        tab_width as nat,
    ) <= limit;
    text == joined(framed_rows(opener, indent, lines, header, fits), sep)
}

/// Whether the opener of a block is to stand on a row of its own.
pub open spec fn opener_has_its_row(c: CommentText) -> bool {
    if style_of(c.text) == Style::Block {
        c.at_file_start
    } else {
        c.opener_alone() == Some(true)
    }
}

/// The words of a comment behind its markers, in order.
pub open spec fn written_words(text: Seq<char>) -> Seq<Seq<char>> {
    let marked = lines_stripped(source_lines(text), style_of(text));
    all_words_of(Seq::new(marked.len(), |r: int| marked[r].body))
}

/// How a block of one paragraph is laid out: its words fill lines behind a star, the opener
/// shares its row with the first of them, and the closer has a row of its own, unless all of it
/// fits on one row. At the start of the file, and for a documentation block that had it so, the
/// opener stands alone.
pub proof fn law_a_block_is_framed(
    c: CommentText,
    lang: Language,
    limit: usize,
    tab_width: usize,
)
    requires
        is_one_paragraph(c, lang),
        is_block(style_of(c.text)),
        c.relocate_before is None,
        narrow(' '),
        words_fit(c, c.line_indent_bytes + " * "@, lang, limit, tab_width),
        limit < usize::MAX,
    ensures
        ({
            let words = written_words(c.text);
            let indent = c.line_indent_bytes;
            let room = limit - columns(indent + " * "@, tab_width as nat);
            let opener = block_marker_of(c.text)->0;
            exists|starts: Seq<int>, sep: Seq<char>|
                fills(words, starts, room) && (sep == "\n"@ || sep == "\r\n"@) && #[trigger]
                    is_framed(
                    emitted(c, lang, limit, tab_width),
                    opener,
                    indent,
                    lines_of_words(words, starts),
                    opener_has_its_row(c),
                    sep,
                    limit,
                    tab_width,
                )
        }),
{
    let crlf = lemma_block_text(c, lang, limit, tab_width);
    let sep = eol_of(crlf);
    assert(sep == "\n"@ || sep == "\r\n"@);
}

/// How a block of one paragraph is laid out, with its separator.
#[verifier::spinoff_prover]
#[verifier::rlimit(60)]
proof fn lemma_block_text(c: CommentText, lang: Language, limit: usize, tab_width: usize) -> (crlf:
    bool)
    requires
        is_one_paragraph(c, lang),
        is_block(style_of(c.text)),
        c.relocate_before is None,
        words_fit(c, c.line_indent_bytes + " * "@, lang, limit, tab_width),
        limit < usize::MAX,
    ensures
        ({
            let words = written_words(c.text);
            let indent = c.line_indent_bytes;
            let room = limit - columns(indent + " * "@, tab_width as nat);
            let starts = line_starts(words, room as nat, 0);
            &&& fills(words, starts, room)
            &&& is_framed(
                emitted(c, lang, limit, tab_width),
                block_marker_of(c.text)->0,
                indent,
                lines_of_words(words, starts),
                opener_has_its_row(c),
                eol_of(crlf),
                limit,
                tab_width,
            )
        }),
{
    let doc = first_doc(c, lang, limit);
    let m = block_marker_of(c.text)->0;
    let words = written_words(c.text);
    let room = doc_room(doc, limit, tab_width);
    let starts = line_starts(words, room as nat, 0);
    let body = doc_lines(doc, limit, tab_width);
    assert(is_plain_prose(c, lang, limit)) by {
        law_ordinary_lines_read_as_prose(c, lang, limit);
    }
    lemma_block_facts(c, lang, limit, tab_width);
    lemma_block_body(c, lang, limit, tab_width);
    lemma_frames(doc, m, words, starts, body, limit, tab_width);
    lemma_block_emitted(c, lang, limit, tab_width)
}

/// A block of plain prose is emitted as its frame.
proof fn lemma_block_emitted(c: CommentText, lang: Language, limit: usize, tab_width: usize) -> (crlf:
    bool)
    requires
        is_plain_prose(c, lang, limit),
        is_block(style_of(c.text)),
    ensures
        ({
            let doc = first_doc(c, lang, limit);
            let m = block_marker_of(c.text)->0;
            let body = doc_lines(doc, limit, tab_width);
            let y = shared_text(doc, body[0]);
            emitted(c, lang, limit, tab_width) == joined(
                framed(doc, m, y, body, fits_one_row(doc, m, y, body, limit, tab_width)),
                eol_of(crlf),
            )
        }),
{
    crate::fit_laws::lemma_plain_forms(c, lang, limit, tab_width)
}

/// What a block is laid out behind.
proof fn lemma_block_facts(c: CommentText, lang: Language, limit: usize, tab_width: usize)
    requires
        is_plain_prose(c, lang, limit),
        is_block(style_of(c.text)),
        c.relocate_before is None,
    ensures
        ({
            let doc = first_doc(c, lang, limit);
            &&& doc.prefix() == c.line_indent_bytes + " * "@
            &&& doc.indent == c.line_indent_bytes
            &&& doc.is_file_header == opener_has_its_row(c)
        }),
{
    let doc = first_doc(c, lang, limit);
    lemma_first_facts(c, Seq::empty(), lang, limit, tab_width);
    let crlf = crate::fit_laws::lemma_plain_forms(c, lang, limit, tab_width);
    crate::block_settling::lemma_star_facts(doc);
    reveal(CommentText::normalized);
}

/// The body of a block of one paragraph is its words, filled.
proof fn lemma_block_body(c: CommentText, lang: Language, limit: usize, tab_width: usize)
    requires
        is_one_paragraph(c, lang),
        is_plain_prose(c, lang, limit),
        limit < usize::MAX,
        words_fit(c, first_doc(c, lang, limit).prefix(), lang, limit, tab_width),
    ensures
        ({
            let doc = first_doc(c, lang, limit);
            let words = words_of(doc_stretches(doc, limit, tab_width)[0].piece);
            let room = doc_room(doc, limit, tab_width);
            let starts = line_starts(words, room as nat, 0);
            &&& words == written_words(c.text)
            &&& room == limit - columns(doc.prefix(), tab_width as nat)
            &&& fills(words, starts, room as int)
            &&& doc_lines(doc, limit, tab_width) == rows_of(words, starts, doc.prefix())
            &&& all_words(words)
            &&& forall|i: int| 0 <= i < words.len() ==> plain_word(#[trigger] words[i])
        }),
{
    let doc = first_doc(c, lang, limit);
    let st = doc_stretches(doc, limit, tab_width);
    let marked = lines_stripped(source_lines(c.text), style_of(c.text));
    let texts = Seq::new(marked.len(), |r: int| marked[r].body);
    let room = doc_room(doc, limit, tab_width);
    law_ordinary_lines_read_as_prose(c, lang, limit);
    assert(texts =~= texts_from(c.body(kind_of(c.text, lang), limit), 0));
    lemma_one_stretch(c, lang, limit, tab_width);
    lemma_block_words(c, lang, limit, tab_width);
    let words = words_of(st[0].piece);
    assert forall|i: int| 0 <= i < words.len() implies plain_word(#[trigger] words[i])
        && narrow_word(words[i]) && words[i].len() <= room by {
        assert(plain_word(words[i]));
    }
    lemma_fills(words, room as nat);
    lemma_rows_are(st[0].piece, doc.prefix(), room as nat);
}

/// The words of the one stretch of a block.
proof fn lemma_block_words(c: CommentText, lang: Language, limit: usize, tab_width: usize)
    requires
        is_one_paragraph(c, lang),
        is_plain_prose(c, lang, limit),
        doc_stretches(first_doc(c, lang, limit), limit, tab_width).len() == 1,
        words_fit(c, first_doc(c, lang, limit).prefix(), lang, limit, tab_width),
    ensures
        ({
            let doc = first_doc(c, lang, limit);
            let s = doc_stretches(doc, limit, tab_width)[0];
            let words = words_of(s.piece);
            &&& words.len() > 0
            &&& all_words(words)
            &&& s.lines == wrapped_lines(
                s.piece,
                doc.prefix(),
                doc_room(doc, limit, tab_width) as nat,
                0,
            )
            &&& forall|i: int|
                0 <= i < words.len() ==> plain_word(#[trigger] words[i]) && narrow_word(words[i])
                    && columns(doc.prefix(), tab_width as nat) + words[i].len() <= limit
        }),
{
    let doc = first_doc(c, lang, limit);
    let st = doc_stretches(doc, limit, tab_width);
    let s = st[0];
    lemma_plain_stretches(c, lang, limit, tab_width);
    assert(crate::settling::sound_stretch(st[0], doc.style));
    assert(st[0].kind == ParagraphKind::Prose);
    crate::settling::lemma_stretch_of(doc, limit, tab_width, 0);
    lemma_plain_hang(s.piece, doc_room(doc, limit, tab_width), doc.flavor);
    lemma_words_are_words(s.piece);
    let words = words_of(s.piece);
    assert forall|x: int| 0 <= x < words.len() implies plain_word(#[trigger] words[x])
        && narrow_word(words[x]) && columns(doc.prefix(), tab_width as nat) + words[x].len()
        <= limit by {
        crate::fit_laws::lemma_piece_word(c, lang, limit, tab_width, 0, x);
    }
}

/// The frame around the lines of words.
proof fn lemma_frames(
    doc: DocText,
    m: Seq<char>,
    words: Seq<Seq<char>>,
    starts: Seq<int>,
    body: Seq<Seq<char>>,
    limit: usize,
    tab_width: usize,
)
    requires
        all_words(words),
        limit < usize::MAX,
        doc.prefix() == doc.indent + " * "@,
        fills(words, starts, doc_room(doc, limit, tab_width) as int),
        body == rows_of(words, starts, doc.prefix()),
        forall|i: int| 0 <= i < words.len() ==> plain_word(#[trigger] words[i]),
    ensures
        ({
            let y = shared_text(doc, body[0]);
            let one = fits_one_row(doc, m, y, body, limit, tab_width);
            framed(doc, m, y, body, one) == framed_rows(
                m,
                doc.indent,
                lines_of_words(words, starts),
                doc.is_file_header,
                starts.len() == 1 && columns(
                    doc.indent + (m + " "@ + lines_of_words(words, starts)[0] + " */"@),
                    tab_width as nat,
                ) <= limit,
            )
        }),
{
    reveal_strlit(" * ");
    let ls = lines_of_words(words, starts);
    let prefix = doc.prefix();
    let behind = Seq::new(ls.len(), |j: int| doc.indent + " * "@ + ls[j]);
    assert(body =~= behind);
    let y = shared_text(doc, body[0]);
    let e0 = if 1 < starts.len() {
        starts[1]
    } else {
        words.len() as int
    };
    assert(starts[0] == 0);
    if 1 < starts.len() {
        assert(starts[0] < starts[1]);
        assert(0 <= starts[1] < words.len());
    }
    crate::rows::lemma_line_shape(words, 0, e0);
    assert(ls[0] == crate::wrap::line_text(words, 0, e0));
    assert(body[0] == prefix + ls[0]);
    assert(body[0].subrange(0, prefix.len() as int) =~= prefix);
    assert(body[0].skip(prefix.len() as int) =~= ls[0]);
    crate::block_settling::lemma_trimmed_end(ls[0]);
    assert(y == ls[0]);
    let k = starts.len() - 1;
    assert(0 <= starts[k] < words.len());
    let part = words.subrange(starts[k], words.len() as int);
    assert(crate::words::is_word(words[words.len() - 1]));
    assert(plain_word(words[words.len() - 1]));
    assert(part.last() == words.last());
    assert(prefix.last() == ' ');
    crate::plain_form::lemma_stays_open(prefix, part);
    assert(body.last() == prefix + joined(part, " "@));
    let one = fits_one_row(doc, m, y, body, limit, tab_width);
    assert(framed(doc, m, y, body, one) =~= framed_rows(
        m,
        doc.indent,
        ls,
        doc.is_file_header,
        starts.len() == 1 && columns(
            doc.indent + (m + " "@ + ls[0] + " */"@),
            tab_width as nat,
        ) <= limit,
    ));
}

} // verus!
