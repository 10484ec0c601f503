//! No word of a comment is lost.

use crate::block_settling::first_row;
use crate::classify::{kind_of, style_of, Kind};
use crate::comment::CommentText;
use crate::final_form::{
    after_first, first_doc, lemma_emitted_forms, lemma_first_facts, stands_in_source,
};
use crate::language::Language;
use crate::laws::{
    law_paragraph_keeps_words, law_paragraphs_cover_text, law_return_split_keeps_words,
    law_wrapping_keeps_words, named_lines_from, named_texts, text_lines_from, wrapped_bodies,
};
use crate::normalize::{
    block_marker_of, index_range, line_marker_of, lines_stripped, paragraph_end, paragraphs_from,
    source_lines, DocText, LineKind, LineText, ParagraphKind, ParagraphText,
};
use crate::pieces::{lemma_has_words, lemma_pieces_have_words};
use crate::prose_form::{
    all_prose, is_text, lemma_blank_kind, lemma_block_said, lemma_line_said, lemma_stretch_proper,
    lemma_text_paragraphs, lemma_text_stretches, line_said, only_text,
};
use crate::reflow::{
    bare_prefix, behind_opener, is_block, paragraph_lines, piece_hang, piece_lines, prose_body,
    raw_line, stars_collapsed,
};
use crate::rows::is_break;
use crate::second_pass::{gap_lines, laid, paragraph_stretches, proper_stretch, stretches, Stretch};
use crate::settling::{
    closes, doc_lines, doc_room, doc_stretches, lemma_line_prefix, lemma_prose_shape, sound_stretch,
    sound_stretches,
};
use crate::text::{
    after_lead, all_in, in_class, lead_len, lead_run, lemma_lead_len, lemma_lead_len_facts,
    lemma_trail_len_facts, repeated, trimmed_end, words_of, CharClass,
};
use crate::textline::return_pieces;
use crate::words::{all_words_of, flat_words, lemma_white_back, lemma_white_front};
use crate::wrap::{law_lines_partition_words, wrapped_lines};
use vstd::prelude::*;

verus! {

/// The words of the first texts depend on those texts alone.
proof fn lemma_flat_same(a: Seq<Seq<char>>, b: Seq<Seq<char>>, n: int)
    requires
        0 <= n <= a.len(),
        n <= b.len(),
        forall|i: int| 0 <= i < n ==> words_of(#[trigger] a[i]) == words_of(b[i]),
    ensures
        flat_words(a, n) == flat_words(b, n),
    decreases n,
{
    if n > 0 {
        lemma_flat_same(a, b, n - 1);
        assert(words_of(a[n - 1]) == words_of(b[n - 1]));
    }
}

proof fn lemma_flat_behind(a: Seq<Seq<char>>, b: Seq<Seq<char>>, n: int)
    requires
        0 <= n <= b.len(),
    ensures
        flat_words(a + b, a.len() + n) == all_words_of(a) + flat_words(b, n),
    decreases n,
{
    let s = a + b;
    if n == 0 {
        assert forall|i: int| 0 <= i < a.len() implies words_of(#[trigger] s[i]) == words_of(
            a[i],
        ) by {
            assert(s[i] == a[i]);
        }
        lemma_flat_same(s, a, a.len() as int);
        assert(all_words_of(a) + Seq::<Seq<char>>::empty() =~= all_words_of(a));
    } else {
        lemma_flat_behind(a, b, n - 1);
        assert(s[a.len() + n - 1] == b[n - 1]);
        assert(all_words_of(a) + flat_words(b, n - 1) + words_of(b[n - 1]) =~= all_words_of(a) + (
        flat_words(b, n - 1) + words_of(b[n - 1])));
    }
}

/// The words of two lists of texts are those of the first and those of the
/// second.
pub proof fn lemma_words_concat(a: Seq<Seq<char>>, b: Seq<Seq<char>>)
    ensures
        all_words_of(a + b) == all_words_of(a) + all_words_of(b),
{
    lemma_flat_behind(a, b, b.len() as int);
}

proof fn lemma_words_one(s: Seq<char>)
    ensures
        all_words_of(seq![s]) == words_of(s),
{
    assert(flat_words(seq![s], 0) =~= Seq::<Seq<char>>::empty());
    assert(flat_words(seq![s], 1) =~= words_of(s));
}

/// What the lines of a comment's body say.
pub open spec fn lines_said(body: Seq<Seq<char>>, prefix: Seq<char>) -> Seq<Seq<char>> {
    Seq::new(body.len(), |k: int| line_said(body, k, prefix))
}

/// The pieces of the stretches.
pub open spec fn stretch_pieces(st: Seq<Stretch>, n: int) -> Seq<Seq<char>> {
    Seq::new(n as nat, |i: int| st[i].piece)
}

/// The lines of a stretch of prose say the words of its piece.
proof fn lemma_stretch_words(
    doc: DocText,
    s: Stretch,
    prefix: Seq<char>,
    effective: usize,
    inline_opener: bool,
)
    requires
        s.kind == ParagraphKind::Prose,
        proper_stretch(doc, s, prefix, effective, inline_opener),
        words_of(s.piece).len() > 0,
        bare_prefix(prefix).len() < prefix.len(),
    ensures
        all_words_of(lines_said(s.lines, prefix)) == words_of(s.piece),
{
    let hang = piece_hang(s.piece, effective, doc.flavor);
    let bodies = wrapped_bodies(s.piece, effective as nat, hang);
    let said = lines_said(s.lines, prefix);
    assert(said.len() == bodies.len());
    assert forall|j: int| 0 <= j < said.len() implies words_of(#[trigger] said[j]) == words_of(
        bodies[j],
    ) by {
        let (n, own) = lemma_prose_shape(doc, s, prefix, effective, inline_opener, j);
        assert(own == bodies[j]);
        let pad = repeated(' ', n);
        assert(all_in(pad, CharClass::White));
        assert(said[j] =~= pad + own);
        lemma_white_front(pad, own);
    }
    lemma_flat_same(said, bodies, said.len() as int);
    law_wrapping_keeps_words(s.piece, effective as nat, hang);
}

proof fn lemma_laid_words(
    doc: DocText,
    st: Seq<Stretch>,
    n: int,
    prefix: Seq<char>,
    effective: usize,
    inline_opener: bool,
)
    requires
        0 <= n <= st.len(),
        all_prose(st),
        forall|i: int|
            0 <= i < st.len() ==> proper_stretch(
                doc,
                #[trigger] st[i],
                prefix,
                effective,
                inline_opener,
            ) && words_of(st[i].piece).len() > 0,
        bare_prefix(prefix).len() < prefix.len(),
    ensures
        all_words_of(lines_said(laid(st, n, prefix), prefix)) == all_words_of(
            stretch_pieces(st, n),
        ),
    decreases n,
{
    if n <= 0 {
        assert(lines_said(laid(st, n, prefix), prefix) =~= stretch_pieces(st, n));
    } else {
        lemma_laid_words(doc, st, n - 1, prefix, effective, inline_opener);
        let s = st[n - 1];
        assert(s.kind == ParagraphKind::Prose);
        lemma_stretch_words(doc, s, prefix, effective, inline_opener);
        let a = laid(st, n - 1, prefix);
        let g = gap_lines(st, n - 1, prefix);
        assert(lines_said(a + g + s.lines, prefix) =~= lines_said(a, prefix) + lines_said(
            g,
            prefix,
        ) + lines_said(s.lines, prefix));
        lemma_words_concat(
            lines_said(a, prefix) + lines_said(g, prefix),
            lines_said(s.lines, prefix),
        );
        lemma_words_concat(lines_said(a, prefix), lines_said(g, prefix));
        assert(all_words_of(lines_said(g, prefix)) =~= Seq::<Seq<char>>::empty()) by {
            if g.len() > 0 {
                let none = Seq::<char>::empty();
                assert(lines_said(g, prefix) =~= seq![none]);
                lemma_words_one(none);
                crate::words::lemma_no_words(none);
            }
        }
        assert(stretch_pieces(st, n) =~= stretch_pieces(st, n - 1) + seq![s.piece]);
        lemma_words_concat(stretch_pieces(st, n - 1), seq![s.piece]);
        lemma_words_one(s.piece);
        let w = all_words_of(lines_said(a, prefix));
        assert(w + Seq::<Seq<char>>::empty() =~= w);
    }
}

/// The lines that the first `n` paragraphs name.
pub open spec fn named_upto(paras: Seq<ParagraphText>, n: int) -> Seq<usize>
    decreases n,
{
    if n <= 0 {
        Seq::empty()
    } else {
        named_upto(paras, n - 1) + paras[n - 1].line_indices
    }
}

proof fn lemma_named_split(paras: Seq<ParagraphText>, n: int)
    requires
        0 <= n <= paras.len(),
    ensures
        named_upto(paras, n) + named_lines_from(paras, n) == named_lines_from(paras, 0),
    decreases n,
{
    if n == 0 {
        assert(named_upto(paras, 0) + named_lines_from(paras, 0) =~= named_lines_from(paras, 0));
    } else {
        lemma_named_split(paras, n - 1);
        assert(named_upto(paras, n) + named_lines_from(paras, n) =~= named_upto(paras, n - 1)
            + named_lines_from(paras, n - 1));
    }
}

/// The pieces of prose paragraphs hold the words of the lines that those name.
proof fn lemma_paragraph_pieces(
    doc: DocText,
    n: int,
    prefix: Seq<char>,
    effective: usize,
    inline_opener: bool,
)
    requires
        0 <= n <= doc.paragraphs.len(),
        forall|p: int|
            0 <= p < doc.paragraphs.len() ==> (#[trigger] doc.paragraphs[p]).kind
                == ParagraphKind::Prose,
    ensures
        ({
            let st = stretches(doc, n, prefix, effective, inline_opener);
            all_words_of(stretch_pieces(st, st.len() as int)) == all_words_of(
                named_texts(doc, named_upto(doc.paragraphs, n)),
            )
        }),
    decreases n,
{
    let st = stretches(doc, n, prefix, effective, inline_opener);
    if n == 0 {
        assert(stretch_pieces(st, st.len() as int) =~= named_texts(
            doc,
            named_upto(doc.paragraphs, n),
        ));
    } else {
        lemma_paragraph_pieces(doc, n - 1, prefix, effective, inline_opener);
        let a = stretches(doc, n - 1, prefix, effective, inline_opener);
        let para = doc.paragraphs[n - 1];
        let own = paragraph_stretches(doc, para, prefix, effective, inline_opener);
        let pieces = return_pieces(prose_body(doc, para.line_indices));
        assert(stretch_pieces(st, st.len() as int) =~= stretch_pieces(a, a.len() as int) + pieces);
        lemma_words_concat(stretch_pieces(a, a.len() as int), pieces);
        law_paragraph_keeps_words(doc, para.line_indices);
        let before = named_upto(doc.paragraphs, n - 1);
        assert(named_texts(doc, before + para.line_indices) =~= named_texts(doc, before)
            + named_texts(doc, para.line_indices));
        lemma_words_concat(named_texts(doc, before), named_texts(doc, para.line_indices));
    }
}

/// The texts of the lines from `i` on.
pub open spec fn texts_from(lines: Seq<LineText>, i: int) -> Seq<Seq<char>> {
    Seq::new((lines.len() - i) as nat, |k: int| lines[i + k].text)
}

/// Blank lines have no words.
proof fn lemma_text_lines_words(doc: DocText, i: int)
    requires
        0 <= i <= doc.lines.len() <= usize::MAX,
        forall|k: int|
            0 <= k < doc.lines.len() && (#[trigger] doc.lines[k]).kind == LineKind::Blank
                ==> words_of(doc.lines[k].text).len() == 0,
    ensures
        all_words_of(named_texts(doc, text_lines_from(doc.lines, i))) == all_words_of(
            texts_from(doc.lines, i),
        ),
    decreases doc.lines.len() - i,
{
    let lines = doc.lines;
    if i == lines.len() {
        assert(named_texts(doc, text_lines_from(lines, i)) =~= texts_from(lines, i));
    } else {
        lemma_text_lines_words(doc, i + 1);
        let own = lines[i].text;
        assert(texts_from(lines, i) =~= seq![own] + texts_from(lines, i + 1));
        lemma_words_concat(seq![own], texts_from(lines, i + 1));
        lemma_words_one(own);
        let rest = named_texts(doc, text_lines_from(lines, i + 1));
        if lines[i].kind == LineKind::Blank {
            assert(words_of(own) =~= Seq::<Seq<char>>::empty());
            assert(words_of(own) + all_words_of(rest) =~= all_words_of(rest));
        } else {
            assert(named_texts(doc, text_lines_from(lines, i)) =~= seq![own] + rest);
            lemma_words_concat(seq![own], rest);
        }
    }
}

/// A paragraph opens with a line that is not blank.
proof fn lemma_paragraph_opens(lines: Seq<LineText>, i: int, blank: bool, p: int)
    requires
        0 <= i <= lines.len() <= usize::MAX,
        0 <= p < paragraphs_from(lines, i, blank).len(),
    ensures
        ({
            let para = paragraphs_from(lines, i, blank)[p];
            &&& para.line_indices.len() > 0
            &&& forall|k: int|
                0 <= k < para.line_indices.len() ==> (#[trigger] para.line_indices[k])
                    < lines.len()
            &&& lines[para.line_indices[0] as int].kind != LineKind::Blank
        }),
    decreases lines.len() - i,
{
    if i < lines.len() {
        if lines[i].kind == LineKind::Blank {
            lemma_paragraph_opens(lines, i + 1, true, p);
        } else {
            let k = crate::normalize::opens_kind(lines[i].kind);
            crate::normalize::lemma_paragraph_end(lines, i + 1, k);
            let end = paragraph_end(lines, i + 1, k);
            let all = paragraphs_from(lines, i, blank);
            if p == 0 {
                assert(all[0].line_indices == index_range(i, end));
                assert(all[0].line_indices[0] == i as usize);
            } else {
                lemma_paragraph_opens(lines, end, false, p - 1);
                assert(all[p] == paragraphs_from(lines, end, false)[p - 1]);
            }
        }
    }
}

proof fn lemma_flat_grows(texts: Seq<Seq<char>>, n: int)
    requires
        1 <= n <= texts.len(),
    ensures
        flat_words(texts, n).len() >= words_of(texts[0]).len(),
    decreases n,
{
    if n > 1 {
        lemma_flat_grows(texts, n - 1);
    }
}

/// The pieces of a comment of text have words.
pub proof fn lemma_text_pieces(
    doc: DocText,
    n: int,
    prefix: Seq<char>,
    effective: usize,
    inline_opener: bool,
    i: int,
)
    requires
        doc.lines.len() <= usize::MAX,
        doc.paragraphs == paragraphs_from(doc.lines, 0, false),
        0 <= n <= doc.paragraphs.len(),
        forall|p: int|
            0 <= p < doc.paragraphs.len() ==> (#[trigger] doc.paragraphs[p]).kind
                == ParagraphKind::Prose,
        forall|k: int|
            0 <= k < doc.lines.len() && (#[trigger] doc.lines[k]).kind != LineKind::Blank
                ==> words_of(doc.lines[k].text).len() > 0,
        0 <= i < stretches(doc, n, prefix, effective, inline_opener).len(),
    ensures
        words_of(stretches(doc, n, prefix, effective, inline_opener)[i].piece).len() > 0,
    decreases n,
{
    let a = stretches(doc, n - 1, prefix, effective, inline_opener);
    let para = doc.paragraphs[n - 1];
    let own = paragraph_stretches(doc, para, prefix, effective, inline_opener);
    let st = a + own;
    if i < a.len() {
        lemma_text_pieces(doc, n - 1, prefix, effective, inline_opener, i);
        assert(st[i] == a[i]);
    } else {
        let body = prose_body(doc, para.line_indices);
        assert(st[i] == own[i - a.len()]);
        assert(st[i].piece == return_pieces(body)[i - a.len()]);
        lemma_paragraph_opens(doc.lines, 0, false, n - 1);
        law_paragraph_keeps_words(doc, para.line_indices);
        law_return_split_keeps_words(body);
        let texts = named_texts(doc, para.line_indices);
        lemma_flat_grows(texts, texts.len() as int);
        assert(words_of(body).len() > 0);
        lemma_pieces_have_words(body);
    }
}

/// The comment holds running text, and is laid out as it is: no tag of it is
/// converted, and it is no manual page.
pub open spec fn is_text_comment(c: CommentText, lang: Language, limit: usize) -> bool {
    let kind = kind_of(c.text, lang);
    let lines = c.body(kind, limit);
    &&& c.page(kind, lang, limit) is None
    &&& c.final_lines(kind, lang, limit) == lines
    &&& lines.len() <= usize::MAX
    &&& only_text(lines)
    &&& exists|i: int| 0 <= i < lines.len() && (#[trigger] lines[i]).kind != LineKind::Blank
}

/// No line that is emitted for a block closes it.
pub open spec fn stays_open(doc: DocText, limit: usize, tab_width: usize) -> bool {
    let st = doc_stretches(doc, limit, tab_width);
    is_block(doc.style) ==> forall|i: int, j: int|
        0 <= i < st.len() && 0 <= j < st[i].lines.len() ==> !closes(#[trigger] st[i].lines[j])
}

/// Lines with text make a paragraph.
proof fn lemma_some_paragraph(lines: Seq<LineText>, i: int, blank: bool, k: int)
    requires
        0 <= i <= k < lines.len(),
        lines[k].kind != LineKind::Blank,
    ensures
        paragraphs_from(lines, i, blank).len() > 0,
    decreases lines.len() - i,
{
    if lines[i].kind == LineKind::Blank {
        lemma_some_paragraph(lines, i + 1, true, k);
    }
}

/// The stretches of a comment of text.
#[verifier::spinoff_prover]
#[verifier::rlimit(40)]
pub proof fn lemma_text_words(c: CommentText, lang: Language, limit: usize, tab_width: usize)
    requires
        stands_in_source(c),
        is_text_comment(c, lang, limit),
    ensures
        ({
            let doc = first_doc(c, lang, limit);
            let st = doc_stretches(doc, limit, tab_width);
            &&& all_prose(st)
            &&& st.len() > 0
            &&& forall|i: int| 0 <= i < st.len() ==> sound_stretch(#[trigger] st[i], doc.style)
            &&& all_words_of(stretch_pieces(st, st.len() as int)) == all_words_of(
                texts_from(doc.lines, 0),
            )
        }),
{
    reveal(doc_stretches);
    let kind = kind_of(c.text, lang);
    let doc = first_doc(c, lang, limit);
    let prefix = doc.prefix();
    let effective = doc_room(doc, limit, tab_width);
    let inline = is_block(doc.style);
    let st = doc_stretches(doc, limit, tab_width);
    let n = doc.paragraphs.len() as int;
    lemma_first_facts(c, Seq::empty(), lang, limit, tab_width);
    let lines = doc.lines;
    let some = choose|i: int| 0 <= i < lines.len() && (#[trigger] lines[i]).kind != LineKind::Blank;
    lemma_some_paragraph(lines, 0, false, some);
    lemma_text_paragraphs(lines, 0, false);
    lemma_text_stretches(doc, n, prefix, effective, inline);
    assert forall|k: int| 0 <= k < lines.len() implies ((#[trigger] lines[k]).kind
        == LineKind::Blank) == (words_of(lines[k].text).len() == 0) by {
        assert(is_text(lines[k].kind));
        lemma_blank_kind(c, kind, limit, k);
        lemma_has_words(lines[k].text);
    }
    crate::second_pass::lemma_laid_body(doc, n, prefix, effective, inline);
    assert forall|i: int| 0 <= i < st.len() implies sound_stretch(#[trigger] st[i], doc.style) by {
        lemma_text_pieces(doc, n, prefix, effective, inline, i);
        lemma_stretch_proper(doc, limit, tab_width, i);
        let s = st[i];
        assert(s.kind == ParagraphKind::Prose);
        law_lines_partition_words(
            words_of(s.piece),
            effective as nat,
            piece_hang(s.piece, effective, doc.flavor),
        );
    }
    lemma_paragraph_pieces(doc, n, prefix, effective, inline);
    lemma_named_split(doc.paragraphs, n);
    assert(named_upto(doc.paragraphs, n) =~= named_lines_from(doc.paragraphs, 0));
    law_paragraphs_cover_text(lines);
    lemma_text_lines_words(doc, 0);
}

/// The stretches of a comment of text that no line closes.
pub proof fn lemma_text_comment(c: CommentText, lang: Language, limit: usize, tab_width: usize)
    requires
        stands_in_source(c),
        is_text_comment(c, lang, limit),
        stays_open(first_doc(c, lang, limit), limit, tab_width),
    ensures
        ({
            let doc = first_doc(c, lang, limit);
            let st = doc_stretches(doc, limit, tab_width);
            &&& all_prose(st)
            &&& sound_stretches(st, doc.style)
            &&& all_words_of(stretch_pieces(st, st.len() as int)) == all_words_of(
                texts_from(doc.lines, 0),
            )
        }),
{
    lemma_text_words(c, lang, limit, tab_width);
}

/// The row without the blanks and the stars that it starts with.
pub open spec fn behind_stars(row: Seq<char>) -> Seq<char> {
    after_lead(after_lead(row, CharClass::Blank), CharClass::One('*'))
}

/// What a line that keeps its layout says: a row or a banner its text, the first line
/// of a block what stands behind the opener, any other line of a block what stands
/// behind its stars, and a line comment its whole row.
pub open spec fn kept_says(
    doc: DocText,
    li: int,
    inline_opener: bool,
) -> Seq<char> {
    let line = doc.lines[li];
    let opener_line = inline_opener && li == 0;
    if (line.kind == LineKind::LabelRow || line.kind == LineKind::Banner) && !opener_line {
        line.text
    } else if !is_block(doc.style) {
        line.raw
    } else if opener_line {
        behind_opener(line.raw, doc.opener_or("/*"@))
    } else {
        behind_stars(line.raw)
    }
}

/// What the emitted line says, read in the same way.
pub open spec fn kept_said(
    doc: DocText,
    li: int,
    row: Seq<char>,
    prefix: Seq<char>,
    inline_opener: bool,
) -> Seq<char> {
    let line = doc.lines[li];
    let opener_line = inline_opener && li == 0;
    if (line.kind == LineKind::LabelRow || line.kind == LineKind::Banner) && !opener_line || (
    is_block(doc.style) && opener_line) {
        if row.len() > prefix.len() {
            row.skip(prefix.len() as int)
        } else {
            Seq::empty()
        }
    } else if !is_block(doc.style) {
        row
    } else {
        behind_stars(row)
    }
}

/// White space that is trimmed behind a prefix takes no word along.
proof fn lemma_trimmed_behind_prefix(prefix: Seq<char>, s: Seq<char>)
    ensures
        ({
            let row = trimmed_end(prefix + s);
            let rest = if row.len() > prefix.len() {
                row.skip(prefix.len() as int)
            } else {
                Seq::empty()
            };
            words_of(rest) == words_of(s)
        }),
{
    let all = prefix + s;
    let row = trimmed_end(all);
    lemma_trail_len_facts(all, CharClass::White);
    if row.len() > prefix.len() {
        let rest = row.skip(prefix.len() as int);
        let tail = s.skip(rest.len() as int);
        assert(s =~= rest + tail);
        assert(all_in(tail, CharClass::White)) by {
            assert forall|i: int| 0 <= i < tail.len() implies in_class(
                #[trigger] tail[i],
                CharClass::White,
            ) by {
                assert(tail[i] == all[row.len() + i]);
            }
        }
        lemma_white_back(rest, tail);
    } else {
        assert(all_in(s, CharClass::White)) by {
            assert forall|i: int| 0 <= i < s.len() implies in_class(
                #[trigger] s[i],
                CharClass::White,
            ) by {
                assert(s[i] == all[prefix.len() + i]);
            }
        }
        crate::words::lemma_no_words(s);
        crate::words::lemma_no_words(Seq::empty());
    }
}

/// Shrinking a run of stars to one leaves what stands behind it.
proof fn lemma_stars_collapsed(raw: Seq<char>)
    ensures
        behind_stars(stars_collapsed(raw)) == behind_stars(raw),
{
    reveal_strlit("*");
    let ws = lead_run(raw, CharClass::Blank);
    let rest = after_lead(raw, CharClass::Blank);
    lemma_lead_len_facts(raw, CharClass::Blank);
    lemma_lead_len_facts(rest, CharClass::One('*'));
    let stars = lead_len(rest, CharClass::One('*')) as int;
    let behind = rest.skip(stars);
    let r = stars_collapsed(raw);
    if r != raw {
        let n = ws.len() as int;
        assert forall|i: int| 0 <= i < n implies in_class(#[trigger] r[i], CharClass::Blank) by {
            assert(r[i] == raw[i]);
        }
        assert(r[n] == '*');
        lemma_lead_len(r, CharClass::Blank, n);
        let t = after_lead(r, CharClass::Blank);
        assert(t =~= "*"@ + behind);
        if behind.len() > 0 {
            assert(t[1] == behind[0]);
        }
        lemma_lead_len(t, CharClass::One('*'), 1);
        assert(after_lead(t, CharClass::One('*')) =~= behind);
    }
}

/// A line that keeps its layout keeps its words: fences, tables, code, quotations,
/// drawings, rows and banners alike.
pub proof fn law_kept_line_keeps_words(
    doc: DocText,
    li: int,
    prefix: Seq<char>,
    inline_opener: bool,
)
    ensures
        words_of(
            kept_said(doc, li, raw_line(doc, li, prefix, inline_opener), prefix, inline_opener),
        ) == words_of(kept_says(doc, li, inline_opener)),
{
    let line = doc.lines[li];
    lemma_trimmed_behind_prefix(prefix, line.text);
    lemma_trimmed_behind_prefix(prefix, behind_opener(line.raw, doc.opener_or("/*"@)));
    lemma_stars_collapsed(line.raw);
}

/// The lines of the first `n` pieces of a paragraph say the words of those pieces.
proof fn lemma_pieces_said(
    doc: DocText,
    pieces: Seq<Seq<char>>,
    n: int,
    prefix: Seq<char>,
    effective: usize,
)
    requires
        0 <= n <= pieces.len(),
        forall|i: int| 0 <= i < pieces.len() ==> words_of(#[trigger] pieces[i]).len() > 0,
        bare_prefix(prefix).len() < prefix.len(),
    ensures
        all_words_of(lines_said(piece_lines(pieces, n, prefix, effective, doc.flavor), prefix))
            == all_words_of(pieces.take(n)),
    decreases n,
{
    if n <= 0 {
        assert(lines_said(piece_lines(pieces, n, prefix, effective, doc.flavor), prefix)
            =~= pieces.take(n));
    } else {
        lemma_pieces_said(doc, pieces, n - 1, prefix, effective);
        let piece = pieces[n - 1];
        let s = Stretch {
            kind: ParagraphKind::Prose,
            gap: false,
            piece,
            lines: wrapped_lines(
                piece,
                prefix,
                effective as nat,
                piece_hang(piece, effective, doc.flavor),
            ),
        };
        lemma_stretch_words(doc, s, prefix, effective, false);
        let a = piece_lines(pieces, n - 1, prefix, effective, doc.flavor);
        let g = if n > 1 {
            seq![bare_prefix(prefix)]
        } else {
            Seq::empty()
        };
        assert(lines_said(a + g + s.lines, prefix) =~= lines_said(a, prefix) + lines_said(
            g,
            prefix,
        ) + lines_said(s.lines, prefix));
        lemma_words_concat(
            lines_said(a, prefix) + lines_said(g, prefix),
            lines_said(s.lines, prefix),
        );
        lemma_words_concat(lines_said(a, prefix), lines_said(g, prefix));
        assert(all_words_of(lines_said(g, prefix)) =~= Seq::<Seq<char>>::empty()) by {
            if g.len() > 0 {
                let none = Seq::<char>::empty();
                assert(lines_said(g, prefix) =~= seq![none]);
                lemma_words_one(none);
                crate::words::lemma_no_words(none);
            }
        }
        assert(pieces.take(n) =~= pieces.take(n - 1) + seq![piece]);
        lemma_words_concat(pieces.take(n - 1), seq![piece]);
        lemma_words_one(piece);
        let w = all_words_of(lines_said(a, prefix));
        assert(w + Seq::<Seq<char>>::empty() =~= w);
    }
}

/// Every paragraph of a comment keeps its words, in order: prose behind the prefix,
/// however it wraps, a header on its line, and lines that keep their layout one by one.
/// The paragraphs of a comment name all its lines that are not blank.
pub proof fn law_every_paragraph_keeps_words(
    doc: DocText,
    para: ParagraphText,
    prefix: Seq<char>,
    effective: usize,
    inline_opener: bool,
)
    requires
        bare_prefix(prefix).len() < prefix.len(),
        para.kind == ParagraphKind::Prose ==> words_of(
            prose_body(doc, para.line_indices),
        ).len() > 0,
        para.kind == ParagraphKind::AtxHeader ==> para.line_indices.len() == 1,
    ensures
        ({
            let lines = paragraph_lines(doc, para, prefix, effective, inline_opener);
            match para.kind {
                ParagraphKind::Prose => all_words_of(lines_said(lines, prefix)) == all_words_of(
                    named_texts(doc, para.line_indices),
                ),
                ParagraphKind::AtxHeader => lines.len() == 1 && words_of(
                    lines[0].skip(prefix.len() as int),
                ) == words_of(doc.lines[para.line_indices[0] as int].text),
                ParagraphKind::Preformatted => lines.len() == para.line_indices.len() && forall|
                    j: int,
                |
                    0 <= j < lines.len() ==> words_of(
                        kept_said(
                            doc,
                            para.line_indices[j] as int,
                            #[trigger] lines[j],
                            prefix,
                            inline_opener,
                        ),
                    ) == words_of(kept_says(doc, para.line_indices[j] as int, inline_opener)),
            }
        }),
{
    let lines = paragraph_lines(doc, para, prefix, effective, inline_opener);
    match para.kind {
        ParagraphKind::Prose => {
            let body = prose_body(doc, para.line_indices);
            let pieces = return_pieces(body);
            lemma_pieces_have_words(body);
            lemma_pieces_said(doc, pieces, pieces.len() as int, prefix, effective);
            assert(pieces.take(pieces.len() as int) =~= pieces);
            law_paragraph_keeps_words(doc, para.line_indices);
        },
        ParagraphKind::AtxHeader => {
            let text = doc.lines[para.line_indices[0] as int].text;
            assert(lines[0].skip(prefix.len() as int) =~= crate::text::trimmed(text));
            crate::words::lemma_words_trimmed(text);
        },
        ParagraphKind::Preformatted => {
            assert forall|j: int| 0 <= j < lines.len() implies words_of(
                kept_said(
                    doc,
                    para.line_indices[j] as int,
                    #[trigger] lines[j],
                    prefix,
                    inline_opener,
                ),
            ) == words_of(kept_says(doc, para.line_indices[j] as int, inline_opener)) by {
                law_kept_line_keeps_words(
                    doc,
                    para.line_indices[j] as int,
                    prefix,
                    inline_opener,
                );
            }
        },
    }
}

/// The texts of a comment's lines behind their markers.
pub open spec fn marked_texts(d: CommentText, kind: Kind) -> Seq<Seq<char>> {
    let marked = lines_stripped(source_lines(d.text), kind.style);
    Seq::new(marked.len(), |r: int| marked[r].body)
}

/// No word of a comment is lost, added or moved: what is emitted for a comment
/// of text holds, without its markers, the words of the comment's lines.
pub proof fn law_comment_keeps_words(
    c: CommentText,
    brk: Seq<char>,
    lang: Language,
    limit: usize,
    tab_width: usize,
)
    requires
        stands_in_source(c),
        is_break(brk),
        is_block(style_of(c.text)) ==> brk.len() == 0,
        is_text_comment(c, lang, limit),
        stays_open(first_doc(c, lang, limit), limit, tab_width),
    ensures
        ({
            let kind = kind_of(c.text, lang);
            let d = after_first(c, brk, lang, limit, tab_width);
            all_words_of(marked_texts(d, kind)) == all_words_of(
                texts_from(c.body(kind, limit), 0),
            )
        }),
{
    reveal_strlit(" ");
    reveal_strlit(" *");
    reveal_strlit(" * ");
    let kind = kind_of(c.text, lang);
    let doc = first_doc(c, lang, limit);
    let st = doc_stretches(doc, limit, tab_width);
    let d = after_first(c, brk, lang, limit, tab_width);
    let body = doc_lines(doc, limit, tab_width);
    let prefix = doc.prefix();
    let from = first_row(doc);
    let texts = marked_texts(d, kind);
    lemma_first_facts(c, brk, lang, limit, tab_width);
    lemma_text_comment(c, lang, limit, tab_width);
    assert(st[0].kind == ParagraphKind::Prose);
    let crlf = lemma_emitted_forms(c, brk, lang, limit, tab_width);
    if is_block(doc.style) {
        lemma_block_said(doc, d, block_marker_of(c.text)->0, crlf, limit, tab_width);
        crate::block_settling::lemma_star_facts(doc);
    } else {
        let marker = line_marker_of(c.text)->0;
        lemma_line_said(doc, d, marker, crlf, brk, limit, tab_width);
        lemma_line_prefix(doc, marker);
    }
    let effective = doc_room(doc, limit, tab_width);
    let inline = is_block(doc.style);
    assert forall|i: int| 0 <= i < st.len() implies proper_stretch(
        doc,
        #[trigger] st[i],
        prefix,
        effective,
        inline,
    ) && words_of(st[i].piece).len() > 0 by {
        lemma_stretch_proper(doc, limit, tab_width, i);
        assert(sound_stretch(st[i], doc.style));
        assert(st[i].kind == ParagraphKind::Prose);
    }
    lemma_laid_words(doc, st, st.len() as int, prefix, effective, inline);
    lemma_said_words(texts, body, prefix, from);
}

/// Rows around a body add no words.
proof fn lemma_said_words(
    texts: Seq<Seq<char>>,
    body: Seq<Seq<char>>,
    prefix: Seq<char>,
    from: int,
)
    requires
        0 <= from,
        from + body.len() <= texts.len(),
        forall|r: int|
            0 <= r < texts.len() ==> #[trigger] texts[r] == if from <= r < from + body.len() {
                line_said(body, r - from, prefix)
            } else {
                Seq::empty()
            },
    ensures
        all_words_of(texts) == all_words_of(lines_said(body, prefix)),
{
    let n = body.len() as int;
    let front = texts.take(from);
    let back = texts.skip(from + n);
    assert(texts =~= front + lines_said(body, prefix) + back);
    lemma_words_concat(front + lines_said(body, prefix), back);
    lemma_words_concat(front, lines_said(body, prefix));
    lemma_empties(front, from);
    lemma_empties(back, back.len() as int);
    let w = all_words_of(lines_said(body, prefix));
    assert(all_words_of(front) + w + all_words_of(back) =~= w);
}

proof fn lemma_empties(texts: Seq<Seq<char>>, n: int)
    requires
        0 <= n <= texts.len(),
        forall|r: int| 0 <= r < texts.len() ==> (#[trigger] texts[r]).len() == 0,
    ensures
        flat_words(texts, n) == Seq::<Seq<char>>::empty(),
    decreases n,
{
    if n > 0 {
        lemma_empties(texts, n - 1);
        assert(texts[n - 1].len() == 0);
        crate::words::lemma_no_words(texts[n - 1]);
    }
}

} // verus!
