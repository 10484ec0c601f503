//! Comments of plain prose are in their final form after one pass.

use crate::block_settling::first_row;
use crate::classify::{kind_of, style_of, DocFlavor};
use crate::comment::CommentText;
use crate::comment_words::{
    is_text_comment, lemma_text_comment, lemma_text_words, stays_open, stretch_pieces, texts_from,
};
use crate::directive::acsl_annotation;
use crate::final_form::{
    after_first, emitted, first_doc, lemma_emitted_forms, lemma_first_facts, reads_as_emitted,
    stands_in_source,
};
use crate::language::Language;
use crate::laws::settled_line;
use crate::linekind::base_kind;
use crate::normalize::{
    block_marker_of, line_marker_of, lines_stripped, source_lines, DocText, LineKind, LineText,
    ParagraphKind,
};
use crate::plain_words::{
    lemma_plain_before, lemma_plain_final, lemma_plain_hang, lemma_plain_no_bookend,
    lemma_plain_opens, lemma_plain_piece, lemma_set_apart, plain_text, plain_word,
};
use crate::prose_form::{
    all_prose, ends_plainly, lemma_block_said, lemma_empty_no_bookend, lemma_keeps_bodies,
    lemma_line_said, line_said, rows_said,
};
use crate::reflow::{bare_prefix, is_block, piece_hang};
use crate::regroup::part_text;
use crate::rewrite::final_break;
use crate::rows::is_break;
use crate::second_pass::{lemma_line_of, stretches, Stretch};
use crate::settling::{
    closes, doc_lines, doc_room, doc_stretches, lemma_line_prefix, lemma_prose_shape,
    lemma_read_line, lemma_stretch_of, sound_stretch, stretch_starts,
};
use crate::source_laws::stays_readable;
use crate::text::{in_class, is_white, repeated, trimmed, words_of, CharClass};
use crate::text_form::{
    law_text_settles, lemma_text_reads_as_emitted, part_stands, reads_as_text, settles_as_text,
};
use crate::textline::{is_bookend, return_pieces};
use crate::words::{all_words, flat_words, is_word, lemma_words_are_words, lemma_words_joined};
use crate::wrap::{
    law_lines_partition_words, lemma_start_bounds, line_end, line_starts, line_text, packed,
};
use vstd::prelude::*;

verus! {

/// The comment can be read as a manual page: it is a block of C that stands between
/// a signature and a body.
pub open spec fn may_be_page(c: CommentText, lang: Language) -> bool {
    c.relocate_before is Some && lang.is_c_like() && is_block(style_of(c.text))
}

/// The lines of a comment are prose of plain words, and blank lines between.
pub open spec fn plain_lines(lines: Seq<LineText>) -> bool {
    forall|i: int|
        0 <= i < lines.len() ==> ((#[trigger] lines[i]).kind == LineKind::Prose || lines[i].kind
            == LineKind::Blank) && plain_text(lines[i].text)
}

/// The comment holds prose of plain words.
pub open spec fn is_plain_prose(c: CommentText, lang: Language, limit: usize) -> bool {
    let lines = c.body(kind_of(c.text, lang), limit);
    &&& stands_in_source(c)
    &&& !may_be_page(c, lang)
    &&& lines.len() <= usize::MAX
    &&& plain_lines(lines)
    &&& exists|i: int| 0 <= i < lines.len() && (#[trigger] lines[i]).kind != LineKind::Blank
}

/// A word of one of the texts is one of all their words.
pub proof fn lemma_word_among(texts: Seq<Seq<char>>, n: int, i: int, j: int) -> (k: int)
    requires
        0 <= i < n <= texts.len(),
        0 <= j < words_of(texts[i]).len(),
    ensures
        0 <= k < flat_words(texts, n).len(),
        flat_words(texts, n)[k] == words_of(texts[i])[j],
    decreases n,
{
    let before = flat_words(texts, n - 1);
    if i == n - 1 {
        before.len() + j
    } else {
        lemma_word_among(texts, n - 1, i, j)
    }
}

/// All words are plain where those of each text are.
proof fn lemma_all_plain(texts: Seq<Seq<char>>, n: int)
    requires
        0 <= n <= texts.len(),
        forall|i: int| 0 <= i < texts.len() ==> plain_text(#[trigger] texts[i]),
    ensures
        forall|k: int| 0 <= k < flat_words(texts, n).len() ==> plain_word(
            #[trigger] flat_words(texts, n)[k],
        ),
    decreases n,
{
    if n > 0 {
        lemma_all_plain(texts, n - 1);
        let before = flat_words(texts, n - 1);
        assert(plain_text(texts[n - 1]));
        assert forall|k: int| 0 <= k < flat_words(texts, n).len() implies plain_word(
            #[trigger] flat_words(texts, n)[k],
        ) by {
            if k < before.len() {
                assert(flat_words(texts, n)[k] == before[k]);
            } else {
                assert(flat_words(texts, n)[k] == words_of(texts[n - 1])[k - before.len()]);
            }
        }
    }
}

/// The comment is laid out as it is.
pub proof fn lemma_plain_doc(c: CommentText, lang: Language, limit: usize)
    requires
        is_plain_prose(c, lang, limit),
    ensures
        ({
            let kind = kind_of(c.text, lang);
            &&& c.page(kind, lang, limit) is None
            &&& c.final_lines(kind, lang, limit) == c.body(kind, limit)
            &&& first_doc(c, lang, limit).lines == c.body(kind, limit)
            &&& is_text_comment(c, lang, limit)
        }),
{
    let kind = kind_of(c.text, lang);
    let lines = c.body(kind, limit);
    lemma_plain_final(lines);
    reveal(CommentText::normalized);
    assert(crate::prose_form::only_text(lines)) by {
        assert forall|i: int| 0 <= i < lines.len() implies crate::prose_form::is_text(
            (#[trigger] lines[i]).kind,
        ) by {}
    }
}

/// A line of plain prose: words behind the prefix.
pub proof fn lemma_plain_own(doc: DocText, s: Stretch, effective: usize, j: int) -> (r: (int, int))
    requires
        s.kind == ParagraphKind::Prose,
        crate::second_pass::proper_stretch(doc, s, doc.prefix(), effective, is_block(doc.style)),
        plain_text(s.piece),
        words_of(s.piece).len() > 0,
        0 <= j < s.lines.len(),
    ensures
        ({
            let words = words_of(s.piece);
            let own = line_text(words, r.0, r.1);
            let starts = line_starts(words, effective as nat, 0);
            &&& r.0 == starts[j] && r.1 == line_end(words, starts, j) && j < starts.len()
            &&& 0 <= r.0 < r.1 <= words.len()
            &&& s.lines[j] == doc.prefix() + own
            &&& words_of(own) == words.subrange(r.0, r.1)
            &&& own.len() > 0
            &&& !is_white(own[0])
            &&& !is_white(own.last())
        }),
{
    let words = words_of(s.piece);
    let hang = piece_hang(s.piece, effective, doc.flavor);
    let starts = line_starts(words, effective as nat, hang);
    let prefix = doc.prefix();
    let (n, own) = lemma_prose_shape(doc, s, prefix, effective, is_block(doc.style), j);
    lemma_plain_hang(s.piece, effective, doc.flavor);
    lemma_words_are_words(s.piece);
    law_lines_partition_words(words, effective as nat, hang);
    lemma_start_bounds(starts, words.len() as int, j);
    if j + 1 < starts.len() {
        lemma_start_bounds(starts, words.len() as int, j + 1);
        assert(starts[j] < starts[j + 1]);
    }
    let a = starts[j];
    let b = line_end(words, starts, j);
    let part = words.subrange(a, b);
    assert(all_words(part)) by {
        assert forall|i: int| 0 <= i < part.len() implies is_word(#[trigger] part[i]) by {
            assert(is_word(words[a + i]));
        }
    }
    lemma_words_joined(part);
    assert(prefix + repeated(' ', 0) =~= prefix);
    (a, b)
}

/// No line of plain prose closes a block or reads as decoration.
proof fn lemma_prose_open(doc: DocText, s: Stretch, effective: usize, j: int)
    requires
        s.kind == ParagraphKind::Prose,
        crate::second_pass::proper_stretch(doc, s, doc.prefix(), effective, is_block(doc.style)),
        plain_text(s.piece),
        words_of(s.piece).len() > 0,
        0 <= j < s.lines.len(),
        doc.prefix().len() > 0,
        doc.prefix().last() == ' ',
    ensures
        !closes(s.lines[j]),
        !is_bookend(s.lines[j].skip(doc.prefix().len() as int)),
        plain_text(s.lines[j].skip(doc.prefix().len() as int)),
        !is_white(s.lines[j].skip(doc.prefix().len() as int)[0]),
{
    let words = words_of(s.piece);
    let (a, b) = lemma_plain_own(doc, s, effective, j);
    let own = line_text(words, a, b);
    let prefix = doc.prefix();
    let part = words.subrange(a, b);
    assert(s.lines[j].skip(prefix.len() as int) =~= own);
    assert forall|i: int| 0 <= i < words_of(own).len() implies plain_word(
        #[trigger] words_of(own)[i],
    ) by {
        assert(words_of(own)[i] == words[a + i]);
    }
    lemma_plain_no_bookend(own);
    lemma_words_are_words(s.piece);
    assert(is_word(words[b - 1]) && plain_word(words[b - 1]));
    assert(part.last() == words[b - 1]);
    lemma_stays_open(prefix, part);
}

/// A line that ends in a plain word does not close a block.
pub proof fn lemma_stays_open(prefix: Seq<char>, part: Seq<Seq<char>>)
    requires
        prefix.len() > 0,
        prefix.last() == ' ',
        part.len() > 0,
        plain_word(part.last()),
        is_word(part.last()),
    ensures
        !closes(prefix + crate::text::joined(part, " "@)),
{
    reveal_strlit("*/");
    let w = part.last();
    let own = crate::text::joined(part, " "@);
    let l = prefix + own;
    lemma_ends_in_word(part);
    let front = l.take(l.len() - w.len());
    assert(own.skip(own.len() - w.len())[w.len() - 1] == w.last());
    assert(l.last() == w.last());
    assert(in_class(w[w.len() - 1], CharClass::Solid));
    crate::block_settling::lemma_trimmed_end(l);
    assert(front.len() > 0 && front.last() == ' ') by {
        if part.len() > 1 {
            assert(front.last() == own[own.len() - w.len() - 1]);
        } else {
            assert(own == w);
            assert(front.last() == prefix.last());
        }
    }
    if closes(l) {
        let t = l.subrange(l.len() - 2, l.len() as int);
        assert(t == "*/"@);
        assert(t[0] == '*' && t[1] == '/');
        if w.len() >= 2 {
            assert(l[l.len() - 2] == own.skip(own.len() - w.len())[w.len() - 2]);
            assert(w.subrange(w.len() - 2, w.len() as int) =~= "*/"@);
        } else {
            assert(l[l.len() - 2] == front.last());
        }
    }
}

/// Joined words end in the last one, behind a space.
pub proof fn lemma_ends_in_word(ws: Seq<Seq<char>>)
    requires
        ws.len() > 0,
    ensures
        ({
            let s = crate::text::joined(ws, " "@);
            let w = ws.last();
            &&& s.len() >= w.len()
            &&& s.skip(s.len() - w.len()) == w
            &&& ws.len() > 1 ==> s.len() > w.len() && s[s.len() - w.len() - 1] == ' '
            &&& ws.len() == 1 ==> s == w
        }),
{
    reveal_strlit(" ");
    let s = crate::text::joined(ws, " "@);
    let w = ws.last();
    assert(s.skip(s.len() - w.len()) =~= w);
}

/// Stretches behind the first are set off by a gap.
proof fn lemma_gaps(doc: DocText, n: int, prefix: Seq<char>, effective: usize, inline_opener: bool)
    requires
        0 <= n <= doc.paragraphs.len(),
        forall|p: int|
            0 <= p < doc.paragraphs.len() ==> (#[trigger] doc.paragraphs[p]).kind
                == ParagraphKind::Prose && (p > 0 ==> doc.paragraphs[p].preceded_by_blank),
    ensures
        forall|i: int|
            0 < i < stretches(doc, n, prefix, effective, inline_opener).len() ==> (
            #[trigger] stretches(doc, n, prefix, effective, inline_opener)[i]).gap,
    decreases n,
{
    if n > 0 {
        lemma_gaps(doc, n - 1, prefix, effective, inline_opener);
        let a = stretches(doc, n - 1, prefix, effective, inline_opener);
        let para = doc.paragraphs[n - 1];
        let own = crate::second_pass::paragraph_stretches(
            doc,
            para,
            prefix,
            effective,
            inline_opener,
        );
        let all = a + own;
        assert forall|i: int| 0 < i < all.len() implies (#[trigger] all[i]).gap by {
            if i < a.len() {
                assert(all[i] == a[i]);
            } else {
                assert(all[i] == own[i - a.len()]);
                if n == 1 {
                    assert(a.len() == 0);
                }
            }
        }
    }
}

/// What the comment is laid out as: stretches of plain prose, with gaps between.
pub open spec fn plain_stretches(doc: DocText, limit: usize, tab_width: usize) -> bool {
    let st = doc_stretches(doc, limit, tab_width);
    &&& all_prose(st)
    &&& st.len() > 0
    &&& forall|i: int|
        0 <= i < st.len() ==> sound_stretch(#[trigger] st[i], doc.style) && plain_text(st[i].piece)
    &&& forall|i: int| 0 < i < st.len() ==> (#[trigger] st[i]).gap
    &&& doc.prefix().len() > 0
    &&& doc.prefix().last() == ' '
}

#[verifier::spinoff_prover]
pub proof fn lemma_plain_stretches(c: CommentText, lang: Language, limit: usize, tab_width: usize)
    requires
        is_plain_prose(c, lang, limit),
    ensures
        plain_stretches(first_doc(c, lang, limit), limit, tab_width),
{
    reveal_strlit(" ");
    reveal_strlit(" * ");
    let kind = kind_of(c.text, lang);
    let doc = first_doc(c, lang, limit);
    let st = doc_stretches(doc, limit, tab_width);
    let lines = c.body(kind, limit);
    lemma_plain_doc(c, lang, limit);
    lemma_text_words(c, lang, limit, tab_width);
    lemma_first_facts(c, Seq::empty(), lang, limit, tab_width);
    let pieces = stretch_pieces(st, st.len() as int);
    let texts = texts_from(lines, 0);
    assert forall|i: int| 0 <= i < texts.len() implies plain_text(#[trigger] texts[i]) by {
        assert(texts[i] == lines[i].text);
    }
    lemma_all_plain(texts, texts.len() as int);
    assert forall|i: int| 0 <= i < st.len() implies sound_stretch(#[trigger] st[i], doc.style)
        && plain_text(st[i].piece) by {
        assert(pieces[i] == st[i].piece);
        assert forall|j: int| 0 <= j < words_of(st[i].piece).len() implies plain_word(
            #[trigger] words_of(st[i].piece)[j],
        ) by {
            let k = lemma_word_among(pieces, pieces.len() as int, i, j);
            assert(plain_word(flat_words(texts, texts.len() as int)[k]));
        }
    }
    assert forall|i: int| 0 < i < st.len() implies (#[trigger] st[i]).gap by {
        reveal(doc_stretches);
        crate::prose_form::lemma_text_paragraphs(lines, 0, false);
        assert forall|p: int| 0 <= p < doc.paragraphs.len() implies (
        #[trigger] doc.paragraphs[p]).kind == ParagraphKind::Prose && (p > 0
            ==> doc.paragraphs[p].preceded_by_blank) by {
            if p > 0 {
                lemma_set_apart(lines, 0, false, p);
            }
        }
        lemma_gaps(
            doc,
            doc.paragraphs.len() as int,
            doc.prefix(),
            doc_room(doc, limit, tab_width),
            is_block(doc.style),
        );
    }
    if is_block(doc.style) {
        crate::block_settling::lemma_continues_behind_star(c, kind, lang, limit);
        crate::block_settling::lemma_star_facts(doc);
    } else {
        crate::final_form::lemma_plain_marker(c.text);
        lemma_line_prefix(doc, line_marker_of(c.text)->0);
    }
}

/// Plain words are not settled: their lines start where they were packed.
pub proof fn lemma_plain_starts(words: Seq<Seq<char>>, effective: nat, hang: nat)
    requires
        all_words(words),
        words.len() > 0,
        forall|i: int| 0 <= i < words.len() ==> plain_word(#[trigger] words[i]),
    ensures
        ({
            let rough = packed(words, words.len() as int, effective, hang).starts;
            &&& line_starts(words, effective, hang) == rough
            &&& forall|j: int| !#[trigger] settled_line(words, rough, j)
        }),
{
    let n = words.len() as int;
    let rough = packed(words, n, effective, hang).starts;
    crate::wrap::lemma_packed_valid(words, n, effective, hang);
    lemma_start_bounds(rough, n, rough.len() - 1);
    lemma_part_plain(words, rough.last(), n);
}

/// Plain words on a line are one piece, which does not hang.
proof fn lemma_part_alone(
    words: Seq<Seq<char>>,
    a: int,
    b: int,
    effective: usize,
    flavor: DocFlavor,
)
    requires
        all_words(words),
        forall|i: int| 0 <= i < words.len() ==> plain_word(#[trigger] words[i]),
        0 <= a < b <= words.len(),
    ensures
        return_pieces(line_text(words, a, b)) == seq![line_text(words, a, b)],
        piece_hang(line_text(words, a, b), effective, flavor) == 0,
{
    let text = line_text(words, a, b);
    lemma_part_plain(words, a, b);
    lemma_plain_piece(text);
    lemma_plain_hang(text, effective, flavor);
}

/// Any of the lines of a plain stretch can be a paragraph of their own.
#[verifier::spinoff_prover]
#[verifier::rlimit(60)]
proof fn lemma_plain_part(s: Stretch, a: int, b: int, effective: usize, flavor: DocFlavor)
    requires
        plain_text(s.piece),
        words_of(s.piece).len() > 0,
        0 <= a < b <= stretch_starts(s, effective, flavor).len(),
    ensures
        part_stands(s, a, b, effective, flavor),
{
    let words = words_of(s.piece);
    let hang = piece_hang(s.piece, effective, flavor);
    let starts = stretch_starts(s, effective, flavor);
    let text = part_text(words, starts, a, b);
    lemma_plain_hang(s.piece, effective, flavor);
    lemma_words_are_words(s.piece);
    lemma_plain_starts(words, effective as nat, hang);
    law_lines_partition_words(words, effective as nat, hang);
    crate::regroup::lemma_reach(words, starts, a, b);
    let e = crate::second_pass::reach(words, starts, b);
    lemma_part_alone(words, starts[a], e, effective, flavor);
    if a > 0 {
        lemma_plain_opens(words, words.len() as int, effective as nat, hang, a);
        assert(plain_word(words[starts[a]]));
    }
}

/// So can those of every stretch of a plain comment.
proof fn lemma_plain_parts(
    doc: DocText,
    limit: usize,
    tab_width: usize,
    i: int,
    a: int,
    b: int,
)
    requires
        plain_stretches(doc, limit, tab_width),
        0 <= i < doc_stretches(doc, limit, tab_width).len(),
        0 <= a < b <= doc_stretches(doc, limit, tab_width)[i].lines.len(),
    ensures
        part_stands(
            doc_stretches(doc, limit, tab_width)[i],
            a,
            b,
            doc_room(doc, limit, tab_width),
            doc.flavor,
        ),
{
    let s = doc_stretches(doc, limit, tab_width)[i];
    assert(sound_stretch(s, doc.style));
    assert(s.kind == ParagraphKind::Prose);
    lemma_stretch_of(doc, limit, tab_width, i);
    lemma_plain_part(s, a, b, doc_room(doc, limit, tab_width), doc.flavor);
}

/// Plain words on a line are plain text.
pub proof fn lemma_part_plain(words: Seq<Seq<char>>, a: int, b: int)
    requires
        all_words(words),
        forall|i: int| 0 <= i < words.len() ==> plain_word(#[trigger] words[i]),
        0 <= a < b <= words.len(),
    ensures
        plain_text(line_text(words, a, b)),
        !is_bookend(line_text(words, a, b)),
        trimmed(line_text(words, a, b)) == line_text(words, a, b),
        line_text(words, a, b).len() > 0,
{
    let part = words.subrange(a, b);
    let text = line_text(words, a, b);
    assert(all_words(part)) by {
        assert forall|i: int| 0 <= i < part.len() implies is_word(#[trigger] part[i]) by {
            assert(is_word(words[a + i]));
        }
    }
    lemma_words_joined(part);
    assert forall|i: int| 0 <= i < words_of(text).len() implies plain_word(
        #[trigger] words_of(text)[i],
    ) by {
        assert(words_of(text)[i] == words[a + i]);
    }
    lemma_plain_no_bookend(text);
    crate::rows::lemma_line_shape(words, a, b);
}

/// A body line of a plain comment.
proof fn lemma_plain_body(doc: DocText, limit: usize, tab_width: usize, k: int)
    requires
        plain_stretches(doc, limit, tab_width),
        0 <= k < doc_lines(doc, limit, tab_width).len(),
    ensures
        ({
            let line = doc_lines(doc, limit, tab_width)[k];
            let text = line_said(doc_lines(doc, limit, tab_width), k, doc.prefix());
            &&& plain_text(text)
            &&& !is_bookend(text)
            &&& line != bare_prefix(doc.prefix()) ==> !is_white(
                line.skip(doc.prefix().len() as int)[0],
            )
        }),
{
    let st = doc_stretches(doc, limit, tab_width);
    let prefix = doc.prefix();
    let body = doc_lines(doc, limit, tab_width);
    if body[k] == bare_prefix(prefix) {
        lemma_empty_no_bookend(Seq::empty());
        crate::words::lemma_no_words(Seq::empty());
    } else {
        let (i, j) = lemma_line_of(st, st.len() as int, k, prefix);
        assert(sound_stretch(st[i], doc.style));
        assert(st[i].kind == ParagraphKind::Prose);
        lemma_stretch_of(doc, limit, tab_width, i);
        lemma_prose_open(doc, st[i], doc_room(doc, limit, tab_width), j);
    }
}

/// No line of a plain comment closes it, and none ends a stretch as decoration.
pub proof fn lemma_plain_ends(doc: DocText, limit: usize, tab_width: usize)
    requires
        plain_stretches(doc, limit, tab_width),
    ensures
        stays_open(doc, limit, tab_width),
        ends_plainly(doc_stretches(doc, limit, tab_width), doc.prefix()),
{
    let st = doc_stretches(doc, limit, tab_width);
    assert forall|i: int, j: int| 0 <= i < st.len() && 0 <= j < st[i].lines.len() implies !closes(
        #[trigger] st[i].lines[j],
    ) && !is_bookend(st[i].lines[j].skip(doc.prefix().len() as int)) by {
        assert(sound_stretch(st[i], doc.style));
        assert(st[i].kind == ParagraphKind::Prose);
        lemma_stretch_of(doc, limit, tab_width, i);
        lemma_prose_open(doc, st[i], doc_room(doc, limit, tab_width), j);
    }
    assert forall|i: int| 0 <= i < st.len() implies !is_bookend(
        (#[trigger] st[i]).lines.last().skip(doc.prefix().len() as int),
    ) by {
        assert(sound_stretch(st[i], doc.style));
        let j = st[i].lines.len() - 1;
        assert(st[i].lines[j] == st[i].lines.last());
    }
}

/// What the emitted rows of a plain comment are read as: plain text, and nothing
/// open behind it.
#[verifier::spinoff_prover]
proof fn lemma_plain_again(
    c: CommentText,
    brk: Seq<char>,
    lang: Language,
    limit: usize,
    tab_width: usize,
)
    requires
        is_plain_prose(c, lang, limit),
        is_break(brk),
        is_block(style_of(c.text)) ==> brk.len() == 0,
    ensures
        ({
            let kind = kind_of(c.text, lang);
            let doc = first_doc(c, lang, limit);
            let d = after_first(c, brk, lang, limit, tab_width);
            let marked = lines_stripped(source_lines(d.text), doc.style);
            let lines = d.body(kind, limit);
            &&& kind_of(d.text, lang) == kind
            &&& !may_be_page(d, lang)
            &&& rows_said(
                marked,
                doc_lines(doc, limit, tab_width),
                doc.prefix(),
                first_row(doc),
            )
            &&& lines.len() == marked.len()
            &&& forall|r: int|
                0 <= r < lines.len() ==> (#[trigger] lines[r]).text == marked[r].body && plain_text(
                    lines[r].text,
                ) && (lines[r].text.len() == 0 ==> lines[r].kind == LineKind::Blank)
        }),
{
    let kind = kind_of(c.text, lang);
    let doc = first_doc(c, lang, limit);
    let d = after_first(c, brk, lang, limit, tab_width);
    let body = doc_lines(doc, limit, tab_width);
    let st = doc_stretches(doc, limit, tab_width);
    let from = first_row(doc);
    lemma_plain_doc(c, lang, limit);
    lemma_plain_stretches(c, lang, limit, tab_width);
    lemma_plain_ends(doc, limit, tab_width);
    lemma_text_comment(c, lang, limit, tab_width);
    lemma_first_facts(c, brk, lang, limit, tab_width);
    assert(st[0].kind == ParagraphKind::Prose);
    let crlf = lemma_emitted_forms(c, brk, lang, limit, tab_width);
    if is_block(doc.style) {
        lemma_block_said(doc, d, block_marker_of(c.text)->0, crlf, limit, tab_width);
    } else {
        lemma_line_said(doc, d, line_marker_of(c.text)->0, crlf, brk, limit, tab_width);
    }
    let raw = source_lines(d.text);
    let marked = lines_stripped(raw, doc.style);
    assert forall|r: int| 0 <= r < marked.len() implies !is_bookend((#[trigger] marked[r]).body)
        && plain_text(marked[r].body) by {
        if from <= r < from + body.len() {
            lemma_plain_body(doc, limit, tab_width, r - from);
        } else {
            lemma_empty_no_bookend(marked[r].body);
            crate::words::lemma_no_words(marked[r].body);
        }
    }
    lemma_keeps_bodies(d, kind);
    let plain = d.plain_lines(kind);
    let lines = d.body(kind, limit);
    assert forall|r: int| 0 <= r < plain.len() implies plain_text((#[trigger] plain[r]).body) by {
        assert(plain[r].body == marked[r].body);
    }
    assert forall|r: int| 0 <= r < lines.len() implies (#[trigger] lines[r]).text == marked[r].body
        && plain_text(lines[r].text) && (lines[r].text.len() == 0 ==> lines[r].kind
        == LineKind::Blank) by {
        lemma_read_line(d, kind, limit, r);
        assert(plain[r].body == marked[r].body);
        lemma_plain_before(plain, r);
        lemma_empty_no_bookend(Seq::empty());
        if marked[r].body.len() == 0 {
            assert(marked[r].body =~= Seq::empty());
            assert(base_kind(plain, r, kind.flavor) == LineKind::Blank);
        }
    }
}

/// Plain prose is stable: a second pass emits the same text again. The comment's
/// lines read as prose or are blank, no word of it is drawn with rules, opens a tag,
/// a `Return` sentence or a fence, or closes a block, and it is not where a manual
/// page would be. How the emitted lines read does not matter: a line that a wrap
/// starts with `#`, with a dash or with a number still goes out as it stands.
#[verifier::spinoff_prover]
#[verifier::rlimit(60)]
pub proof fn law_plain_prose_settles(
    c: CommentText,
    brk: Seq<char>,
    lang: Language,
    limit: usize,
    tab_width: usize,
)
    requires
        is_plain_prose(c, lang, limit),
        is_break(brk),
        is_block(style_of(c.text)) ==> brk.len() == 0,
        source_lines(after_first(c, brk, lang, limit, tab_width).text).len() <= usize::MAX,
    ensures
        settles_as_text(c, brk, lang, limit, tab_width),
        reads_as_emitted(c, brk, lang, limit, tab_width),
        ({
            let d = after_first(c, brk, lang, limit, tab_width);
            &&& kind_of(d.text, lang) == kind_of(c.text, lang)
            &&& emitted(d, lang, limit, tab_width) == emitted(c, lang, limit, tab_width)
        }),
{
    let kind = kind_of(c.text, lang);
    let doc = first_doc(c, lang, limit);
    let st = doc_stretches(doc, limit, tab_width);
    let body = doc_lines(doc, limit, tab_width);
    let d = after_first(c, brk, lang, limit, tab_width);
    let lines = d.body(kind, limit);
    let from = first_row(doc);
    lemma_plain_doc(c, lang, limit);
    lemma_plain_stretches(c, lang, limit, tab_width);
    lemma_plain_ends(doc, limit, tab_width);
    lemma_plain_again(c, brk, lang, limit, tab_width);
    lemma_plain_final(lines);
    assert forall|k: int|
        0 <= k < body.len() && (#[trigger] lines[from + k]).kind
            == LineKind::AtxHeader implies !is_white(body[k].skip(doc.prefix().len() as int)[0]) by {
        lemma_plain_body(doc, limit, tab_width, k);
        assert(lines[from + k].text == line_said(body, k, doc.prefix()));
    }
    assert forall|i: int, a: int, b: int|
        0 <= i < st.len() && 0 <= a < b <= st[i].lines.len() implies #[trigger] part_stands(
        st[i],
        a,
        b,
        doc_room(doc, limit, tab_width),
        doc.flavor,
    ) by {
        lemma_plain_parts(doc, limit, tab_width, i, a, b);
    }
    if from + body.len() < lines.len() {
        let r = lines.len() - 1;
        assert(lines[r].text.len() == 0);
    }
    assert(d.page(kind, lang, limit) is None);
    assert(d.final_lines(kind, lang, limit) == lines);
    assert(reads_as_text(c, brk, lang, limit, tab_width)) by {
        reveal(reads_as_text);
    }
    law_text_settles(c, brk, lang, limit, tab_width);
    lemma_text_reads_as_emitted(c, brk, lang, limit, tab_width);
}

/// A comment of plain prose that no other tool reads can be read again as a run leaves
/// it, which is what the laws on whole sources ask of it.
pub proof fn law_plain_prose_stays_readable(
    c: CommentText,
    lang: Language,
    limit: usize,
    tab_width: usize,
)
    requires
        is_plain_prose(c, lang, limit),
        is_break(final_break(c.text)),
        is_block(style_of(c.text)) ==> final_break(c.text).len() == 0,
        !acsl_annotation(c.text),
        !acsl_annotation(emitted(c, lang, limit, tab_width) + final_break(c.text)),
        c.relocate_before is None || !c.is_trailing,
        source_lines(
            after_first(c, final_break(c.text), lang, limit, tab_width).text,
        ).len() <= usize::MAX,
    ensures
        stays_readable(c, lang, limit, tab_width),
{
    law_plain_prose_settles(c, final_break(c.text), lang, limit, tab_width);
}

} // verus!
