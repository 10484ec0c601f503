//! Comments of text are in their final form after one pass.

use crate::block_settling::first_row;
use crate::classify::{kind_of, style_of, DocFlavor, Kind};
use crate::comment::CommentText;
use crate::comment_words::{is_text_comment, lemma_text_comment, stays_open};
use crate::final_form::{
    after_first, emitted, first_doc, law_second_pass_changes_nothing, lemma_emitted_forms,
    lemma_first_facts, reads_as_emitted, stands_in_source,
};
use crate::language::Language;
use crate::laws::settled_line;
use crate::linekind::base_kind;
use crate::normalize::{
    block_marker_of, index_range, joins_above, line_marker_of, lines_stripped, paragraphs_from,
    preformatted, source_lines, LineKind, LineText, ParagraphKind, ParagraphText,
};
use crate::prose_form::{
    ends_plainly, lemma_block_said, lemma_empty_no_bookend, lemma_keeps_bodies, lemma_line_said,
    lemma_prose_said, rows_said,
};
use crate::reflow::{bare_prefix, is_block, piece_hang};
use crate::regroup::{blank_fits, blanks_fit, part_text, stands_alone_as};
use crate::rows::is_break;
use crate::second_pass::{gap_lines, laid, lemma_line_of, start_of, Stretch};
use crate::settling::{
    closes, doc_lines, doc_room, doc_stretches, keeps_bodies, lemma_line_prefix,
    lemma_paragraph_rows, lemma_prose_line, lemma_read_line, lemma_stretch_lines, lemma_stretch_of,
    lies_in_stretch, part_of_stretch, reads_again, row_stands, sound_stretch, stretch_starts,
};
use crate::text::{all_in, is_white, trimmed, words_of, CharClass};
use crate::textline::{is_bookend, return_pieces};
use crate::wrap::packed;
use crate::wrap_parts::{lemma_part_wraps, opens_its_line, opens_with_colon};
use vstd::prelude::*;

verus! {

/// Lines `a` to before `b` of a stretch of prose can be a paragraph of their own:
/// no sentence of them is left to be split off, and they hang as the stretch does.
/// Where they are not all of it, they do not hang, do not open with a word that was
/// pulled ahead of a tag or with a lone name and its colon, and none of them was
/// settled because the last line of the stretch read as decoration.
pub open spec fn part_stands(
    s: Stretch,
    a: int,
    b: int,
    effective: usize,
    flavor: DocFlavor,
) -> bool {
    let words = words_of(s.piece);
    let hang = piece_hang(s.piece, effective, flavor);
    let starts = stretch_starts(s, effective, flavor);
    let text = part_text(words, starts, a, b);
    let rough = packed(words, words.len() as int, effective as nat, hang).starts;
    &&& return_pieces(text) == seq![text]
    &&& piece_hang(text, effective, flavor) == hang
    &&& a > 0 ==> hang == 0 && opens_its_line(words, starts[a], effective as nat, hang)
        && !opens_with_colon(words, starts[a])
    &&& a == 0 && b == starts.len() || forall|j: int|
        a <= j < b ==> !#[trigger] settled_line(words, rough, j)
}

/// The lines from `u` to before `v` are a paragraph of prose.
pub open spec fn is_prose_group(lines: Seq<LineText>, u: int, v: int) -> bool {
    exists|p: int|
        0 <= p < paragraphs_from(lines, 0, false).len() && (#[trigger] paragraphs_from(
            lines,
            0,
            false,
        )[p]).kind == ParagraphKind::Prose && paragraphs_from(lines, 0, false)[p].line_indices
            == index_range(u, v)
}

/// What a first pass emits for a comment of text, read again. The emitted lines may
/// be read as anything, and group anew, but for this: the last line of a stretch is
/// no decoration; no tag is converted; nothing is open at the closer; a stretch
/// without a gap above does not join the one above; a line that hangs is no header;
/// and prose that stands in a paragraph of its own can.
#[verifier::opaque]
pub open spec fn reads_as_text(
    c: CommentText,
    brk: Seq<char>,
    lang: Language,
    limit: usize,
    tab_width: usize,
) -> bool {
    let kind = kind_of(c.text, lang);
    let doc = first_doc(c, lang, limit);
    let st = doc_stretches(doc, limit, tab_width);
    let body = doc_lines(doc, limit, tab_width);
    let d = after_first(c, brk, lang, limit, tab_width);
    let lines = d.body(kind, limit);
    let from = first_row(doc);
    &&& ends_plainly(st, doc.prefix())
    &&& lines.len() <= usize::MAX
    &&& d.page(kind, lang, limit) is None
    &&& d.final_lines(kind, lang, limit) == lines
    &&& from + body.len() < lines.len() ==> lines.last().kind == LineKind::Blank
    &&& forall|i: int|
        0 < i < st.len() && !(#[trigger] st[i]).gap ==> !joins_above(
            lines[start_of(st, i, doc.prefix(), from)],
            ParagraphKind::Prose,
        )
    &&& forall|k: int|
        0 <= k < body.len() && (#[trigger] lines[from + k]).kind == LineKind::AtxHeader
            ==> !is_white(body[k].skip(doc.prefix().len() as int)[0])
    &&& forall|i: int, a: int, b: int|
        0 <= i < st.len() && 0 <= a < b <= st[i].lines.len() && is_prose_group(
            lines,
            start_of(st, i, doc.prefix(), from) + a,
            start_of(st, i, doc.prefix(), from) + b,
        ) ==> #[trigger] part_stands(
            st[i],
            a,
            b,
            doc_room(doc, limit, tab_width),
            doc.flavor,
        )
}

/// The comment is running text that a second pass can read as the first one left
/// it.
pub open spec fn settles_as_text(
    c: CommentText,
    brk: Seq<char>,
    lang: Language,
    limit: usize,
    tab_width: usize,
) -> bool {
    &&& stands_in_source(c)
    &&& is_break(brk)
    &&& is_block(style_of(c.text)) ==> brk.len() == 0
    &&& is_text_comment(c, lang, limit)
    &&& stays_open(first_doc(c, lang, limit), limit, tab_width)
    &&& reads_as_text(c, brk, lang, limit, tab_width)
}

/// The texts of what a first pass emits for a comment of text.
proof fn lemma_text_said(
    c: CommentText,
    brk: Seq<char>,
    lang: Language,
    limit: usize,
    tab_width: usize,
)
    requires
        settles_as_text(c, brk, lang, limit, tab_width),
    ensures
        ({
            let doc = first_doc(c, lang, limit);
            let d = after_first(c, brk, lang, limit, tab_width);
            let marked = lines_stripped(source_lines(d.text), doc.style);
            let body = doc_lines(doc, limit, tab_width);
            &&& rows_said(marked, body, doc.prefix(), first_row(doc))
            &&& all_in(doc.prefix(), CharClass::NotOne('\n'))
            &&& bare_prefix(doc.prefix()).len() < doc.prefix().len()
            &&& keeps_bodies(d, kind_of(c.text, lang))
        }),
{
    reveal(reads_as_text);
    reveal_strlit(" ");
    reveal_strlit(" *");
    reveal_strlit(" * ");
    let kind = kind_of(c.text, lang);
    let doc = first_doc(c, lang, limit);
    let st = doc_stretches(doc, limit, tab_width);
    let d = after_first(c, brk, lang, limit, tab_width);
    let body = doc_lines(doc, limit, tab_width);
    let from = first_row(doc);
    let marked = lines_stripped(source_lines(d.text), doc.style);
    lemma_first_facts(c, brk, lang, limit, tab_width);
    lemma_text_comment(c, lang, limit, tab_width);
    assert(st[0].kind == ParagraphKind::Prose);
    let crlf = lemma_emitted_forms(c, brk, lang, limit, tab_width);
    if is_block(doc.style) {
        let m = block_marker_of(c.text)->0;
        lemma_block_said(doc, d, m, crlf, limit, tab_width);
        crate::block_settling::lemma_star_facts(doc);
    } else {
        let marker = line_marker_of(c.text)->0;
        lemma_line_said(doc, d, marker, crlf, brk, limit, tab_width);
        lemma_line_prefix(doc, marker);
    }
    assert forall|r: int| 0 <= r < marked.len() implies !is_bookend(
        (#[trigger] marked[r]).body,
    ) by {
        if from <= r < from + body.len() {
            lemma_prose_said(doc, limit, tab_width, r - from);
        } else {
            lemma_empty_no_bookend(marked[r].body);
        }
    }
    lemma_keeps_bodies(d, kind);
}

/// The line above a stretch with a gap is empty.
proof fn lemma_gap_at(st: Seq<Stretch>, n: int, i: int, prefix: Seq<char>)
    requires
        0 < i < n <= st.len(),
        st[i].gap,
    ensures
        ({
            let k = start_of(st, i, prefix, 0) - 1;
            0 <= k < laid(st, n, prefix).len() && laid(st, n, prefix)[k] == bare_prefix(prefix)
        }),
    decreases n,
{
    if i < n - 1 {
        lemma_gap_at(st, n - 1, i, prefix);
    }
}

/// The lines that a comment of text is read as again.
#[verifier::opaque]
pub open spec fn lines_again(
    c: CommentText,
    brk: Seq<char>,
    lang: Language,
    limit: usize,
    tab_width: usize,
) -> Seq<LineText> {
    after_first(c, brk, lang, limit, tab_width).body(kind_of(c.text, lang), limit)
}

/// Stretches without a gap do not join.
proof fn lemma_stay_apart(
    c: CommentText,
    brk: Seq<char>,
    lang: Language,
    limit: usize,
    tab_width: usize,
)
    requires
        reads_as_text(c, brk, lang, limit, tab_width),
    ensures
        ({
            let doc = first_doc(c, lang, limit);
            let st = doc_stretches(doc, limit, tab_width);
            let lines = lines_again(c, brk, lang, limit, tab_width);
            forall|i: int|
                0 < i < st.len() && !(#[trigger] st[i]).gap ==> !joins_above(
                    lines[start_of(st, i, doc.prefix(), first_row(doc))],
                    ParagraphKind::Prose,
                )
        }),
{
    reveal(reads_as_text);
    reveal(lines_again);
}

/// A group of prose can stand alone.
proof fn lemma_group_stands(
    c: CommentText,
    brk: Seq<char>,
    lang: Language,
    limit: usize,
    tab_width: usize,
    i: int,
    a: int,
    b: int,
)
    requires
        reads_as_text(c, brk, lang, limit, tab_width),
        ({
            let doc = first_doc(c, lang, limit);
            let st = doc_stretches(doc, limit, tab_width);
            let at = start_of(st, i, doc.prefix(), first_row(doc));
            &&& 0 <= i < st.len()
            &&& 0 <= a < b <= st[i].lines.len()
            &&& is_prose_group(
                lines_again(c, brk, lang, limit, tab_width),
                at + a,
                at + b,
            )
        }),
    ensures
        ({
            let doc = first_doc(c, lang, limit);
            part_stands(
                doc_stretches(doc, limit, tab_width)[i],
                a,
                b,
                doc_room(doc, limit, tab_width),
                doc.flavor,
            )
        }),
{
    reveal(reads_as_text);
    reveal(lines_again);
}

/// A header does not hang.
proof fn lemma_header_flush(
    c: CommentText,
    brk: Seq<char>,
    lang: Language,
    limit: usize,
    tab_width: usize,
    k: int,
)
    requires
        reads_as_text(c, brk, lang, limit, tab_width),
        ({
            let doc = first_doc(c, lang, limit);
            &&& 0 <= k < doc_lines(doc, limit, tab_width).len()
            &&& lines_again(c, brk, lang, limit, tab_width)[first_row(doc) + k].kind
                == LineKind::AtxHeader
        }),
    ensures
        ({
            let doc = first_doc(c, lang, limit);
            !is_white(
                doc_lines(doc, limit, tab_width)[k].skip(doc.prefix().len() as int)[0],
            )
        }),
{
    reveal(reads_as_text);
    reveal(lines_again);
    let doc = first_doc(c, lang, limit);
    let l = lines_again(c, brk, lang, limit, tab_width)[first_row(doc) + k];
}

/// A line without text is blank or inside something that keeps its layout, and a
/// line with text is not blank.
proof fn lemma_kind_of_blank(d: CommentText, kind: Kind, limit: usize, k: int)
    requires
        0 <= k < d.body(kind, limit).len(),
    ensures
        ({
            let l = d.body(kind, limit)[k];
            &&& trimmed(l.text).len() > 0 ==> l.kind != LineKind::Blank
            &&& trimmed(l.text).len() == 0 ==> l.kind == LineKind::Blank || (preformatted(l.kind)
                && l.kind != LineKind::LabelRow && l.kind != LineKind::Banner)
        }),
{
    let plain = d.plain_lines(kind);
    let base = base_kind(plain, k, kind.flavor);
    assert(d.body(kind, limit)[k].text == plain[k].body);
}

/// What the rows of an emitted comment of text are read as.
proof fn lemma_text_rows(
    c: CommentText,
    brk: Seq<char>,
    lang: Language,
    limit: usize,
    tab_width: usize,
    r: int,
)
    requires
        settles_as_text(c, brk, lang, limit, tab_width),
        0 <= r < lines_again(c, brk, lang, limit, tab_width).len(),
    ensures
        ({
            let doc = first_doc(c, lang, limit);
            let body = doc_lines(doc, limit, tab_width);
            let l = lines_again(c, brk, lang, limit, tab_width)[r];
            let from = first_row(doc);
            let inside = from <= r < from + body.len();
            let gap = !inside || body[r - from] == bare_prefix(doc.prefix());
            &&& from + body.len() <= lines_again(c, brk, lang, limit, tab_width).len()
            &&& !gap ==> l.kind != LineKind::Blank
            &&& gap ==> l.kind == LineKind::Blank || (preformatted(l.kind) && l.kind
                != LineKind::LabelRow && l.kind != LineKind::Banner)
            &&& r < from ==> l.kind == LineKind::Blank
        }),
{
    reveal(lines_again);
    let kind = kind_of(c.text, lang);
    let doc = first_doc(c, lang, limit);
    let d = after_first(c, brk, lang, limit, tab_width);
    let body = doc_lines(doc, limit, tab_width);
    let from = first_row(doc);
    let marked = lines_stripped(source_lines(d.text), doc.style);
    lemma_first_facts(c, brk, lang, limit, tab_width);
    lemma_text_comment(c, lang, limit, tab_width);
    lemma_text_said(c, brk, lang, limit, tab_width);
    lemma_read_line(d, kind, limit, r);
    assert(d.body(kind, limit)[r].text == marked[r].body);
    lemma_kind_of_blank(d, kind, limit, r);
    if from <= r < from + body.len() {
        assert(ends_plainly(doc_stretches(doc, limit, tab_width), doc.prefix())) by {
            reveal(reads_as_text);
        }
        lemma_prose_said(doc, limit, tab_width, r - from);
    } else {
        lemma_empty_no_bookend(marked[r].body);
        if r < from {
            let plain = d.plain_lines(kind);
            assert(base_kind(plain, 0, kind.flavor) == LineKind::Blank);
        }
    }
}

/// A line of prose follows another in its stretch, or a gap or another stretch
/// begins.
proof fn lemma_next_line(st: Seq<Stretch>, i: int, j: int, prefix: Seq<char>)
    requires
        0 <= i < st.len(),
        0 <= j < st[i].lines.len(),
        forall|k: int| 0 <= k < st.len() ==> (#[trigger] st[k]).lines.len() > 0,
        start_of(st, i, prefix, 0) + j + 1 < laid(st, st.len() as int, prefix).len(),
    ensures
        ({
            let k = start_of(st, i, prefix, 0) + j + 1;
            ||| j + 1 < st[i].lines.len()
            ||| i + 1 < st.len() && st[i + 1].gap && laid(st, st.len() as int, prefix)[k]
                == bare_prefix(prefix)
            ||| i + 1 < st.len() && !st[i + 1].gap && start_of(st, i + 1, prefix, 0) == k
        }),
{
    if j + 1 == st[i].lines.len() {
        assert(laid(st, i + 1, prefix).len() == start_of(st, i, prefix, 0) + j + 1);
        assert(i + 1 < st.len());
        if st[i + 1].gap {
            lemma_gap_at(st, st.len() as int, i + 1, prefix);
        }
    }
}

/// A run of lines that read as one paragraph of prose lies in one stretch.
proof fn lemma_run_in_stretch(
    lines: Seq<LineText>,
    st: Seq<Stretch>,
    prefix: Seq<char>,
    from: int,
    i: int,
    x: int,
    n: int,
)
    requires
        0 <= i < st.len(),
        0 <= x < st[i].lines.len(),
        0 < n,
        start_of(st, i, prefix, 0) + x + n <= laid(st, st.len() as int, prefix).len(),
        forall|k: int| 0 <= k < st.len() ==> (#[trigger] st[k]).lines.len() > 0,
        forall|k: int|
            start_of(st, i, prefix, 0) + x <= k < start_of(st, i, prefix, 0) + x + n
                ==> #[trigger] laid(st, st.len() as int, prefix)[k] != bare_prefix(prefix),
        forall|k: int|
            start_of(st, i, prefix, from) + x < k < start_of(st, i, prefix, from) + x + n
                ==> joins_above(#[trigger] lines[k], ParagraphKind::Prose),
        forall|k: int|
            0 < k < st.len() && !(#[trigger] st[k]).gap ==> !joins_above(
                lines[start_of(st, k, prefix, from)],
                ParagraphKind::Prose,
            ),
    ensures
        x + n <= st[i].lines.len(),
    decreases n,
{
    if n > 1 {
        lemma_run_in_stretch(lines, st, prefix, from, i, x, n - 1);
        let k = start_of(st, i, prefix, 0) + x + n - 1;
        lemma_next_line(st, i, x + n - 2, prefix);
        assert(laid(st, st.len() as int, prefix)[k] != bare_prefix(prefix));
        if x + n > st[i].lines.len() {
            assert(start_of(st, i + 1, prefix, from) == from + k);
            assert(joins_above(lines[from + k], ParagraphKind::Prose));
            assert(!st[i + 1].gap);
        }
    }
}

/// Line `k` of the body is not an empty one.
pub open spec fn is_text_at(body: Seq<Seq<char>>, prefix: Seq<char>, k: int) -> bool {
    0 <= k < body.len() && body[k] != bare_prefix(prefix)
}

/// So are `n` lines from `a` on.
pub open spec fn are_text(body: Seq<Seq<char>>, prefix: Seq<char>, a: int, n: int) -> bool {
    forall|j: int| 0 <= j < n ==> is_text_at(body, prefix, #[trigger] (a + j))
}

/// The rows of a paragraph of prose are rows with text.
proof fn lemma_group_row(
    c: CommentText,
    brk: Seq<char>,
    lang: Language,
    limit: usize,
    tab_width: usize,
    p: int,
    j: int,
)
    requires
        settles_as_text(c, brk, lang, limit, tab_width),
        ({
            let lines = lines_again(c, brk, lang, limit, tab_width);
            let para = paragraphs_from(lines, 0, false)[p];
            &&& lines.len() <= usize::MAX
            &&& 0 <= p < paragraphs_from(lines, 0, false).len()
            &&& para.kind == ParagraphKind::Prose
            &&& 0 <= j < para.line_indices.len()
        }),
    ensures
        ({
            let doc = first_doc(c, lang, limit);
            let body = doc_lines(doc, limit, tab_width);
            let lines = lines_again(c, brk, lang, limit, tab_width);
            let k = paragraphs_from(lines, 0, false)[p].line_indices[0] + j - first_row(doc);
            &&& 0 <= k < body.len()
            &&& body[k] != bare_prefix(doc.prefix())
        }),
{
    let lines = lines_again(c, brk, lang, limit, tab_width);
    let para = paragraphs_from(lines, 0, false)[p];
    lemma_paragraph_rows(lines, 0, false, p);
    let k = para.line_indices[0] + j;
    lemma_text_rows(c, brk, lang, limit, tab_width, k);
    assert(lines[k].kind != LineKind::Blank);
    if j > 0 {
        assert(joins_above(lines[k], ParagraphKind::Prose));
    } else {
        assert(crate::normalize::opens_kind(lines[k].kind) == ParagraphKind::Prose);
    }
}

/// A part that stands can be a paragraph of its own.
proof fn lemma_part_alone(s: Stretch, a: int, b: int, effective: usize, flavor: DocFlavor)
    requires
        words_of(s.piece).len() > 0,
        0 <= a < b <= stretch_starts(s, effective, flavor).len(),
        part_stands(s, a, b, effective, flavor),
    ensures
        stands_alone_as(
            words_of(s.piece),
            stretch_starts(s, effective, flavor),
            a,
            b,
            effective,
            piece_hang(s.piece, effective, flavor),
            flavor,
        ),
{
    reveal(stands_alone_as);
    crate::words::lemma_words_are_words(s.piece);
    lemma_part_wraps(
        words_of(s.piece),
        a,
        b,
        effective as nat,
        piece_hang(s.piece, effective, flavor),
    );
}

/// A paragraph of prose of the emitted comment lies in one stretch.
#[verifier::spinoff_prover]
proof fn lemma_text_group(
    c: CommentText,
    brk: Seq<char>,
    lang: Language,
    limit: usize,
    tab_width: usize,
    p: int,
)
    requires
        settles_as_text(c, brk, lang, limit, tab_width),
        0 <= p < paragraphs_from(
            lines_again(c, brk, lang, limit, tab_width),
            0,
            false,
        ).len(),
        lines_again(c, brk, lang, limit, tab_width).len() <= usize::MAX,
    ensures
        ({
            let doc = first_doc(c, lang, limit);
            let lines = lines_again(c, brk, lang, limit, tab_width);
            lies_in_stretch(
                paragraphs_from(lines, 0, false)[p],
                doc,
                doc_stretches(doc, limit, tab_width),
                doc_room(doc, limit, tab_width),
                first_row(doc),
            )
        }),
{
    let doc = first_doc(c, lang, limit);
    let st = doc_stretches(doc, limit, tab_width);
    let effective = doc_room(doc, limit, tab_width);
    let body = doc_lines(doc, limit, tab_width);
    let prefix = doc.prefix();
    let lines = lines_again(c, brk, lang, limit, tab_width);
    let from = first_row(doc);
    let para = paragraphs_from(lines, 0, false)[p];
    if para.kind == ParagraphKind::Prose {
        assert forall|k: int| 0 <= k < st.len() implies (#[trigger] st[k]).lines.len() > 0 by {
            lemma_text_comment(c, lang, limit, tab_width);
            assert(sound_stretch(st[k], doc.style));
        }
        lemma_paragraph_rows(lines, 0, false, p);
        let u = para.line_indices[0] as int;
        let n = para.line_indices.len() as int;
        assert(are_text(body, prefix, u - from, n)) by {
            assert forall|j: int| 0 <= j < n implies is_text_at(body, prefix, #[trigger] (u - from
                + j)) by {
                lemma_group_row(c, brk, lang, limit, tab_width, p, j);
            }
        }
        lemma_stay_apart(c, brk, lang, limit, tab_width);
        let (i, x) = lemma_group_place(lines, st, body, prefix, from, u, n);
        let at = start_of(st, i, prefix, from);
        assert(para.line_indices == index_range(at + x, at + (x + n)));
        assert(is_prose_group(lines, at + x, at + (x + n)));
        lemma_group_stands(c, brk, lang, limit, tab_width, i, x, x + n);
        lemma_group_is_part(c, lang, limit, tab_width, para, from, i, x, n);
    }
}

/// The stretch that a group of lines lies in.
proof fn lemma_group_place(
    lines: Seq<LineText>,
    st: Seq<Stretch>,
    body: Seq<Seq<char>>,
    prefix: Seq<char>,
    from: int,
    u: int,
    n: int,
) -> (r: (int, int))
    requires
        0 < n,
        body == laid(st, st.len() as int, prefix),
        forall|k: int| 0 <= k < st.len() ==> (#[trigger] st[k]).lines.len() > 0,
        are_text(body, prefix, u - from, n),
        forall|k: int|
            u < k < u + n ==> joins_above(#[trigger] lines[k], ParagraphKind::Prose),
        forall|k: int|
            0 < k < st.len() && !(#[trigger] st[k]).gap ==> !joins_above(
                lines[start_of(st, k, prefix, from)],
                ParagraphKind::Prose,
            ),
    ensures
        0 <= r.0 < st.len(),
        0 <= r.1,
        r.1 + n <= st[r.0].lines.len(),
        start_of(st, r.0, prefix, from) + r.1 == u,
{
    assert(is_text_at(body, prefix, u - from + 0));
    assert(is_text_at(body, prefix, u - from + (n - 1)));
    let (i, x) = lemma_line_of(st, st.len() as int, u - from, prefix);
    let at0 = start_of(st, i, prefix, 0);
    assert(start_of(st, i, prefix, from) == from + at0);
    assert forall|k: int| at0 + x <= k < at0 + x + n implies #[trigger] laid(
        st,
        st.len() as int,
        prefix,
    )[k] != bare_prefix(prefix) by {
        assert(is_text_at(body, prefix, u - from + (k - (u - from))));
    }
    lemma_run_in_stretch(lines, st, prefix, from, i, x, n);
    (i, x)
}

/// Such a group is part of its stretch.
proof fn lemma_group_is_part(
    c: CommentText,
    lang: Language,
    limit: usize,
    tab_width: usize,
    para: ParagraphText,
    from: int,
    i: int,
    x: int,
    n: int,
)
    requires
        stands_in_source(c),
        is_text_comment(c, lang, limit),
        stays_open(first_doc(c, lang, limit), limit, tab_width),
        ({
            let doc = first_doc(c, lang, limit);
            let st = doc_stretches(doc, limit, tab_width);
            let at = start_of(st, i, doc.prefix(), from);
            &&& 0 <= i < st.len()
            &&& 0 <= x
            &&& 0 < n
            &&& x + n <= st[i].lines.len()
            &&& para.line_indices == index_range(at + x, at + (x + n))
            &&& part_stands(st[i], x, x + n, doc_room(doc, limit, tab_width), doc.flavor)
        }),
    ensures
        ({
            let doc = first_doc(c, lang, limit);
            lies_in_stretch(
                para,
                doc,
                doc_stretches(doc, limit, tab_width),
                doc_room(doc, limit, tab_width),
                from,
            )
        }),
{
    let doc = first_doc(c, lang, limit);
    let st = doc_stretches(doc, limit, tab_width);
    let effective = doc_room(doc, limit, tab_width);
    lemma_text_comment(c, lang, limit, tab_width);
    assert(sound_stretch(st[i], doc.style));
    assert(st[i].kind == ParagraphKind::Prose);
    lemma_stretch_of(doc, limit, tab_width, i);
    lemma_stretch_lines(doc, st[i], doc.prefix(), effective);
    lemma_part_alone(st[i], x, x + n, effective, doc.flavor);
    assert(part_of_stretch(para, doc, st, effective, from, i, x, x + n));
}

/// A line of an emitted comment of text goes out as it stands.
#[verifier::spinoff_prover]
proof fn lemma_text_stands(
    c: CommentText,
    brk: Seq<char>,
    lang: Language,
    limit: usize,
    tab_width: usize,
    k: int,
)
    requires
        settles_as_text(c, brk, lang, limit, tab_width),
        0 <= k < doc_lines(first_doc(c, lang, limit), limit, tab_width).len(),
    ensures
        ({
            let doc = first_doc(c, lang, limit);
            let lines = lines_again(c, brk, lang, limit, tab_width);
            let body = doc_lines(doc, limit, tab_width);
            let from = first_row(doc);
            &&& row_stands(lines[from + k], body[k], doc.prefix(), is_block(doc.style))
            &&& blank_fits(lines, body, doc.prefix(), from, k)
        }),
{
    let doc = first_doc(c, lang, limit);
    let body = doc_lines(doc, limit, tab_width);
    let prefix = doc.prefix();
    let lines = lines_again(c, brk, lang, limit, tab_width);
    let from = first_row(doc);
    lemma_rows_enough(c, brk, lang, limit, tab_width);
    lemma_text_rows(c, brk, lang, limit, tab_width, from + k);
    if body[k] == bare_prefix(prefix) {
        lemma_text_gap(c, brk, lang, limit, tab_width, k);
        lemma_text_rows(c, brk, lang, limit, tab_width, from + k + 1);
    } else {
        lemma_text_line(c, brk, lang, limit, tab_width, k);
        if lines[from + k].kind == LineKind::AtxHeader {
            lemma_header_flush(c, brk, lang, limit, tab_width, k);
            let x = body[k].skip(prefix.len() as int);
            crate::second_pass::lemma_trim_padded(0, x);
            assert(crate::text::repeated(' ', 0) + x =~= x);
        }
    }
}

/// The rows of an emitted comment of text are enough for its lines.
proof fn lemma_rows_enough(
    c: CommentText,
    brk: Seq<char>,
    lang: Language,
    limit: usize,
    tab_width: usize,
)
    requires
        settles_as_text(c, brk, lang, limit, tab_width),
    ensures
        ({
            let doc = first_doc(c, lang, limit);
            first_row(doc) + doc_lines(doc, limit, tab_width).len() <= lines_again(
                c,
                brk,
                lang,
                limit,
                tab_width,
            ).len()
        }),
{
    reveal(lines_again);
    lemma_text_said(c, brk, lang, limit, tab_width);
    lemma_first_facts(c, brk, lang, limit, tab_width);
}

/// A line of an emitted comment of text that is not empty.
proof fn lemma_text_line(
    c: CommentText,
    brk: Seq<char>,
    lang: Language,
    limit: usize,
    tab_width: usize,
    k: int,
)
    requires
        settles_as_text(c, brk, lang, limit, tab_width),
        ({
            let doc = first_doc(c, lang, limit);
            &&& 0 <= k < doc_lines(doc, limit, tab_width).len()
            &&& doc_lines(doc, limit, tab_width)[k] != bare_prefix(doc.prefix())
        }),
    ensures
        ({
            let doc = first_doc(c, lang, limit);
            let line = doc_lines(doc, limit, tab_width)[k];
            let x = line.skip(doc.prefix().len() as int);
            &&& crate::text::has_prefix(line, doc.prefix())
            &&& crate::text::trimmed_end(line) == line
            &&& is_block(doc.style) ==> !closes(line)
            &&& x.len() > 0
            &&& !is_white(x.last())
        }),
{
    let doc = first_doc(c, lang, limit);
    let st = doc_stretches(doc, limit, tab_width);
    let prefix = doc.prefix();
    let line = doc_lines(doc, limit, tab_width)[k];
    lemma_text_comment(c, lang, limit, tab_width);
    lemma_text_said(c, brk, lang, limit, tab_width);
    let (i, j) = lemma_line_of(st, st.len() as int, k, prefix);
    assert(sound_stretch(st[i], doc.style));
    assert(st[i].kind == ParagraphKind::Prose);
    lemma_stretch_of(doc, limit, tab_width, i);
    lemma_prose_line(
        doc,
        st[i],
        prefix,
        doc_room(doc, limit, tab_width),
        is_block(doc.style),
        j,
    );
    let x = line.skip(prefix.len() as int);
    assert(x.last() == line.last());
    crate::block_settling::lemma_trimmed_end(line);
    assert(is_block(doc.style) ==> !closes(st[i].lines[j]));
}

/// An empty line of an emitted comment of text stands between two others.
proof fn lemma_text_gap(
    c: CommentText,
    brk: Seq<char>,
    lang: Language,
    limit: usize,
    tab_width: usize,
    k: int,
)
    requires
        settles_as_text(c, brk, lang, limit, tab_width),
        ({
            let doc = first_doc(c, lang, limit);
            &&& 0 <= k < doc_lines(doc, limit, tab_width).len()
            &&& doc_lines(doc, limit, tab_width)[k] == bare_prefix(doc.prefix())
        }),
    ensures
        ({
            let doc = first_doc(c, lang, limit);
            let body = doc_lines(doc, limit, tab_width);
            0 < k < body.len() - 1 && body[k + 1] != bare_prefix(doc.prefix())
        }),
{
    let doc = first_doc(c, lang, limit);
    let st = doc_stretches(doc, limit, tab_width);
    let prefix = doc.prefix();
    lemma_text_comment(c, lang, limit, tab_width);
    lemma_text_said(c, brk, lang, limit, tab_width);
    assert forall|i: int, j: int|
        0 <= i < st.len() && 0 <= j < st[i].lines.len() implies #[trigger] st[i].lines[j]
        != bare_prefix(prefix) by {
        assert(sound_stretch(st[i], doc.style));
        assert(st[i].kind == ParagraphKind::Prose);
        lemma_stretch_of(doc, limit, tab_width, i);
        lemma_prose_line(
            doc,
            st[i],
            prefix,
            doc_room(doc, limit, tab_width),
            is_block(doc.style),
            j,
        );
    }
    assert forall|i: int| 0 <= i < st.len() implies (#[trigger] st[i]).lines.len() > 0 by {
        assert(sound_stretch(st[i], doc.style));
    }
    lemma_gap_between(st, st.len() as int, k, prefix);
}

/// An empty line of a body of prose stands between two others.
proof fn lemma_gap_between(st: Seq<Stretch>, n: int, k: int, prefix: Seq<char>)
    requires
        0 <= n <= st.len(),
        0 <= k < laid(st, n, prefix).len(),
        laid(st, n, prefix)[k] == bare_prefix(prefix),
        forall|i: int| 0 <= i < st.len() ==> (#[trigger] st[i]).lines.len() > 0,
        forall|i: int, j: int|
            0 <= i < st.len() && 0 <= j < st[i].lines.len() ==> #[trigger] st[i].lines[j]
                != bare_prefix(prefix),
    ensures
        0 < k < laid(st, n, prefix).len() - 1,
        laid(st, n, prefix)[k + 1] != bare_prefix(prefix),
    decreases n,
{
    let before = laid(st, n - 1, prefix).len() as int;
    assert(st[n - 1].lines.len() > 0);
    if k < before {
        lemma_gap_between(st, n - 1, k, prefix);
    } else {
        let at = before + gap_lines(st, n - 1, prefix).len();
        if k >= at {
            assert(laid(st, n, prefix)[k] == st[n - 1].lines[k - at]);
        }
        assert(laid(st, n, prefix)[k + 1] == st[n - 1].lines[0]);
        crate::second_pass::lemma_first_laid(st, n - 1, prefix);
    }
}

/// What a first pass emits for a comment of text goes out again as it was emitted.
#[verifier::spinoff_prover]
pub proof fn lemma_text_reads_as_emitted(
    c: CommentText,
    brk: Seq<char>,
    lang: Language,
    limit: usize,
    tab_width: usize,
)
    requires
        settles_as_text(c, brk, lang, limit, tab_width),
    ensures
        reads_as_emitted(c, brk, lang, limit, tab_width),
{
    let kind = kind_of(c.text, lang);
    let doc = first_doc(c, lang, limit);
    let st = doc_stretches(doc, limit, tab_width);
    let body = doc_lines(doc, limit, tab_width);
    let prefix = doc.prefix();
    let d = after_first(c, brk, lang, limit, tab_width);
    let lines = lines_again(c, brk, lang, limit, tab_width);
    reveal(reads_as_text);
    reveal(lines_again);
    let from = first_row(doc);
    lemma_text_comment(c, lang, limit, tab_width);
    lemma_text_said(c, brk, lang, limit, tab_width);
    lemma_first_facts(c, brk, lang, limit, tab_width);
    assert(st[0].kind == ParagraphKind::Prose);
    assert(lines.len() == lines_stripped(source_lines(d.text), doc.style).len());
    assert(sound_stretch(st[0], doc.style));
    crate::second_pass::lemma_first_laid(st, st.len() as int, prefix);
    assert(reads_again(d, kind, lang, doc, limit, tab_width, from)) by {
        reveal(reads_again);
        assert(blanks_fit(lines, body, prefix, from)) by {
            assert forall|r: int|
                0 <= r < lines.len() && !(from <= r < from + body.len()) implies (
            #[trigger] lines[r]).kind == LineKind::Blank by {
                lemma_text_rows(c, brk, lang, limit, tab_width, r);
                lemma_one_behind(c, brk, lang, limit, tab_width);
            }
            assert forall|k: int| 0 <= k < body.len() implies #[trigger] blank_fits(
                lines,
                body,
                prefix,
                from,
                k,
            ) by {
                lemma_text_stands(c, brk, lang, limit, tab_width, k);
            }
        }
        assert forall|k: int| 0 <= k < body.len() implies row_stands(
            #[trigger] lines[from + k],
            body[k],
            prefix,
            is_block(doc.style),
        ) by {
            lemma_text_stands(c, brk, lang, limit, tab_width, k);
        }
        let paras = paragraphs_from(lines, 0, false);
        assert forall|p: int| 0 <= p < paras.len() implies lies_in_stretch(
            #[trigger] paras[p],
            doc,
            st,
            doc_room(doc, limit, tab_width),
            from,
        ) by {
            lemma_text_group(c, brk, lang, limit, tab_width, p);
        }
    }
}

/// At most one row follows the body.
proof fn lemma_one_behind(
    c: CommentText,
    brk: Seq<char>,
    lang: Language,
    limit: usize,
    tab_width: usize,
)
    requires
        settles_as_text(c, brk, lang, limit, tab_width),
    ensures
        ({
            let doc = first_doc(c, lang, limit);
            let d = after_first(c, brk, lang, limit, tab_width);
            d.body(kind_of(c.text, lang), limit).len() <= first_row(doc) + doc_lines(
                doc,
                limit,
                tab_width,
            ).len() + 1
        }),
{
    let doc = first_doc(c, lang, limit);
    let st = doc_stretches(doc, limit, tab_width);
    let d = after_first(c, brk, lang, limit, tab_width);
    lemma_text_comment(c, lang, limit, tab_width);
    lemma_first_facts(c, brk, lang, limit, tab_width);
    assert(st[0].kind == ParagraphKind::Prose);
    let crlf = lemma_emitted_forms(c, brk, lang, limit, tab_width);
    if is_block(doc.style) {
        crate::block_settling::lemma_block_rows(
            doc,
            d,
            block_marker_of(c.text)->0,
            crlf,
            limit,
            tab_width,
        );
    } else {
        lemma_line_said(doc, d, line_marker_of(c.text)->0, crlf, brk, limit, tab_width);
    }
}

/// A comment of text whose emitted lines can be read as `reads_as_text` says is in its
/// final form after one pass, in every style and with any number of paragraphs, list
/// items and tags. What is left out are emitted lines that a second reading takes apart:
/// `// --- --- hello --- ---` becomes `// --- hello ---`, and that is decoration.
pub proof fn law_text_settles(
    c: CommentText,
    brk: Seq<char>,
    lang: Language,
    limit: usize,
    tab_width: usize,
)
    requires
        settles_as_text(c, brk, lang, limit, tab_width),
    ensures
        ({
            let d = after_first(c, brk, lang, limit, tab_width);
            &&& kind_of(d.text, lang) == kind_of(c.text, lang)
            &&& emitted(d, lang, limit, tab_width) == emitted(c, lang, limit, tab_width)
        }),
{
    lemma_text_reads_as_emitted(c, brk, lang, limit, tab_width);
    law_second_pass_changes_nothing(c, brk, lang, limit, tab_width);
}

} // verus!
