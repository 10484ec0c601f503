//! A second pass changes nothing: what a first pass emits for a comment is what
//! laying it out again gives.

use crate::classify::{DocFlavor, Kind, Style};
use crate::comment::CommentText;
use crate::language::Language;
use crate::normalize::{
    block_marker_of, index_range, joins_above, lemma_paragraph_end, line_marker_of,
    line_marker_stripped, line_stripped, lines_stripped, opens_kind, paragraph_end, paragraphs_from,
    preformatted, source_lines, DocText, LineKind, LineText, ParagraphKind, ParagraphText,
};
use crate::plan_laws::law_line_endings_survive;
use crate::reflow::{
    bare_prefix, body_lines, comment_lines, is_block, line_comment_lines, paragraph_lines,
    piece_hang, prose_lines, raw_line, reflowed, text_room,
};
use crate::regroup::{
    blank_fits, blanks_fit, holds_paragraph, lemma_body_stands, lemma_part_again, stands_alone_as,
};
use crate::rows::{
    eol_of, is_break, lemma_ended_lines, lemma_joined_opens, lemma_line_shape, lemma_stripped,
    plain_marker, unbroken,
};
use crate::second_pass::{
    laid, lemma_first_laid, lemma_line_at, lemma_line_of, lemma_proper_stretches, lemma_trim_padded,
    proper_stretch, start_of, stretches, text_read, Stretch,
};
use crate::text::{
    all_in, has_prefix, has_suffix, in_class, is_white, joined, lemma_trail_len, repeated, trimmed,
    trimmed_end, words_of, CharClass,
};
use crate::words::{all_words, lemma_words_are_words};
use crate::wrap::{
    law_lines_partition_words, lemma_start_bounds, line_body, line_end, line_lead, line_starts,
    valid_starts,
};
use vstd::prelude::*;

verus! {

impl CommentText {
    /// The comment with another text in its place.
    pub open spec fn with_text(self, text: Seq<char>) -> CommentText {
        CommentText { text, ..self }
    }
}

/// The width that a comment's text has.
pub open spec fn doc_room(doc: DocText, limit: usize, tab_width: usize) -> usize {
    text_room(doc.prefix(), limit, tab_width)
}

/// The stretches that a comment is laid out as.
#[verifier::opaque]
pub open spec fn doc_stretches(doc: DocText, limit: usize, tab_width: usize) -> Seq<Stretch> {
    stretches(
        doc,
        doc.paragraphs.len() as int,
        doc.prefix(),
        doc_room(doc, limit, tab_width),
        is_block(doc.style),
    )
}

/// All lines of the stretches.
pub open spec fn doc_lines(doc: DocText, limit: usize, tab_width: usize) -> Seq<Seq<char>> {
    let st = doc_stretches(doc, limit, tab_width);
    laid(st, st.len() as int, doc.prefix())
}

/// A stretch holds something, prose has words, and other lines hold no break.
pub open spec fn sound_stretch(s: Stretch, style: Style) -> bool {
    &&& s.lines.len() > 0
    &&& s.kind == ParagraphKind::Prose ==> words_of(s.piece).len() > 0
    &&& s.kind != ParagraphKind::Prose ==> forall|j: int|
        0 <= j < s.lines.len() ==> unbroken(#[trigger] s.lines[j]) && (!is_block(style)
            ==> s.lines[j].len() > 0)
}

/// The line ends in a closer.
pub open spec fn closes(line: Seq<char>) -> bool {
    has_suffix(trimmed_end(line), "*/"@)
}

/// No line closes the block, unless it is the last one and keeps its layout.
pub open spec fn closes_last(st: Seq<Stretch>) -> bool {
    forall|i: int, j: int|
        0 <= i < st.len() && 0 <= j < st[i].lines.len() && closes(#[trigger] st[i].lines[j]) ==> {
            &&& i == st.len() - 1
            &&& j == st[i].lines.len() - 1
            &&& st[i].kind == ParagraphKind::Preformatted
            &&& has_suffix(st[i].lines[j], "*/"@)
        }
}

pub open spec fn sound_stretches(st: Seq<Stretch>, style: Style) -> bool {
    &&& st.len() > 0
    &&& forall|i: int| 0 <= i < st.len() ==> sound_stretch(#[trigger] st[i], style)
    &&& is_block(style) ==> closes_last(st)
}

/// Nothing on the comment's lines is decoration to take off.
pub open spec fn keeps_bodies(d: CommentText, kind: Kind) -> bool {
    let marked = lines_stripped(source_lines(d.text), kind.style);
    forall|k: int|
        0 <= k < marked.len() ==> (#[trigger] d.plain_lines(kind)[k]).body == marked[k].body
}

/// A line is read so that it goes out as it stands: a row or a banner goes out
/// behind the prefix and does not close a block, and a header goes out without
/// white space around it.
pub open spec fn row_stands(
    l: LineText,
    line: Seq<char>,
    prefix: Seq<char>,
    in_block: bool,
) -> bool {
    &&& l.kind == LineKind::LabelRow || l.kind == LineKind::Banner ==> has_prefix(line, prefix)
        && trimmed_end(line) == line && (in_block ==> !closes(line))
    &&& l.kind == LineKind::AtxHeader ==> has_prefix(line, prefix) && trimmed(
        line.skip(prefix.len() as int),
    ) == line.skip(prefix.len() as int) && (in_block ==> !closes(line))
}

/// The words of a stretch of prose, and where its lines start.
pub open spec fn stretch_starts(s: Stretch, effective: usize, flavor: DocFlavor) -> Seq<int> {
    line_starts(words_of(s.piece), effective as nat, piece_hang(s.piece, effective, flavor))
}

/// The paragraph is lines `a` to before `b` of stretch `i`, which can be one of
/// their own.
pub open spec fn part_of_stretch(
    para: ParagraphText,
    doc: DocText,
    st: Seq<Stretch>,
    effective: usize,
    from: int,
    i: int,
    a: int,
    b: int,
) -> bool {
    let at = start_of(st, i, doc.prefix(), from);
    &&& 0 <= i < st.len()
    &&& st[i].kind == ParagraphKind::Prose
    &&& 0 <= a < b <= st[i].lines.len()
    &&& para.line_indices == index_range(at + a, at + b)
    &&& stands_alone_as(
        words_of(st[i].piece),
        stretch_starts(st[i], effective, doc.flavor),
        a,
        b,
        effective,
        piece_hang(st[i].piece, effective, doc.flavor),
        doc.flavor,
    )
}

/// A paragraph of prose lies in one stretch, as lines that can be one of their own.
pub open spec fn lies_in_stretch(
    para: ParagraphText,
    doc: DocText,
    st: Seq<Stretch>,
    effective: usize,
    from: int,
) -> bool {
    para.kind == ParagraphKind::Prose ==> exists|i: int, a: int, b: int|
        part_of_stretch(para, doc, st, effective, from, i, a, b)
}

/// The comment's lines are read so that they go out as they were emitted: nothing
/// on them is decoration to take off, no tag is converted, and the paragraphs that
/// they group into are parts of the emitted ones.
#[verifier::opaque]
pub open spec fn reads_again(
    d: CommentText,
    kind: Kind,
    lang: Language,
    doc: DocText,
    limit: usize,
    tab_width: usize,
    from: int,
) -> bool {
    let lines = d.body(kind, limit);
    let st = doc_stretches(doc, limit, tab_width);
    let body = doc_lines(doc, limit, tab_width);
    let paras = paragraphs_from(lines, 0, false);
    &&& d.page(kind, lang, limit) is None
    &&& d.final_lines(kind, lang, limit) == lines
    &&& keeps_bodies(d, kind)
    &&& blanks_fit(lines, body, doc.prefix(), from)
    &&& forall|k: int|
        0 <= k < body.len() ==> row_stands(
            #[trigger] lines[from + k],
            body[k],
            doc.prefix(),
            is_block(doc.style),
        )
    &&& forall|p: int|
        0 <= p < paras.len() ==> lies_in_stretch(
            #[trigger] paras[p],
            doc,
            st,
            doc_room(doc, limit, tab_width),
            from,
        )
}

/// What is known of the comment as it is read again.
pub proof fn lemma_read_doc(
    d: CommentText,
    kind: Kind,
    lang: Language,
    doc: DocText,
    limit: usize,
    tab_width: usize,
    from: int,
)
    requires
        reads_again(d, kind, lang, doc, limit, tab_width, from),
    ensures
        ({
            let again = d.normalized(kind, lang, limit);
            let body = doc_lines(doc, limit, tab_width);
            &&& keeps_bodies(d, kind)
            &&& again.lines == d.body(kind, limit)
            &&& again.lines.len() == source_lines(d.text).len()
            &&& again.paragraphs == paragraphs_from(again.lines, 0, false)
            &&& again.indent == d.line_indent_bytes
            &&& again.style == kind.style
            &&& again.flavor == kind.flavor
            &&& again.line_marker == line_marker_of(d.text)
            &&& again.block_opener_marker == block_marker_of(d.text)
            &&& again.fallback_ending == d.fallback_ending
            &&& again.is_file_header == d.header_form(kind, false)
            &&& blanks_fit(again.lines, body, doc.prefix(), from)
            &&& forall|k: int|
                0 <= k < body.len() ==> row_stands(
                    #[trigger] again.lines[from + k],
                    body[k],
                    doc.prefix(),
                    is_block(doc.style),
                )
            &&& forall|p: int|
                0 <= p < again.paragraphs.len() ==> lies_in_stretch(
                    #[trigger] again.paragraphs[p],
                    doc,
                    doc_stretches(doc, limit, tab_width),
                    doc_room(doc, limit, tab_width),
                    from,
                )
        }),
{
    reveal(reads_again);
    reveal(CommentText::normalized);
}

/// The lines of a paragraph that keeps its layout all do.
proof fn lemma_kept_rows(lines: Seq<LineText>, i: int, j: int, k: ParagraphKind)
    requires
        0 <= i < j <= lines.len(),
        opens_kind(lines[i].kind) == k,
        k == ParagraphKind::Preformatted,
        forall|r: int| i <= r < j ==> preformatted((#[trigger] lines[r]).kind),
    ensures
        j <= paragraph_end(lines, j, k) <= lines.len(),
        forall|r: int|
            i <= r < paragraph_end(lines, j, k) ==> preformatted((#[trigger] lines[r]).kind),
    decreases lines.len() - j,
{
    if j < lines.len() && joins_above(lines[j], k) {
        lemma_kept_rows(lines, i, j + 1, k);
    }
}

/// What the lines of a paragraph are.
pub proof fn lemma_paragraph_rows(lines: Seq<LineText>, i: int, blank: bool, p: int)
    requires
        0 <= i <= lines.len() <= usize::MAX,
        0 <= p < paragraphs_from(lines, i, blank).len(),
    ensures
        ({
            let para = paragraphs_from(lines, i, blank)[p];
            let a = para.line_indices[0] as int;
            let n = para.line_indices.len() as int;
            &&& n > 0
            &&& i <= a
            &&& a + n <= lines.len()
            &&& para.line_indices == index_range(a, a + n)
            &&& forall|r: int| a <= r < a + n ==> (#[trigger] lines[r]).kind != LineKind::Blank
            &&& para.kind == opens_kind(lines[a].kind)
            &&& para.kind == ParagraphKind::AtxHeader ==> n == 1
            &&& forall|r: int| a < r < a + n ==> joins_above(#[trigger] lines[r], para.kind)
            &&& para.kind == ParagraphKind::Preformatted ==> forall|r: int|
                a <= r < a + n ==> preformatted((#[trigger] lines[r]).kind)
        }),
    decreases lines.len() - i,
{
    if i < lines.len() {
        if lines[i].kind == LineKind::Blank {
            lemma_paragraph_rows(lines, i + 1, true, p);
        } else {
            let k = opens_kind(lines[i].kind);
            lemma_paragraph_end(lines, i + 1, k);
            let end = paragraph_end(lines, i + 1, k);
            let all = paragraphs_from(lines, i, blank);
            if p == 0 {
                assert(all[0].line_indices == index_range(i, end));
                assert(all[0].line_indices[0] == i as usize);
                lemma_joined_rows(lines, i, i + 1, k);
                if k == ParagraphKind::Preformatted {
                    lemma_kept_rows(lines, i, i + 1, k);
                }
            } else {
                lemma_paragraph_rows(lines, end, false, p - 1);
                assert(all[p] == paragraphs_from(lines, end, false)[p - 1]);
            }
        }
    }
}

/// No line that joins a paragraph is blank, and nothing joins a header.
proof fn lemma_joined_rows(lines: Seq<LineText>, i: int, j: int, k: ParagraphKind)
    requires
        0 <= i < j <= lines.len(),
        forall|r: int| i <= r < j ==> (#[trigger] lines[r]).kind != LineKind::Blank,
    ensures
        j <= paragraph_end(lines, j, k) <= lines.len(),
        forall|r: int|
            i <= r < paragraph_end(lines, j, k) ==> (#[trigger] lines[r]).kind != LineKind::Blank,
        forall|r: int| j <= r < paragraph_end(lines, j, k) ==> joins_above(#[trigger] lines[r], k),
        k == ParagraphKind::AtxHeader ==> paragraph_end(lines, j, k) == j,
    decreases lines.len() - j,
{
    if j < lines.len() && joins_above(lines[j], k) {
        lemma_joined_rows(lines, i, j + 1, k);
    }
}

/// What makes a line of the body go out as it stands in `body`.
pub open spec fn row_goes_out(
    again: DocText,
    body: Seq<Seq<char>>,
    k: int,
    prefix: Seq<char>,
    inline_opener: bool,
    from: int,
) -> bool {
    let kind = again.lines[from + k].kind;
    &&& preformatted(kind) ==> raw_line(again, from + k, prefix, inline_opener) == body[k]
    &&& kind == LineKind::AtxHeader ==> prefix + trimmed(again.lines[from + k].text) == body[k]
}

/// What makes a line of prose be read.
pub open spec fn prose_read(
    again: DocText,
    doc: DocText,
    st: Seq<Stretch>,
    effective: usize,
    from: int,
    i: int,
    j: int,
) -> bool {
    trimmed(again.lines[start_of(st, i, doc.prefix(), from) + j].text) == line_body(
        words_of(st[i].piece),
        stretch_starts(st[i], effective, doc.flavor),
        j,
    )
}

/// A paragraph goes out as its lines stand.
proof fn lemma_paragraph_stands(
    doc: DocText,
    again: DocText,
    limit: usize,
    tab_width: usize,
    body: Seq<Seq<char>>,
    from: int,
    p: int,
)
    requires
        0 <= from,
        again.flavor == doc.flavor,
        again.paragraphs == paragraphs_from(again.lines, 0, false),
        blanks_fit(again.lines, body, doc.prefix(), from),
        ({
            let st = doc_stretches(doc, limit, tab_width);
            let effective = doc_room(doc, limit, tab_width);
            &&& sound_stretches(st, doc.style)
            &&& body.len() == doc_lines(doc, limit, tab_width).len()
            &&& forall|k: int|
                0 < k < body.len() ==> #[trigger] body[k] == doc_lines(doc, limit, tab_width)[k]
            &&& !preformatted(again.lines[from].kind) ==> body[0] == doc_lines(
                doc,
                limit,
                tab_width,
            )[0]
            &&& forall|k: int|
                0 <= k < body.len() ==> #[trigger] row_goes_out(
                    again,
                    body,
                    k,
                    doc.prefix(),
                    is_block(doc.style),
                    from,
                )
            &&& forall|i: int, j: int|
                0 <= i < st.len() && st[i].kind == ParagraphKind::Prose && 0 <= j
                    < st[i].lines.len() ==> #[trigger] prose_read(
                    again,
                    doc,
                    st,
                    effective,
                    from,
                    i,
                    j,
                )
            &&& lies_in_stretch(again.paragraphs[p], doc, st, effective, from)
        }),
        0 <= p < again.paragraphs.len(),
    ensures
        holds_paragraph(
            again,
            again.paragraphs[p],
            body,
            doc.prefix(),
            doc_room(doc, limit, tab_width),
            is_block(doc.style),
            from,
        ),
{
    let st = doc_stretches(doc, limit, tab_width);
    let effective = doc_room(doc, limit, tab_width);
    let inline = is_block(doc.style);
    let prefix = doc.prefix();
    let para = again.paragraphs[p];
    let lines = again.lines;
    lemma_paragraph_rows(lines, 0, false, p);
    let a = para.line_indices[0] as int;
    let n = para.line_indices.len() as int;
    assert(from <= a && a + n <= from + body.len()) by {
        assert(lines[a].kind != LineKind::Blank);
        assert(lines[a + n - 1].kind != LineKind::Blank);
    }
    let want = body.subrange(a - from, a - from + n);
    let got = paragraph_lines(again, para, prefix, effective, inline);
    match para.kind {
        ParagraphKind::Preformatted => {
            assert forall|j: int| 0 <= j < n implies got[j] == want[j] by {
                assert(para.line_indices[j] == (a + j) as usize);
                assert(preformatted(lines[a + j].kind));
                let k = a + j - from;
                assert(row_goes_out(again, body, k, prefix, inline, from));
            }
            assert(got =~= want);
        },
        ParagraphKind::AtxHeader => {
            assert(row_goes_out(again, body, a - from, prefix, inline, from));
            assert(lines[a].kind == LineKind::AtxHeader);
            assert(got =~= want);
        },
        ParagraphKind::Prose => {
            let (i, x, y) = choose|i: int, x: int, y: int|
                part_of_stretch(para, doc, st, effective, from, i, x, y);
            assert(part_of_stretch(para, doc, st, effective, from, i, x, y));
            lemma_prose_stands(doc, again, limit, tab_width, body, from, para, i, x, y);
        },
    }
}

/// A paragraph of prose goes out as its lines stand.
proof fn lemma_prose_stands(
    doc: DocText,
    again: DocText,
    limit: usize,
    tab_width: usize,
    body: Seq<Seq<char>>,
    from: int,
    para: ParagraphText,
    i: int,
    x: int,
    y: int,
)
    requires
        0 <= from,
        again.flavor == doc.flavor,
        para.kind == ParagraphKind::Prose,
        from + body.len() <= again.lines.len() <= usize::MAX,
        ({
            let st = doc_stretches(doc, limit, tab_width);
            let effective = doc_room(doc, limit, tab_width);
            let a = para.line_indices[0] as int;
            &&& sound_stretches(st, doc.style)
            &&& body.len() == doc_lines(doc, limit, tab_width).len()
            &&& forall|k: int|
                0 < k < body.len() ==> #[trigger] body[k] == doc_lines(doc, limit, tab_width)[k]
            &&& a == from ==> body[0] == doc_lines(doc, limit, tab_width)[0]
            &&& forall|i: int, j: int|
                0 <= i < st.len() && st[i].kind == ParagraphKind::Prose && 0 <= j
                    < st[i].lines.len() ==> #[trigger] prose_read(
                    again,
                    doc,
                    st,
                    effective,
                    from,
                    i,
                    j,
                )
            &&& part_of_stretch(para, doc, st, effective, from, i, x, y)
        }),
    ensures
        holds_paragraph(
            again,
            para,
            body,
            doc.prefix(),
            doc_room(doc, limit, tab_width),
            is_block(doc.style),
            from,
        ),
{
    let st = doc_stretches(doc, limit, tab_width);
    let effective = doc_room(doc, limit, tab_width);
    let prefix = doc.prefix();
    let s = st[i];
    let at = start_of(st, i, prefix, from);
    let at0 = start_of(st, i, prefix, 0);
    assert(sound_stretch(s, doc.style));
    lemma_stretch_of(doc, limit, tab_width, i);
    lemma_line_at(st, st.len() as int, i, x, prefix);
    lemma_line_at(st, st.len() as int, i, y - 1, prefix);
    assert(at == from + at0);
    assert forall|j: int| x <= j < y implies #[trigger] prose_read(
        again,
        doc,
        st,
        effective,
        from,
        i,
        j,
    ) by {}
    lemma_prose_out(doc, again, st, effective, from, para, i, x, y);
    assert(para.line_indices[0] == (at + x) as usize);
    let got = prose_lines(again, para, prefix, effective);
    let want = body.subrange(at0 + x, at0 + y);
    assert forall|j: int| 0 <= j < y - x implies got[j] == want[j] by {
        lemma_line_at(st, st.len() as int, i, x + j, prefix);
        assert(body[at0 + x + j] == s.lines[x + j]);
    }
    assert(got =~= want);
}

/// Part of a stretch goes out as it stands.
#[verifier::spinoff_prover]
#[verifier::rlimit(80)]
proof fn lemma_prose_out(
    doc: DocText,
    again: DocText,
    st: Seq<Stretch>,
    effective: usize,
    from: int,
    para: ParagraphText,
    i: int,
    x: int,
    y: int,
)
    requires
        0 <= from,
        again.flavor == doc.flavor,
        part_of_stretch(para, doc, st, effective, from, i, x, y),
        proper_stretch(doc, st[i], doc.prefix(), effective, is_block(doc.style)),
        words_of(st[i].piece).len() > 0,
        start_of(st, i, doc.prefix(), from) + y <= again.lines.len() <= usize::MAX,
        forall|j: int|
            x <= j < y ==> #[trigger] prose_read(again, doc, st, effective, from, i, j),
    ensures
        prose_lines(again, para, doc.prefix(), effective) == Seq::new(
            (y - x) as nat,
            |j: int| st[i].lines[x + j],
        ),
{
    let prefix = doc.prefix();
    let s = st[i];
    let words = words_of(s.piece);
    let hang = piece_hang(s.piece, effective, doc.flavor);
    let starts = stretch_starts(s, effective, doc.flavor);
    let base = start_of(st, i, prefix, from) + x;
    lemma_stretch_lines(doc, s, prefix, effective);
    assert forall|j: int| 0 <= j < y - x implies trimmed((#[trigger] again.lines[base + j]).text)
        == line_body(words, starts, x + j) by {
        assert(prose_read(again, doc, st, effective, from, i, x + j));
    }
    lemma_part_again(again, para, words, starts, x, y, base, prefix, effective, hang);
    assert(prose_lines(again, para, prefix, effective) =~= Seq::new(
        (y - x) as nat,
        |j: int| s.lines[x + j],
    ));
}

/// The lines of a stretch of prose.
pub proof fn lemma_stretch_lines(doc: DocText, s: Stretch, prefix: Seq<char>, effective: usize)
    requires
        s.kind == ParagraphKind::Prose,
        proper_stretch(doc, s, prefix, effective, is_block(doc.style)),
        words_of(s.piece).len() > 0,
    ensures
        ({
            let words = words_of(s.piece);
            let hang = piece_hang(s.piece, effective, doc.flavor);
            let starts = stretch_starts(s, effective, doc.flavor);
            &&& all_words(words)
            &&& valid_starts(starts, words.len() as int)
            &&& s.lines.len() == starts.len()
            &&& forall|j: int|
                0 <= j < s.lines.len() ==> #[trigger] s.lines[j] == line_lead(prefix, hang, j)
                    + line_body(words, starts, j)
        }),
{
    lemma_words_are_words(s.piece);
    law_lines_partition_words(
        words_of(s.piece),
        effective as nat,
        piece_hang(s.piece, effective, doc.flavor),
    );
}

pub proof fn lemma_stretch_of(doc: DocText, limit: usize, tab_width: usize, i: int)
    requires
        0 <= i < doc_stretches(doc, limit, tab_width).len(),
    ensures
        proper_stretch(
            doc,
            doc_stretches(doc, limit, tab_width)[i],
            doc.prefix(),
            doc_room(doc, limit, tab_width),
            is_block(doc.style),
        ),
{
    reveal(doc_stretches);
    lemma_proper_stretches(
        doc,
        doc.paragraphs.len() as int,
        doc.prefix(),
        doc_room(doc, limit, tab_width),
        is_block(doc.style),
        i,
    );
}

/// The body lines of a comment that is read again.
pub proof fn lemma_body_of(
    doc: DocText,
    again: DocText,
    limit: usize,
    tab_width: usize,
    first: Seq<char>,
    from: int,
)
    requires
        0 <= from,
        again.flavor == doc.flavor,
        again.paragraphs == paragraphs_from(again.lines, 0, false),
        ({
            let st = doc_stretches(doc, limit, tab_width);
            let effective = doc_room(doc, limit, tab_width);
            let given = doc_lines(doc, limit, tab_width);
            let body = given.update(0, first);
            &&& sound_stretches(st, doc.style)
            &&& blanks_fit(again.lines, given, doc.prefix(), from)
            &&& !preformatted(again.lines[from].kind) ==> first == given[0]
            &&& forall|k: int|
                0 <= k < body.len() ==> #[trigger] row_goes_out(
                    again,
                    body,
                    k,
                    doc.prefix(),
                    is_block(doc.style),
                    from,
                )
            &&& forall|i: int, j: int|
                0 <= i < st.len() && st[i].kind == ParagraphKind::Prose && 0 <= j
                    < st[i].lines.len() ==> #[trigger] prose_read(
                    again,
                    doc,
                    st,
                    effective,
                    from,
                    i,
                    j,
                )
            &&& forall|p: int|
                0 <= p < again.paragraphs.len() ==> lies_in_stretch(
                    #[trigger] again.paragraphs[p],
                    doc,
                    st,
                    effective,
                    from,
                )
        }),
    ensures
        body_lines(
            again,
            doc.prefix(),
            doc_room(doc, limit, tab_width),
            is_block(doc.style),
        ) == doc_lines(doc, limit, tab_width).update(0, first),
{
    let given = doc_lines(doc, limit, tab_width);
    let body = given.update(0, first);
    let prefix = doc.prefix();
    assert(blanks_fit(again.lines, body, prefix, from)) by {
        assert forall|k: int| 0 <= k < body.len() implies #[trigger] blank_fits(
            again.lines,
            body,
            prefix,
            from,
            k,
        ) by {
            assert(blank_fits(again.lines, given, prefix, from, k));
        }
    }
    assert forall|p: int| 0 <= p < again.paragraphs.len() implies holds_paragraph(
        again,
        #[trigger] again.paragraphs[p],
        body,
        prefix,
        doc_room(doc, limit, tab_width),
        is_block(doc.style),
        from,
    ) by {
        lemma_paragraph_stands(doc, again, limit, tab_width, body, from, p);
    }
    lemma_body_stands(
        again,
        body,
        prefix,
        doc_room(doc, limit, tab_width),
        is_block(doc.style),
        from,
    );
}

/// The prefix without the space behind it.
pub proof fn lemma_bare(a: Seq<char>)
    requires
        a.len() > 0,
        a.last() != ' ',
    ensures
        bare_prefix(a + " "@) == a,
{
    reveal_strlit(" ");
    let s = a + " "@;
    assert(s[s.len() - 2] == a.last());
    lemma_trail_len(s, CharClass::One(' '), 1);
    assert(bare_prefix(s) =~= a);
}

pub proof fn lemma_concat_unbroken(a: Seq<char>, b: Seq<char>)
    requires
        all_in(a, CharClass::NotOne('\n')),
        all_in(b, CharClass::NotOne('\n')),
    ensures
        all_in(a + b, CharClass::NotOne('\n')),
{
    let s = a + b;
    assert forall|i: int| 0 <= i < s.len() implies in_class(
        #[trigger] s[i],
        CharClass::NotOne('\n'),
    ) by {
        if i < a.len() {
            assert(s[i] == a[i]);
            assert(in_class(a[i], CharClass::NotOne('\n')));
        } else {
            assert(s[i] == b[i - a.len()]);
            assert(in_class(b[i - a.len()], CharClass::NotOne('\n')));
        }
    }
}

pub proof fn lemma_blanks_unbroken(a: Seq<char>)
    requires
        all_in(a, CharClass::Blank),
    ensures
        all_in(a, CharClass::NotOne('\n')),
{
    assert forall|i: int| 0 <= i < a.len() implies in_class(
        #[trigger] a[i],
        CharClass::NotOne('\n'),
    ) by {
        assert(in_class(a[i], CharClass::Blank));
    }
}

/// A line of prose: words behind the prefix and the hanging indent.
pub proof fn lemma_prose_shape(
    doc: DocText,
    s: Stretch,
    prefix: Seq<char>,
    effective: usize,
    inline_opener: bool,
    j: int,
) -> (r: (nat, Seq<char>))
    requires
        s.kind == ParagraphKind::Prose,
        proper_stretch(doc, s, prefix, effective, inline_opener),
        words_of(s.piece).len() > 0,
        0 <= j < s.lines.len(),
    ensures
        s.lines[j] == prefix + repeated(' ', r.0) + r.1,
        r.1.len() > 0,
        !is_white(r.1[0]),
        !is_white(r.1.last()),
        all_in(r.1, CharClass::NotOne('\n')),
        r.0 == if j == 0 {
            0
        } else {
            piece_hang(s.piece, effective, doc.flavor)
        },
        r.1 == line_body(
            words_of(s.piece),
            line_starts(
                words_of(s.piece),
                effective as nat,
                piece_hang(s.piece, effective, doc.flavor),
            ),
            j,
        ),
{
    let p = s.piece;
    let words = words_of(p);
    let hang = piece_hang(p, effective, doc.flavor);
    let starts = line_starts(words, effective as nat, hang);
    lemma_words_are_words(p);
    law_lines_partition_words(words, effective as nat, hang);
    lemma_start_bounds(starts, words.len() as int, j);
    if j + 1 < starts.len() {
        lemma_start_bounds(starts, words.len() as int, j + 1);
        assert(starts[j] < starts[j + 1]);
    }
    lemma_line_shape(words, starts[j], line_end(words, starts, j));
    let pad = if j == 0 {
        0
    } else {
        hang
    };
    assert(j == 0 ==> prefix + repeated(' ', 0) =~= prefix);
    (pad, line_body(words, starts, j))
}

/// The lines of prose hold no break and end in no white space.
pub proof fn lemma_prose_line(
    doc: DocText,
    s: Stretch,
    prefix: Seq<char>,
    effective: usize,
    inline_opener: bool,
    j: int,
)
    requires
        s.kind == ParagraphKind::Prose,
        proper_stretch(doc, s, prefix, effective, inline_opener),
        words_of(s.piece).len() > 0,
        all_in(prefix, CharClass::NotOne('\n')),
        0 <= j < s.lines.len(),
    ensures
        unbroken(s.lines[j]),
        s.lines[j].len() > prefix.len(),
        !is_white(s.lines[j].last()),
        has_prefix(s.lines[j], prefix),
        j == 0 ==> !is_white(s.lines[j][prefix.len() as int]),
{
    let (n, body) = lemma_prose_shape(doc, s, prefix, effective, inline_opener, j);
    let pad = repeated(' ', n);
    let l = s.lines[j];
    assert(all_in(pad, CharClass::Blank));
    lemma_blanks_unbroken(pad);
    lemma_concat_unbroken(prefix, pad);
    lemma_concat_unbroken(prefix + pad, body);
    assert(l.last() == body.last());
    assert(l.subrange(0, prefix.len() as int) =~= prefix);
}

/// No line holds a break.
pub proof fn lemma_lines_unbroken(doc: DocText, limit: usize, tab_width: usize, k: int)
    requires
        sound_stretches(doc_stretches(doc, limit, tab_width), doc.style),
        all_in(doc.prefix(), CharClass::NotOne('\n')),
        unbroken(bare_prefix(doc.prefix())),
        0 <= k < doc_lines(doc, limit, tab_width).len(),
    ensures
        unbroken(doc_lines(doc, limit, tab_width)[k]),
{
    reveal(doc_stretches);
    let st = doc_stretches(doc, limit, tab_width);
    let prefix = doc.prefix();
    let effective = doc_room(doc, limit, tab_width);
    let inline = is_block(doc.style);
    let n = doc.paragraphs.len() as int;
    if doc_lines(doc, limit, tab_width)[k] != bare_prefix(prefix) {
        let (i, j) = lemma_line_of(st, st.len() as int, k, prefix);
        assert(sound_stretch(st[i], doc.style));
        if st[i].kind == ParagraphKind::Prose {
            lemma_proper_stretches(doc, n, prefix, effective, inline, i);
            lemma_prose_line(doc, st[i], prefix, effective, inline, j);
        } else {
            assert(unbroken(st[i].lines[j]));
        }
    }
}

/// The first line of a comment's text stretch.
pub proof fn lemma_first_line(doc: DocText, limit: usize, tab_width: usize)
    requires
        sound_stretches(doc_stretches(doc, limit, tab_width), doc.style),
        doc_stretches(doc, limit, tab_width)[0].kind != ParagraphKind::Preformatted,
        all_in(doc.prefix(), CharClass::NotOne('\n')),
    ensures
        doc_lines(doc, limit, tab_width).len() > 0,
        doc_lines(doc, limit, tab_width)[0] == doc_stretches(doc, limit, tab_width)[0].lines[0],
        has_prefix(doc_lines(doc, limit, tab_width)[0], doc.prefix()),
{
    let st = doc_stretches(doc, limit, tab_width);
    let prefix = doc.prefix();
    let effective = doc_room(doc, limit, tab_width);
    let inline = is_block(doc.style);
    reveal(doc_stretches);
    assert(sound_stretch(st[0], doc.style));
    lemma_first_laid(st, st.len() as int, prefix);
    lemma_proper_stretches(doc, doc.paragraphs.len() as int, prefix, effective, inline, 0);
    if st[0].kind == ParagraphKind::Prose {
        lemma_prose_line(doc, st[0], prefix, effective, inline, 0);
    } else {
        let l = st[0].lines[0];
        assert(l.subrange(0, prefix.len() as int) =~= prefix);
    }
}

proof fn lemma_marker_unbroken(m: Seq<char>)
    requires
        plain_marker(m),
    ensures
        all_in(m, CharClass::NotOne('\n')),
        m.len() > 0,
        m.last() != ' ',
        m.last() != '\r',
        m[0] == '/' || m[0] == '#',
{
    reveal_strlit("///");
    reveal_strlit("//!");
    reveal_strlit("//");
    reveal_strlit("#!");
    if m.len() > 0 && all_in(m, CharClass::One('#')) {
        assert forall|i: int| 0 <= i < m.len() implies in_class(
            #[trigger] m[i],
            CharClass::NotOne('\n'),
        ) by {
            assert(in_class(m[i], CharClass::One('#')));
        }
        assert(in_class(m[m.len() - 1], CharClass::One('#')));
        assert(in_class(m[0], CharClass::One('#')));
    }
}

/// The line comment has stretches, and its text is what they are laid out as.
pub open spec fn line_comment_emitted(
    doc: DocText,
    d: CommentText,
    marker: Seq<char>,
    crlf: bool,
    brk: Seq<char>,
    limit: usize,
    tab_width: usize,
) -> bool {
    let lines = doc_lines(doc, limit, tab_width);
    &&& is_break(brk)
    &&& doc.style == Style::Line || doc.style == Style::DocLine
    &&& doc.line_marker == Some(marker)
    &&& plain_marker(marker)
    &&& all_in(doc.indent, CharClass::Blank)
    &&& d.line_indent_bytes == doc.indent
    &&& sound_stretches(doc_stretches(doc, limit, tab_width), doc.style)
    &&& d.text == joined(line_comment_lines(doc, lines), eol_of(crlf)) + brk
    &&& line_marker_of(d.text) == Some(marker)
}

pub proof fn lemma_line_prefix(doc: DocText, marker: Seq<char>)
    requires
        doc.style == Style::Line || doc.style == Style::DocLine,
        doc.line_marker == Some(marker),
        plain_marker(marker),
        all_in(doc.indent, CharClass::Blank),
    ensures
        doc.prefix() == doc.indent + marker + " "@,
        all_in(doc.prefix(), CharClass::NotOne('\n')),
        bare_prefix(doc.prefix()) == doc.indent + marker,
        unbroken(bare_prefix(doc.prefix())),
        bare_prefix(doc.prefix()).len() > 0,
{
    reveal_strlit(" ");
    lemma_marker_unbroken(marker);
    lemma_blanks_unbroken(doc.indent);
    lemma_concat_unbroken(doc.indent, marker);
    assert(all_in(" "@, CharClass::NotOne('\n')));
    lemma_concat_unbroken(doc.indent + marker, " "@);
    assert((doc.indent + marker).last() == marker.last());
    lemma_bare(doc.indent + marker);
}

/// The last line holds something.
proof fn lemma_last_line(doc: DocText, limit: usize, tab_width: usize)
    requires
        !is_block(doc.style),
        sound_stretches(doc_stretches(doc, limit, tab_width), doc.style),
        all_in(doc.prefix(), CharClass::NotOne('\n')),
        bare_prefix(doc.prefix()).len() > 0,
    ensures
        doc_lines(doc, limit, tab_width).len() > 0,
        doc_lines(doc, limit, tab_width).last().len() > 0,
{
    reveal(doc_stretches);
    let st = doc_stretches(doc, limit, tab_width);
    let prefix = doc.prefix();
    let effective = doc_room(doc, limit, tab_width);
    let lines = doc_lines(doc, limit, tab_width);
    assert(sound_stretch(st[0], doc.style));
    lemma_first_laid(st, st.len() as int, prefix);
    let last = lines.len() - 1;
    if lines[last] != bare_prefix(prefix) {
        let (i, j) = lemma_line_of(st, st.len() as int, last, prefix);
        assert(sound_stretch(st[i], doc.style));
        if st[i].kind == ParagraphKind::Prose {
            let n = doc.paragraphs.len() as int;
            lemma_proper_stretches(doc, n, prefix, effective, false, i);
            lemma_prose_line(doc, st[i], prefix, effective, false, j);
        } else {
            assert(unbroken(st[i].lines[j]));
        }
    }
}

/// The rows of an emitted line comment.
#[verifier::spinoff_prover]
#[verifier::rlimit(40)]
proof fn lemma_line_rows(
    doc: DocText,
    d: CommentText,
    marker: Seq<char>,
    crlf: bool,
    brk: Seq<char>,
    limit: usize,
    tab_width: usize,
)
    requires
        line_comment_emitted(doc, d, marker, crlf, brk, limit, tab_width),
    ensures
        ({
            let lines = doc_lines(doc, limit, tab_width);
            let rows = line_comment_lines(doc, lines);
            let raw = source_lines(d.text);
            &&& rows.len() == lines.len() > 0
            &&& raw.len() == rows.len()
            &&& forall|k: int|
                0 <= k < rows.len() ==> (#[trigger] raw[k]).body == rows[k] && (k < rows.len() - 1
                    ==> raw[k].had_crlf == crlf)
            &&& forall|k: int| 0 < k < rows.len() ==> #[trigger] rows[k] == lines[k]
            &&& rows[0].len() > 0 && !in_class(rows[0][0], CharClass::Blank)
        }),
{
    let lines = doc_lines(doc, limit, tab_width);
    let rows = line_comment_lines(doc, lines);
    lemma_line_prefix(doc, marker);
    lemma_last_line(doc, limit, tab_width);
    assert(rows.len() == lines.len());
    assert forall|k: int| 0 <= k < rows.len() implies unbroken(#[trigger] rows[k]) by {
        lemma_lines_unbroken(doc, limit, tab_width, k);
        if k == 0 {
            lemma_tail_unbroken(lines[0], doc.indent.len() as int);
        }
    }
    let whole = joined(rows, eol_of(crlf));
    lemma_joined_opens(rows, eol_of(crlf));
    lemma_marker_leads(d.text, marker);
    reveal_strlit("\n");
    reveal_strlit("\r\n");
    if rows[0].len() == 0 {
        if rows.len() > 1 {
            lemma_joined_starts(rows, eol_of(crlf));
            assert(d.text[0] == whole[0]);
        } else {
            assert(whole == rows[0]);
            assert(d.text =~= brk);
        }
    }
    assert(rows[0].len() > 0);
    assert(whole.take(rows[0].len() as int)[0] == rows[0][0]);
    assert(d.text[0] == whole[0]);
    assert(rows.last().len() > 0) by {
        if rows.len() > 1 {
            assert(rows.last() == lines.last());
        }
    }
    lemma_ended_lines(rows, crlf, brk);
}

proof fn lemma_tail_unbroken(l: Seq<char>, n: int)
    requires
        unbroken(l),
        0 <= n,
    ensures
        n <= l.len() ==> unbroken(l.skip(n)),
{
    if n <= l.len() {
        let t = l.skip(n);
        assert forall|i: int| 0 <= i < t.len() implies in_class(
            #[trigger] t[i],
            CharClass::NotOne('\n'),
        ) by {
            assert(t[i] == l[n + i]);
            assert(in_class(l[n + i], CharClass::NotOne('\n')));
        }
    }
}

/// A text with a marker starts with the marker's first character.
proof fn lemma_marker_leads(text: Seq<char>, marker: Seq<char>)
    requires
        line_marker_of(text) == Some(marker),
    ensures
        text.len() > 0,
        text[0] == '/' || text[0] == '#',
{
    reveal_strlit("///");
    reveal_strlit("//!");
    reveal_strlit("//");
    reveal_strlit("#!");
    if has_prefix(text, "///"@) {
        assert(text.subrange(0, 3)[0] == '/');
    } else if has_prefix(text, "//!"@) {
        assert(text.subrange(0, 3)[0] == '/');
    } else if has_prefix(text, "//"@) {
        assert(text.subrange(0, 2)[0] == '/');
    } else if has_prefix(text, "#!"@) {
        assert(text.subrange(0, 2)[0] == '#');
    }
}

/// Behind an empty first part comes the separator.
proof fn lemma_joined_starts(lines: Seq<Seq<char>>, sep: Seq<char>)
    requires
        lines.len() > 1,
        lines[0].len() == 0,
        sep.len() > 0,
    ensures
        joined(lines, sep).len() > 0,
        joined(lines, sep)[0] == sep[0],
    decreases lines.len(),
{
    let head = lines.drop_last();
    if lines.len() > 2 {
        lemma_joined_starts(head, sep);
    } else {
        assert(joined(head, sep) == lines[0]);
    }
}

/// A line of a comment without decoration.
pub proof fn lemma_read_line(d: CommentText, kind: Kind, limit: usize, k: int)
    requires
        keeps_bodies(d, kind),
        0 <= k < source_lines(d.text).len(),
    ensures
        ({
            let raw = source_lines(d.text);
            let again = d.body(kind, limit);
            &&& again.len() == raw.len()
            &&& again[k].raw == raw[k].body
            &&& again[k].had_crlf == raw[k].had_crlf
            &&& again[k].text == line_stripped(
                raw[k].body,
                kind.style,
                k == 0,
                k == raw.len() - 1,
            ).1
        }),
{
    let raw = source_lines(d.text);
    let marked = lines_stripped(raw, kind.style);
    assert(d.plain_lines(kind)[k].body == marked[k].body);
}

/// The text of a row of a line comment.
proof fn lemma_row_text(
    indent: Seq<char>,
    marker: Seq<char>,
    line: Seq<char>,
    row: Seq<char>,
    first: bool,
)
    requires
        all_in(indent, CharClass::Blank),
        plain_marker(marker),
        row == if first && has_prefix(line, indent) {
            line.skip(indent.len() as int)
        } else {
            line
        },
        first ==> row.len() > 0 && !in_class(row[0], CharClass::Blank),
    ensures
        ({
            let prefix = indent + marker + " "@;
            let text = line_marker_stripped(row).1;
            let m = prefix.len() as int;
            &&& has_prefix(line, prefix) ==> text == line.skip(m)
            &&& has_prefix(row, prefix) ==> text == row.skip(m)
        }),
{
    let prefix = indent + marker + " "@;
    let m = prefix.len() as int;
    let n = indent.len() as int;
    if has_prefix(line, prefix) {
        let x = line.skip(m);
        assert(line.subrange(0, m) == prefix);
        assert(line =~= prefix + x);
        if first {
            let none = Seq::<char>::empty();
            assert(line.subrange(0, n) =~= indent);
            assert(row =~= none + marker + " "@ + x);
            lemma_stripped(none, marker, x);
        } else {
            lemma_stripped(indent, marker, x);
        }
    }
    if has_prefix(row, prefix) {
        let x = row.skip(m);
        assert(row.subrange(0, m) == prefix);
        assert(row =~= prefix + x);
        lemma_stripped(indent, marker, x);
    }
}

/// The rows of an emitted line comment, and what is behind their markers.
pub proof fn lemma_line_marked(
    doc: DocText,
    d: CommentText,
    marker: Seq<char>,
    crlf: bool,
    brk: Seq<char>,
    limit: usize,
    tab_width: usize,
    k: int,
)
    requires
        line_comment_emitted(doc, d, marker, crlf, brk, limit, tab_width),
        0 <= k < doc_lines(doc, limit, tab_width).len(),
    ensures
        ({
            let lines = doc_lines(doc, limit, tab_width);
            let rows = line_comment_lines(doc, lines);
            let raw = source_lines(d.text);
            let text = line_marker_stripped(rows[k]).1;
            let n = doc.prefix().len() as int;
            &&& raw.len() == lines.len()
            &&& raw[k].body == rows[k]
            &&& k < rows.len() - 1 ==> raw[k].had_crlf == crlf
            &&& has_prefix(lines[k], doc.prefix()) ==> text == lines[k].skip(n)
            &&& has_prefix(rows[k], doc.prefix()) ==> text == rows[k].skip(n)
        }),
{
    lemma_line_rows(doc, d, marker, crlf, brk, limit, tab_width);
    lemma_line_prefix(doc, marker);
    let lines = doc_lines(doc, limit, tab_width);
    let rows = line_comment_lines(doc, lines);
    lemma_row_text(doc.indent, marker, lines[k], rows[k], k == 0);
}

/// What a line comment says when it is read again: a text behind each marker, in
/// the rows that were emitted.
proof fn lemma_line_texts(
    doc: DocText,
    d: CommentText,
    kind: Kind,
    marker: Seq<char>,
    crlf: bool,
    brk: Seq<char>,
    limit: usize,
    tab_width: usize,
    k: int,
)
    requires
        line_comment_emitted(doc, d, marker, crlf, brk, limit, tab_width),
        kind.style == doc.style,
        keeps_bodies(d, kind),
        0 <= k < doc_lines(doc, limit, tab_width).len(),
    ensures
        ({
            let lines = doc_lines(doc, limit, tab_width);
            let rows = line_comment_lines(doc, lines);
            let again = d.body(kind, limit);
            &&& again.len() == lines.len()
            &&& again[k].raw == rows[k]
            &&& k < rows.len() - 1 ==> again[k].had_crlf == crlf
            &&& text_read(again[k], lines[k], doc.prefix())
            &&& text_read(again[k], rows[k], doc.prefix())
        }),
{
    lemma_line_marked(doc, d, marker, crlf, brk, limit, tab_width, k);
    lemma_read_line(d, kind, limit, k);
}

/// A line that keeps its layout goes out as it stands.
proof fn lemma_line_kept(again: DocText, k: int, line: Seq<char>, prefix: Seq<char>)
    requires
        !is_block(again.style),
        again.lines[k].raw == line,
        text_read(again.lines[k], line, prefix),
        again.lines[k].kind == LineKind::LabelRow || again.lines[k].kind == LineKind::Banner
            ==> has_prefix(line, prefix) && trimmed_end(line) == line,
    ensures
        raw_line(again, k, prefix, false) == line,
{
    if has_prefix(line, prefix) {
        assert(line.subrange(0, prefix.len() as int) == prefix);
        assert(prefix + again.lines[k].text =~= line);
    }
}

/// Rows that are read with one kind of line ending are joined by it again.
pub proof fn lemma_joined_again(again: DocText, rows: Seq<Seq<char>>, crlf: bool)
    requires
        rows.len() > 0,
        again.lines.len() == rows.len(),
        forall|k: int|
            0 <= k < rows.len() - 1 ==> (#[trigger] again.lines[k]).had_crlf == crlf,
    ensures
        joined(rows, again.ending()) == joined(rows, eol_of(crlf)),
{
    if rows.len() >= 2 {
        law_line_endings_survive(again, crlf);
    }
}

/// The first row of a line comment is the same with and without indentation in
/// front of it.
proof fn lemma_same_rows(
    doc: DocText,
    again: DocText,
    lines: Seq<Seq<char>>,
    first: Seq<char>,
)
    requires
        lines.len() > 0,
        again.indent == doc.indent,
        all_in(doc.indent, CharClass::Blank),
        line_comment_lines(doc, lines)[0].len() > 0,
        !in_class(line_comment_lines(doc, lines)[0][0], CharClass::Blank),
        first == lines[0] || first == line_comment_lines(doc, lines)[0],
    ensures
        line_comment_lines(again, lines.update(0, first)) == line_comment_lines(doc, lines),
{
    let rows = line_comment_lines(doc, lines);
    let indent = doc.indent;
    let other = lines.update(0, first);
    if first == lines[0] {
        assert(other =~= lines);
    } else {
        if has_prefix(first, indent) && indent.len() > 0 {
            assert(first.subrange(0, indent.len() as int)[0] == indent[0]);
            assert(in_class(indent[0], CharClass::Blank));
        }
        if indent.len() == 0 {
            assert(first.skip(0) =~= first);
        }
        assert(line_comment_lines(again, other) =~= rows);
    }
}

/// An emitted line comment ends in no line break.
pub proof fn lemma_line_ends(
    doc: DocText,
    d: CommentText,
    marker: Seq<char>,
    crlf: bool,
    brk: Seq<char>,
    limit: usize,
    tab_width: usize,
)
    requires
        line_comment_emitted(doc, d, marker, crlf, brk, limit, tab_width),
    ensures
        ({
            let text = joined(
                line_comment_lines(doc, doc_lines(doc, limit, tab_width)),
                eol_of(crlf),
            );
            text.len() > 0 && text.last() != '\n' && text.last() != '\r'
        }),
{
    let lines = doc_lines(doc, limit, tab_width);
    let rows = line_comment_lines(doc, lines);
    let last = rows.len() - 1;
    lemma_line_prefix(doc, marker);
    lemma_last_line(doc, limit, tab_width);
    lemma_line_rows(doc, d, marker, crlf, brk, limit, tab_width);
    lemma_lines_unbroken(doc, limit, tab_width, last);
    lemma_lines_unbroken(doc, limit, tab_width, 0);
    lemma_tail_unbroken(lines[0], doc.indent.len() as int);
    let l = rows[last];
    assert(unbroken(l) && l.len() > 0) by {
        if last > 0 {
            assert(l == lines[last]);
        }
    }
    crate::rows::lemma_joined_last(rows, eol_of(crlf));
    assert(in_class(l[l.len() - 1], CharClass::NotOne('\n')));
}

/// The first line that goes out when the comment is laid out again.
spec fn first_again(again: DocText, lines: Seq<Seq<char>>, prefix: Seq<char>) -> Seq<char> {
    if preformatted(again.lines[0].kind) {
        raw_line(again, 0, prefix, false)
    } else {
        lines[0]
    }
}

/// A line of an emitted line comment goes out as it stands.
#[verifier::spinoff_prover]
#[verifier::rlimit(80)]
proof fn lemma_line_goes_out(
    doc: DocText,
    d: CommentText,
    kind: Kind,
    lang: Language,
    marker: Seq<char>,
    crlf: bool,
    brk: Seq<char>,
    limit: usize,
    tab_width: usize,
    k: int,
)
    requires
        line_comment_emitted(doc, d, marker, crlf, brk, limit, tab_width),
        kind.style == doc.style,
        reads_again(d, kind, lang, doc, limit, tab_width, 0),
        0 <= k < doc_lines(doc, limit, tab_width).len(),
    ensures
        ({
            let again = d.normalized(kind, lang, limit);
            let lines = doc_lines(doc, limit, tab_width);
            let first = first_again(again, lines, doc.prefix());
            &&& row_goes_out(again, lines.update(0, first), k, doc.prefix(), false, 0)
            &&& k == 0 ==> first == lines[0] || first == line_comment_lines(doc, lines)[0]
        }),
{
    let prefix = doc.prefix();
    let lines = doc_lines(doc, limit, tab_width);
    let rows = line_comment_lines(doc, lines);
    let again = d.normalized(kind, lang, limit);
    let first = first_again(again, lines, prefix);
    lemma_read_doc(d, kind, lang, doc, limit, tab_width, 0);
    lemma_line_rows(doc, d, marker, crlf, brk, limit, tab_width);
    lemma_line_texts(doc, d, kind, marker, crlf, brk, limit, tab_width, k);
    assert(row_stands(again.lines[0 + k], lines[k], prefix, is_block(doc.style)));
    let l = again.lines[k];
    if has_prefix(lines[k], prefix) {
        assert(lines[k].subrange(0, prefix.len() as int) == prefix);
        assert(prefix + l.text =~= lines[k]);
    }
    if k > 0 && preformatted(l.kind) {
        lemma_line_kept(again, k, lines[k], prefix);
    }
}

/// A line of prose of an emitted line comment is read.
proof fn lemma_line_prose_read(
    doc: DocText,
    d: CommentText,
    kind: Kind,
    lang: Language,
    marker: Seq<char>,
    crlf: bool,
    brk: Seq<char>,
    limit: usize,
    tab_width: usize,
    i: int,
    j: int,
)
    requires
        line_comment_emitted(doc, d, marker, crlf, brk, limit, tab_width),
        kind.style == doc.style,
        reads_again(d, kind, lang, doc, limit, tab_width, 0),
        0 <= i < doc_stretches(doc, limit, tab_width).len(),
        doc_stretches(doc, limit, tab_width)[i].kind == ParagraphKind::Prose,
        0 <= j < doc_stretches(doc, limit, tab_width)[i].lines.len(),
    ensures
        prose_read(
            d.normalized(kind, lang, limit),
            doc,
            doc_stretches(doc, limit, tab_width),
            doc_room(doc, limit, tab_width),
            0,
            i,
            j,
        ),
{
    let prefix = doc.prefix();
    let st = doc_stretches(doc, limit, tab_width);
    let effective = doc_room(doc, limit, tab_width);
    let k = start_of(st, i, prefix, 0) + j;
    lemma_read_doc(d, kind, lang, doc, limit, tab_width, 0);
    lemma_line_at(st, st.len() as int, i, j, prefix);
    lemma_line_texts(doc, d, kind, marker, crlf, brk, limit, tab_width, k);
    lemma_prose_text(doc, limit, tab_width, i, j);
}

/// What a line of prose says behind its prefix.
pub proof fn lemma_prose_text(doc: DocText, limit: usize, tab_width: usize, i: int, j: int)
    requires
        sound_stretches(doc_stretches(doc, limit, tab_width), doc.style),
        0 <= i < doc_stretches(doc, limit, tab_width).len(),
        doc_stretches(doc, limit, tab_width)[i].kind == ParagraphKind::Prose,
        0 <= j < doc_stretches(doc, limit, tab_width)[i].lines.len(),
    ensures
        ({
            let s = doc_stretches(doc, limit, tab_width)[i];
            let prefix = doc.prefix();
            &&& has_prefix(s.lines[j], prefix)
            &&& trimmed(s.lines[j].skip(prefix.len() as int)) == line_body(
                words_of(s.piece),
                stretch_starts(s, doc_room(doc, limit, tab_width), doc.flavor),
                j,
            )
        }),
{
    let s = doc_stretches(doc, limit, tab_width)[i];
    let prefix = doc.prefix();
    let effective = doc_room(doc, limit, tab_width);
    assert(sound_stretch(s, doc.style));
    lemma_stretch_of(doc, limit, tab_width, i);
    let (n, own) = lemma_prose_shape(doc, s, prefix, effective, is_block(doc.style), j);
    let l = s.lines[j];
    assert(l.subrange(0, prefix.len() as int) =~= prefix);
    assert(l.skip(prefix.len() as int) =~= repeated(' ', n) + own);
    lemma_trim_padded(n, own);
}

/// An emitted line comment is laid out again as it is.
pub proof fn lemma_line_comment_settles(
    doc: DocText,
    d: CommentText,
    kind: Kind,
    lang: Language,
    marker: Seq<char>,
    crlf: bool,
    brk: Seq<char>,
    limit: usize,
    tab_width: usize,
)
    requires
        line_comment_emitted(doc, d, marker, crlf, brk, limit, tab_width),
        kind.style == doc.style,
        kind.flavor == doc.flavor,
        reads_again(d, kind, lang, doc, limit, tab_width, 0),
    ensures
        reflowed(d.normalized(kind, lang, limit), limit, tab_width) == joined(
            line_comment_lines(doc, doc_lines(doc, limit, tab_width)),
            eol_of(crlf),
        ),
{
    let st = doc_stretches(doc, limit, tab_width);
    let prefix = doc.prefix();
    let effective = doc_room(doc, limit, tab_width);
    let lines = doc_lines(doc, limit, tab_width);
    let rows = line_comment_lines(doc, lines);
    let again = d.normalized(kind, lang, limit);
    let first = first_again(again, lines, prefix);
    lemma_read_doc(d, kind, lang, doc, limit, tab_width, 0);
    lemma_line_rows(doc, d, marker, crlf, brk, limit, tab_width);
    lemma_line_goes_out(doc, d, kind, lang, marker, crlf, brk, limit, tab_width, 0);
    assert forall|k: int| 0 <= k < lines.len() implies #[trigger] row_goes_out(
        again,
        lines.update(0, first),
        k,
        prefix,
        false,
        0,
    ) by {
        lemma_line_goes_out(doc, d, kind, lang, marker, crlf, brk, limit, tab_width, k);
    }
    assert forall|i: int, j: int|
        0 <= i < st.len() && st[i].kind == ParagraphKind::Prose && 0 <= j
            < st[i].lines.len() implies #[trigger] prose_read(
        again,
        doc,
        st,
        effective,
        0,
        i,
        j,
    ) by {
        lemma_line_prose_read(doc, d, kind, lang, marker, crlf, brk, limit, tab_width, i, j);
    }
    assert(!is_block(doc.style));
    lemma_body_of(doc, again, limit, tab_width, first, 0);
    assert(again.prefix() == prefix);
    lemma_same_rows(doc, again, lines, first);
    assert(comment_lines(again, limit, tab_width) == rows);
    assert forall|k: int| 0 <= k < rows.len() - 1 implies (#[trigger] again.lines[k]).had_crlf
        == crlf by {
        lemma_line_texts(doc, d, kind, marker, crlf, brk, limit, tab_width, k);
    }
    lemma_joined_again(again, rows, crlf);
    reveal(reflowed);
}

} // verus!
