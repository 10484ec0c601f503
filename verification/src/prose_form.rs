//! What the lines of an emitted comment of prose say.

use crate::block_settling::{
    block_emitted, first_row, fits_one_row, framed, lemma_block_marked, lemma_lines_stay_open,
    shared_text,
};
use crate::classify::Kind;
use crate::comment::CommentText;
use crate::linekind::{base_kind, StrippedText};
use crate::normalize::{
    line_marker_of, line_marker_stripped, lines_stripped, paragraphs_from, source_lines, DocText,
    LineKind, LineText, ParagraphKind,
};
use crate::reflow::{bare_prefix, is_block, line_comment_lines, piece_hang};
use crate::rows::{lemma_bare_row, lemma_closer_row, lemma_header_row, plain_marker};
use crate::second_pass::{lemma_line_of, lemma_trim_padded, stretches, Stretch};
use crate::settling::{
    doc_lines, doc_room, doc_stretches, keeps_bodies, lemma_line_marked, lemma_line_prefix,
    lemma_prose_line, lemma_prose_shape, line_comment_emitted, sound_stretch, sound_stretches,
};
use crate::text::{
    after_lead, all_in, has_prefix, in_class, lead_run, lemma_lead_len, repeated, trimmed, words_of,
    CharClass,
};
use crate::textline::is_bookend;
use crate::words::lemma_words_are_words;
use crate::wrap_laws::law_lines_read_well;
use vstd::prelude::*;

verus! {

/// The text of body line `k`.
pub open spec fn line_said(body: Seq<Seq<char>>, k: int, prefix: Seq<char>) -> Seq<char> {
    if body[k] == bare_prefix(prefix) {
        Seq::empty()
    } else {
        body[k].skip(prefix.len() as int)
    }
}

pub open spec fn all_prose(st: Seq<Stretch>) -> bool {
    forall|i: int| 0 <= i < st.len() ==> (#[trigger] st[i]).kind == ParagraphKind::Prose
}

/// The texts of a comment's rows: its body lines, and nothing around them.
pub open spec fn rows_said(
    marked: Seq<StrippedText>,
    body: Seq<Seq<char>>,
    prefix: Seq<char>,
    from: int,
) -> bool {
    &&& from + body.len() <= marked.len()
    &&& forall|r: int|
        0 <= r < marked.len() ==> (#[trigger] marked[r]).body == if from <= r < from + body.len() {
            line_said(body, r - from, prefix)
        } else {
            Seq::empty()
        }
}

pub proof fn lemma_stretch_proper(doc: DocText, limit: usize, tab_width: usize, i: int)
    requires
        0 <= i < doc_stretches(doc, limit, tab_width).len(),
    ensures
        crate::second_pass::proper_stretch(
            doc,
            doc_stretches(doc, limit, tab_width)[i],
            doc.prefix(),
            doc_room(doc, limit, tab_width),
            is_block(doc.style),
        ),
{
    crate::settling::lemma_stretch_of(doc, limit, tab_width, i);
}

/// A line of prose that is not empty stands behind the prefix.
proof fn lemma_prose_prefix(doc: DocText, limit: usize, tab_width: usize, k: int)
    requires
        sound_stretches(doc_stretches(doc, limit, tab_width), doc.style),
        all_prose(doc_stretches(doc, limit, tab_width)),
        all_in(doc.prefix(), CharClass::NotOne('\n')),
        0 <= k < doc_lines(doc, limit, tab_width).len(),
        doc_lines(doc, limit, tab_width)[k] != bare_prefix(doc.prefix()),
    ensures
        has_prefix(doc_lines(doc, limit, tab_width)[k], doc.prefix()),
        doc_lines(doc, limit, tab_width)[k].len() > doc.prefix().len(),
        !crate::text::is_white(doc_lines(doc, limit, tab_width)[k].last()),
{
    let st = doc_stretches(doc, limit, tab_width);
    let prefix = doc.prefix();
    let (i, j) = lemma_line_of(st, st.len() as int, k, prefix);
    assert(sound_stretch(st[i], doc.style));
    assert(st[i].kind == ParagraphKind::Prose);
    lemma_stretch_proper(doc, limit, tab_width, i);
    lemma_prose_line(
        doc,
        st[i],
        prefix,
        doc_room(doc, limit, tab_width),
        is_block(doc.style),
        j,
    );
}

/// A row of nothing but the marker has no text.
pub proof fn lemma_bare_marker(indent: Seq<char>, marker: Seq<char>)
    requires
        all_in(indent, CharClass::Blank),
        plain_marker(marker),
    ensures
        line_marker_stripped(indent + marker).1.len() == 0,
{
    reveal_strlit("///");
    reveal_strlit("//!");
    reveal_strlit("//");
    reveal_strlit("#!");
    reveal_strlit(" ");
    let line = indent + marker;
    assert(marker[0] == '/' || marker[0] == '#') by {
        if marker != "//"@ && marker != "///"@ && marker != "//!"@ && marker != "#!"@ {
            assert(in_class(marker[0], CharClass::One('#')));
        }
    }
    assert forall|i: int| 0 <= i < indent.len() implies in_class(
        #[trigger] line[i],
        CharClass::Blank,
    ) by {
        assert(line[i] == indent[i]);
    }
    assert(line[indent.len() as int] == marker[0]);
    lemma_lead_len(line, CharClass::Blank, indent.len() as int);
    let t = after_lead(line, CharClass::Blank);
    assert(t =~= marker);
    assert(t.subrange(0, t.len() as int) =~= marker);
    lemma_marker_alone(marker);
    assert(t.skip(t.len() as int).len() == 0);
}

/// A marker alone is its own marker.
pub proof fn lemma_marker_alone(m: Seq<char>)
    requires
        plain_marker(m),
    ensures
        crate::normalize::line_marker_of(m) == Some(m),
{
    reveal_strlit("///");
    reveal_strlit("//!");
    reveal_strlit("//");
    reveal_strlit("#!");
    assert(m.subrange(0, m.len() as int) =~= m);
    let a = "///"@;
    let b = "//!"@;
    let c = "//"@;
    let d = "#!"@;
    if has_prefix(m, a) {
        assert(m.subrange(0, 3)[0] == '/' && m.subrange(0, 3)[2] == '/');
    }
    if has_prefix(m, b) {
        assert(m.subrange(0, 3)[0] == '/' && m.subrange(0, 3)[2] == '!');
    }
    if has_prefix(m, c) {
        assert(m.subrange(0, 2)[0] == '/');
    }
    if has_prefix(m, d) {
        assert(m.subrange(0, 2)[0] == '#' && m.subrange(0, 2)[1] == '!');
    }
    if m != a && m != b && m != c && m != d {
        assert(in_class(m[0], CharClass::One('#')));
        if m.len() > 1 {
            assert(in_class(m[1], CharClass::One('#')));
        }
        lemma_lead_len(m, CharClass::One('#'), m.len() as int);
        assert(lead_run(m, CharClass::One('#')) =~= m);
    }
}

/// The texts of an emitted line comment of prose.
pub proof fn lemma_line_said(
    doc: DocText,
    d: CommentText,
    marker: Seq<char>,
    crlf: bool,
    brk: Seq<char>,
    limit: usize,
    tab_width: usize,
)
    requires
        line_comment_emitted(doc, d, marker, crlf, brk, limit, tab_width),
        all_prose(doc_stretches(doc, limit, tab_width)),
    ensures
        rows_said(
            lines_stripped(source_lines(d.text), doc.style),
            doc_lines(doc, limit, tab_width),
            doc.prefix(),
            0,
        ),
        source_lines(d.text).len() == doc_lines(doc, limit, tab_width).len(),
{
    let st = doc_stretches(doc, limit, tab_width);
    let prefix = doc.prefix();
    let lines = doc_lines(doc, limit, tab_width);
    let rows = line_comment_lines(doc, lines);
    let raw = source_lines(d.text);
    let marked = lines_stripped(raw, doc.style);
    lemma_line_prefix(doc, marker);
    assert(sound_stretch(st[0], doc.style));
    crate::second_pass::lemma_first_laid(st, st.len() as int, prefix);
    lemma_line_marked(doc, d, marker, crlf, brk, limit, tab_width, 0);
    crate::settling::lemma_first_line(doc, limit, tab_width);
    assert(lines[0] != bare_prefix(prefix)) by {
        reveal_strlit(" ");
        assert(bare_prefix(prefix).len() + 1 == prefix.len());
    }
    assert forall|r: int| 0 <= r < marked.len() implies (#[trigger] marked[r]).body == line_said(
        lines,
        r,
        prefix,
    ) by {
        lemma_line_marked(doc, d, marker, crlf, brk, limit, tab_width, r);
        if lines[r] == bare_prefix(prefix) {
            assert(r > 0);
            assert(rows[r] == lines[r]);
            lemma_bare_marker(doc.indent, marker);
            assert(marked[r].body =~= Seq::empty());
        } else {
            lemma_prose_prefix(doc, limit, tab_width, r);
        }
    }
}

/// The texts of an emitted block of prose.
pub proof fn lemma_block_said(
    doc: DocText,
    d: CommentText,
    m: Seq<char>,
    crlf: bool,
    limit: usize,
    tab_width: usize,
)
    requires
        block_emitted(doc, d, m, crlf, limit, tab_width),
        all_prose(doc_stretches(doc, limit, tab_width)),
    ensures
        rows_said(
            lines_stripped(source_lines(d.text), doc.style),
            doc_lines(doc, limit, tab_width),
            doc.prefix(),
            first_row(doc),
        ),
{
    let prefix = doc.prefix();
    let body = doc_lines(doc, limit, tab_width);
    let y = shared_text(doc, body[0]);
    let one = fits_one_row(doc, m, y, body, limit, tab_width);
    let rows = framed(doc, m, y, body, one);
    let raw = source_lines(d.text);
    let marked = lines_stripped(raw, doc.style);
    let from = first_row(doc);
    lemma_lines_stay_open(doc, limit, tab_width);
    crate::block_settling::lemma_star_facts(doc);
    crate::block_settling::lemma_block_rows(doc, d, m, crlf, limit, tab_width);
    crate::settling::lemma_first_line(doc, limit, tab_width);
    assert(body[0] != bare_prefix(prefix)) by {
        reveal_strlit(" *");
        reveal_strlit(" * ");
        assert(bare_prefix(prefix).len() + 1 == prefix.len());
    }
    assert forall|r: int| 0 <= r < marked.len() implies (#[trigger] marked[r]).body == if from <= r
        < from + body.len() {
        line_said(body, r - from, prefix)
    } else {
        Seq::empty()
    } by {
        assert(raw[r].body == rows[r]);
        if from <= r < from + body.len() {
            let k = r - from;
            lemma_block_marked(doc, d, m, crlf, limit, tab_width, k);
            if body[k] == bare_prefix(prefix) {
                assert(r > 0);
                lemma_bare_row(doc.indent, doc.style);
                assert(rows[r] == body[k]);
                assert(r < rows.len() - 1);
                assert(marked[r].body =~= Seq::empty());
            } else {
                lemma_prose_prefix(doc, limit, tab_width, k);
                if r == 0 {
                    let x = body[0].skip(prefix.len() as int);
                    assert(x.last() == body[0].last());
                    crate::block_settling::lemma_trimmed_end(x);
                }
            }
        } else if r == 0 {
            lemma_header_row(m, doc.style);
            assert(rows[0] == m);
            assert(marked[r].body =~= Seq::empty());
        } else {
            assert(r == rows.len() - 1);
            assert(rows[r] == doc.indent + " */"@);
            lemma_closer_row(doc.indent, doc.style);
            assert(marked[r].body =~= Seq::empty());
        }
    }
}

/// Without decoration on them, lines keep their bodies.
pub proof fn lemma_keeps_bodies(d: CommentText, kind: Kind)
    requires
        ({
            let marked = lines_stripped(source_lines(d.text), kind.style);
            forall|r: int| 0 <= r < marked.len() ==> !is_bookend((#[trigger] marked[r]).body)
        }),
    ensures
        keeps_bodies(d, kind),
{
    let marked = lines_stripped(source_lines(d.text), kind.style);
    assert forall|k: int| 0 <= k < marked.len() implies (#[trigger] d.plain_lines(kind)[k]).body
        == marked[k].body by {
        assert(!is_bookend(marked[k].body));
    }
}

/// Decoration is seen in what trimming leaves.
proof fn lemma_bookend_trimmed(a: Seq<char>, b: Seq<char>)
    requires
        trimmed(a) == trimmed(b),
    ensures
        is_bookend(a) == is_bookend(b),
{
}

pub proof fn lemma_empty_no_bookend(s: Seq<char>)
    requires
        s.len() == 0,
    ensures
        !is_bookend(s),
        trimmed(s).len() == 0,
{
    lemma_lead_len(s, CharClass::White, 0);
}

/// The last line of each stretch does not read as decoration.
pub open spec fn ends_plainly(st: Seq<Stretch>, prefix: Seq<char>) -> bool {
    forall|i: int|
        0 <= i < st.len() ==> !is_bookend(
            (#[trigger] st[i]).lines.last().skip(prefix.len() as int),
        )
}

/// No line of prose reads as decoration, and each says something.
pub proof fn lemma_prose_said(doc: DocText, limit: usize, tab_width: usize, k: int)
    requires
        sound_stretches(doc_stretches(doc, limit, tab_width), doc.style),
        all_prose(doc_stretches(doc, limit, tab_width)),
        ends_plainly(doc_stretches(doc, limit, tab_width), doc.prefix()),
        all_in(doc.prefix(), CharClass::NotOne('\n')),
        bare_prefix(doc.prefix()).len() < doc.prefix().len(),
        0 <= k < doc_lines(doc, limit, tab_width).len(),
    ensures
        ({
            let text = line_said(doc_lines(doc, limit, tab_width), k, doc.prefix());
            &&& !is_bookend(text)
            &&& (trimmed(text).len() == 0) == (doc_lines(doc, limit, tab_width)[k] == bare_prefix(
                doc.prefix(),
            ))
        }),
{
    let st = doc_stretches(doc, limit, tab_width);
    let prefix = doc.prefix();
    let body = doc_lines(doc, limit, tab_width);
    if body[k] == bare_prefix(prefix) {
        lemma_empty_no_bookend(Seq::empty());
    } else {
        let (i, j) = lemma_line_of(st, st.len() as int, k, prefix);
        let s = st[i];
        let effective = doc_room(doc, limit, tab_width);
        assert(sound_stretch(s, doc.style));
        assert(s.kind == ParagraphKind::Prose);
        lemma_stretch_proper(doc, limit, tab_width, i);
        let (n, own) = lemma_prose_shape(doc, s, prefix, effective, is_block(doc.style), j);
        let text = body[k].skip(prefix.len() as int);
        assert(text =~= repeated(' ', n) + own);
        lemma_trim_padded(n, own);
        lemma_trim_padded(0, own);
        assert(repeated(' ', 0) + own =~= own);
        lemma_bookend_trimmed(text, own);
        if j == s.lines.len() - 1 {
            assert(s.lines.last() == body[k]);
        } else {
            let words = words_of(s.piece);
            lemma_words_are_words(s.piece);
            law_lines_read_well(
                words,
                effective as nat,
                piece_hang(s.piece, effective, doc.flavor),
            );
        }
    }
}

/// The line is read as running text, or as no text.
pub open spec fn is_text(k: LineKind) -> bool {
    match k {
        LineKind::Blank
        | LineKind::Prose
        | LineKind::ListItem
        | LineKind::DoxygenTag
        | LineKind::SetextUnderline => true,
        _ => false,
    }
}

pub open spec fn only_text(lines: Seq<LineText>) -> bool {
    forall|i: int| 0 <= i < lines.len() ==> is_text((#[trigger] lines[i]).kind)
}

/// A line of text is blank when it holds nothing.
pub proof fn lemma_blank_kind(d: CommentText, kind: Kind, limit: usize, k: int)
    requires
        0 <= k < d.body(kind, limit).len(),
        is_text(d.body(kind, limit)[k].kind),
    ensures
        (d.body(kind, limit)[k].kind == LineKind::Blank) == (trimmed(
            d.body(kind, limit)[k].text,
        ).len() == 0),
{
    let plain = d.plain_lines(kind);
    let base = base_kind(plain, k, kind.flavor);
    assert(d.body(kind, limit)[k].text == plain[k].body);
    assert(d.body(kind, limit)[k].kind == base);
}

/// The lines of a comment of text are paragraphs of prose.
pub proof fn lemma_text_paragraphs(lines: Seq<LineText>, i: int, blank: bool)
    requires
        0 <= i,
        only_text(lines),
    ensures
        forall|p: int|
            0 <= p < paragraphs_from(lines, i, blank).len() ==> (
            #[trigger] paragraphs_from(lines, i, blank)[p]).kind == ParagraphKind::Prose,
    decreases lines.len() - i,
{
    if i < lines.len() {
        assert(is_text(lines[i].kind));
        if lines[i].kind == LineKind::Blank {
            lemma_text_paragraphs(lines, i + 1, true);
        } else {
            let end = crate::normalize::paragraph_end(lines, i + 1, ParagraphKind::Prose);
            let all = paragraphs_from(lines, i, blank);
            if i < end <= lines.len() {
                lemma_text_paragraphs(lines, end, false);
                let rest = paragraphs_from(lines, end, false);
                assert forall|p: int| 0 <= p < all.len() implies (#[trigger] all[p]).kind
                    == ParagraphKind::Prose by {
                    if p > 0 {
                        assert(all[p] == rest[p - 1]);
                    }
                }
            }
        }
    }
}

pub proof fn lemma_text_stretches(
    doc: DocText,
    n: int,
    prefix: Seq<char>,
    effective: usize,
    inline_opener: bool,
)
    requires
        0 <= n <= doc.paragraphs.len(),
        forall|p: int|
            0 <= p < doc.paragraphs.len() ==> (#[trigger] doc.paragraphs[p]).kind
                == ParagraphKind::Prose,
    ensures
        all_prose(stretches(doc, n, prefix, effective, inline_opener)),
    decreases n,
{
    if n > 0 {
        lemma_text_stretches(doc, n - 1, prefix, effective, inline_opener);
        let a = stretches(doc, n - 1, prefix, effective, inline_opener);
        let para = doc.paragraphs[n - 1];
        let own = crate::second_pass::paragraph_stretches(
            doc,
            para,
            prefix,
            effective,
            inline_opener,
        );
        let all = a + own;
        assert forall|i: int| 0 <= i < all.len() implies (#[trigger] all[i]).kind
            == ParagraphKind::Prose by {
            if i < a.len() {
                assert(all[i] == a[i]);
            } else {
                assert(all[i] == own[i - a.len()]);
            }
        }
    }
}

} // verus!
