//! Lines that are grouped into paragraphs anew, and go out as they stood.

use crate::laws::lemma_single_collapsed;
use crate::normalize::{
    index_range, lemma_paragraph_end, opens_kind, paragraph_end, paragraphs_from, DocText, LineKind,
    LineText, ParagraphText,
};
use crate::reflow::{
    bare_prefix, body_lines, first_paragraphs, paragraph_lines, piece_hang, piece_lines, prose_body,
    prose_lines,
};
use crate::rows::lemma_line_shape;
use crate::second_pass::{lemma_blank_tail, lemma_put_together, lemma_skip_blanks, reach};
use crate::text::trimmed;
use crate::textline::return_pieces;
use crate::words::{all_words, lemma_words_joined};
use crate::wrap::{
    lemma_start_bounds, line_body, line_end, line_lead, line_starts, line_text, valid_starts,
    wrapped_lines,
};
use vstd::prelude::*;

verus! {

/// The paragraph goes out as its lines stand in the body.
pub open spec fn holds_paragraph(
    doc: DocText,
    para: ParagraphText,
    body: Seq<Seq<char>>,
    prefix: Seq<char>,
    effective: usize,
    inline_opener: bool,
    from: int,
) -> bool {
    let a = para.line_indices[0] as int - from;
    let n = para.line_indices.len() as int;
    &&& n > 0
    &&& 0 <= a
    &&& a + n <= body.len()
    &&& paragraph_lines(doc, para, prefix, effective, inline_opener) == body.subrange(a, a + n)
}

/// Line `k` of the body, when it is read as blank, is an empty comment line
/// between two others.
pub open spec fn blank_fits(
    lines: Seq<LineText>,
    body: Seq<Seq<char>>,
    prefix: Seq<char>,
    from: int,
    k: int,
) -> bool {
    lines[from + k].kind == LineKind::Blank ==> {
        &&& 0 < k < body.len() - 1
        &&& body[k] == bare_prefix(prefix)
        &&& lines[from + k + 1].kind != LineKind::Blank
    }
}

/// Blank lines are those around the body and the gaps in it.
pub open spec fn blanks_fit(
    lines: Seq<LineText>,
    body: Seq<Seq<char>>,
    prefix: Seq<char>,
    from: int,
) -> bool {
    &&& body.len() > 0
    &&& from + body.len() <= lines.len() <= usize::MAX
    &&& forall|r: int|
        0 <= r < lines.len() && !(from <= r < from + body.len()) ==> (#[trigger] lines[r]).kind
            == LineKind::Blank
    &&& forall|k: int| 0 <= k < body.len() ==> #[trigger] blank_fits(lines, body, prefix, from, k)
}

/// Where the next paragraph starts.
proof fn lemma_next_text(
    lines: Seq<LineText>,
    body: Seq<Seq<char>>,
    prefix: Seq<char>,
    from: int,
    e: int,
    start_blank: bool,
) -> (s: int)
    requires
        0 <= from <= e <= from + body.len(),
        blanks_fit(lines, body, prefix, from),
        paragraphs_from(lines, e, start_blank).len() > 0,
    ensures
        e <= s < from + body.len(),
        s == e || (s == e + 1 && e > from && body[e - from] == bare_prefix(prefix)),
        lines[s].kind != LineKind::Blank,
        paragraphs_from(lines, s, s > e || start_blank) == paragraphs_from(lines, e, start_blank),
{
    if e >= from + body.len() {
        lemma_blank_tail(lines, e, start_blank);
    }
    assert(blank_fits(lines, body, prefix, from, e - from));
    if lines[e].kind == LineKind::Blank {
        e + 1
    } else {
        e
    }
}

/// What the first `n` paragraphs come to.
#[verifier::spinoff_prover]
proof fn lemma_upto(
    doc: DocText,
    body: Seq<Seq<char>>,
    n: int,
    prefix: Seq<char>,
    effective: usize,
    inline_opener: bool,
    from: int,
) -> (end: int)
    requires
        0 <= from,
        0 <= n <= doc.paragraphs.len(),
        doc.paragraphs == paragraphs_from(doc.lines, 0, false),
        blanks_fit(doc.lines, body, prefix, from),
        forall|p: int|
            0 <= p < doc.paragraphs.len() ==> holds_paragraph(
                doc,
                #[trigger] doc.paragraphs[p],
                body,
                prefix,
                effective,
                inline_opener,
                from,
            ),
    ensures
        from <= end <= from + body.len(),
        n > 0 ==> end > from,
        n == 0 ==> end == from,
        first_paragraphs(doc, n, prefix, effective, inline_opener) == body.take(end - from),
        paragraphs_from(doc.lines, end, n == 0 && from > 0) == doc.paragraphs.skip(n),
    decreases n,
{
    let lines = doc.lines;
    if n == 0 {
        lemma_skip_blanks(lines, 0, from, false);
        assert(doc.paragraphs.skip(0) =~= doc.paragraphs);
        assert(body.take(0) =~= Seq::<Seq<char>>::empty());
        from
    } else {
        let e = lemma_upto(doc, body, n - 1, prefix, effective, inline_opener, from);
        let start_blank = n == 1 && from > 0;
        let rest = paragraphs_from(lines, e, start_blank);
        let para = doc.paragraphs[n - 1];
        assert(para == doc.paragraphs.skip(n - 1)[0]);
        assert(rest == doc.paragraphs.skip(n - 1));
        let s = lemma_next_text(lines, body, prefix, from, e, start_blank);
        let blank = s > e || start_blank;
        let end = lemma_first_of(lines, s, blank);
        assert(para == rest[0]);
        assert(para.line_indices[0] == s as usize);
        assert(holds_paragraph(doc, para, body, prefix, effective, inline_opener, from));
        assert(doc.paragraphs.skip(n) =~= rest.skip(1));
        lemma_take_more(body, e - from, s - from, end - from, bare_prefix(prefix));
        end
    }
}

/// The first of the paragraphs from a line with text on.
proof fn lemma_first_of(lines: Seq<LineText>, s: int, blank: bool) -> (end: int)
    requires
        0 <= s < lines.len() <= usize::MAX,
        lines[s].kind != LineKind::Blank,
    ensures
        s < end <= lines.len(),
        ({
            let all = paragraphs_from(lines, s, blank);
            &&& all.len() > 0
            &&& all[0].line_indices == index_range(s, end)
            &&& all[0].line_indices.len() == end - s
            &&& all[0].preceded_by_blank == blank
            &&& all.skip(1) == paragraphs_from(lines, end, false)
        }),
{
    let kind = opens_kind(lines[s].kind);
    lemma_paragraph_end(lines, s + 1, kind);
    let end = paragraph_end(lines, s + 1, kind);
    assert(paragraphs_from(lines, s, blank).skip(1) =~= paragraphs_from(lines, end, false));
    end
}

/// The front of a body grows by an empty line and a stretch, or by a stretch.
proof fn lemma_take_more(body: Seq<Seq<char>>, e: int, s: int, end: int, bare: Seq<char>)
    requires
        0 <= e <= s < end <= body.len(),
        s == e || (s == e + 1 && body[e] == bare),
    ensures
        body.take(e) + (if s == e {
            Seq::empty()
        } else {
            seq![bare]
        }) + body.subrange(s, end) == body.take(end),
{
    let gap = if s == e {
        Seq::<Seq<char>>::empty()
    } else {
        seq![bare]
    };
    assert(body.take(e) + gap + body.subrange(s, end) =~= body.take(end));
}

/// Text makes a paragraph.
proof fn lemma_text_left(lines: Seq<LineText>, i: int, blank: bool, k: int)
    requires
        0 <= i <= k < lines.len(),
        lines[k].kind != LineKind::Blank,
    ensures
        paragraphs_from(lines, i, blank).len() > 0,
    decreases lines.len() - i,
{
    if lines[i].kind == LineKind::Blank {
        lemma_text_left(lines, i + 1, true, k);
    }
}

/// However lines are grouped, a body whose paragraphs go out as they stand is laid
/// out as it stands.
pub proof fn lemma_body_stands(
    doc: DocText,
    body: Seq<Seq<char>>,
    prefix: Seq<char>,
    effective: usize,
    inline_opener: bool,
    from: int,
)
    requires
        0 <= from,
        doc.paragraphs == paragraphs_from(doc.lines, 0, false),
        blanks_fit(doc.lines, body, prefix, from),
        forall|p: int|
            0 <= p < doc.paragraphs.len() ==> holds_paragraph(
                doc,
                #[trigger] doc.paragraphs[p],
                body,
                prefix,
                effective,
                inline_opener,
                from,
            ),
    ensures
        body_lines(doc, prefix, effective, inline_opener) == body,
{
    let n = doc.paragraphs.len() as int;
    let end = lemma_upto(doc, body, n, prefix, effective, inline_opener, from);
    let last = from + body.len() - 1;
    assert(blank_fits(doc.lines, body, prefix, from, body.len() - 1));
    lemma_text_left(doc.lines, 0, false, last);
    if end <= last {
        lemma_text_left(doc.lines, end, n == 0 && from > 0, last);
        assert(doc.paragraphs.skip(n).len() == 0);
    }
    assert(body.take(body.len() as int) =~= body);
}

/// The words of lines `a` to before `b` of a packing.
pub open spec fn part_words(words: Seq<Seq<char>>, starts: Seq<int>, a: int, b: int) -> Seq<
    Seq<char>,
> {
    words.subrange(starts[a], reach(words, starts, b))
}

/// Where those lines start among their own words.
pub open spec fn part_starts(starts: Seq<int>, a: int, b: int) -> Seq<int> {
    Seq::new((b - a) as nat, |j: int| starts[a + j] - starts[a])
}

/// The text of lines `a` to before `b` of a packing.
pub open spec fn part_text(words: Seq<Seq<char>>, starts: Seq<int>, a: int, b: int) -> Seq<char> {
    line_text(words, starts[a], reach(words, starts, b))
}

pub proof fn lemma_reach(words: Seq<Seq<char>>, starts: Seq<int>, a: int, b: int)
    requires
        valid_starts(starts, words.len() as int),
        0 <= a < b <= starts.len(),
    ensures
        0 <= starts[a] < reach(words, starts, b) <= words.len(),
    decreases b - a,
{
    let n = words.len() as int;
    lemma_start_bounds(starts, n, a);
    if a + 1 < starts.len() {
        assert(starts[a] < starts[a + 1]);
        lemma_start_bounds(starts, n, a + 1);
    }
    if a + 1 < b {
        lemma_reach(words, starts, a + 1, b);
    }
}

proof fn lemma_part_line(words: Seq<Seq<char>>, starts: Seq<int>, a: int, b: int, j: int)
    requires
        valid_starts(starts, words.len() as int),
        0 <= a < b <= starts.len(),
        0 <= j < b - a,
    ensures
        line_body(part_words(words, starts, a, b), part_starts(starts, a, b), j) == line_body(
            words,
            starts,
            a + j,
        ),
{
    let part = part_words(words, starts, a, b);
    let own = part_starts(starts, a, b);
    let s = starts[a];
    lemma_reach(words, starts, a, b);
    lemma_reach(words, starts, a + j, a + j + 1);
    if j > 0 {
        lemma_reach(words, starts, a, a + j);
    }
    if a + j + 1 < b {
        lemma_reach(words, starts, a + j + 1, b);
    }
    let x = own[j];
    let y = line_end(part, own, j);
    assert(0 <= x <= y <= part.len());
    assert(part.subrange(x, y) =~= words.subrange(s + x, s + y));
}

proof fn lemma_part_valid(words: Seq<Seq<char>>, starts: Seq<int>, a: int, b: int)
    requires
        valid_starts(starts, words.len() as int),
        0 <= a < b <= starts.len(),
    ensures
        valid_starts(part_starts(starts, a, b), part_words(words, starts, a, b).len() as int),
{
    let own = part_starts(starts, a, b);
    lemma_reach(words, starts, a, b);
    lemma_reach(words, starts, b - 1, b);
    assert forall|j: int| 0 <= j < own.len() - 1 implies #[trigger] own[j] < own[j + 1] by {
        assert(starts[a + j] < starts[a + j + 1]);
    }
}

/// A part of a packing is a packing of its own words.
pub proof fn lemma_part(words: Seq<Seq<char>>, starts: Seq<int>, a: int, b: int)
    requires
        all_words(words),
        valid_starts(starts, words.len() as int),
        0 <= a < b <= starts.len(),
    ensures
        ({
            let part = part_words(words, starts, a, b);
            let own = part_starts(starts, a, b);
            &&& part.len() > 0
            &&& all_words(part)
            &&& valid_starts(own, part.len() as int)
            &&& forall|j: int|
                0 <= j < b - a ==> #[trigger] line_body(part, own, j) == line_body(
                    words,
                    starts,
                    a + j,
                )
            &&& line_text(part, 0, part.len() as int) == part_text(words, starts, a, b)
        }),
{
    let part = part_words(words, starts, a, b);
    let own = part_starts(starts, a, b);
    let s = starts[a];
    lemma_reach(words, starts, a, b);
    lemma_part_valid(words, starts, a, b);
    assert forall|i: int| 0 <= i < part.len() implies crate::words::is_word(#[trigger] part[i]) by {
        assert(part[i] == words[s + i]);
    }
    assert forall|j: int| 0 <= j < b - a implies #[trigger] line_body(part, own, j) == line_body(
        words,
        starts,
        a + j,
    ) by {
        lemma_part_line(words, starts, a, b, j);
    }
    assert(part.subrange(0, part.len() as int) =~= words.subrange(s, reach(words, starts, b)));
}

/// Lines `a` to before `b` of a paragraph can be a paragraph of their own: no
/// sentence of them is to be split off, they wrap as they stand, and hang as they
/// did.
#[verifier::opaque]
pub open spec fn stands_alone_as(
    words: Seq<Seq<char>>,
    starts: Seq<int>,
    a: int,
    b: int,
    effective: usize,
    hang: nat,
    flavor: crate::classify::DocFlavor,
) -> bool {
    let text = part_text(words, starts, a, b);
    let own_hang = piece_hang(text, effective, flavor);
    &&& return_pieces(text) == seq![text]
    &&& line_starts(part_words(words, starts, a, b), effective as nat, own_hang) == part_starts(
        starts,
        a,
        b,
    )
    &&& b - a > 1 ==> own_hang == hang
    &&& a > 0 ==> hang == 0
}

/// A paragraph of such lines goes out as they stand.
pub proof fn lemma_part_again(
    doc: DocText,
    para: ParagraphText,
    words: Seq<Seq<char>>,
    starts: Seq<int>,
    a: int,
    b: int,
    at: int,
    prefix: Seq<char>,
    effective: usize,
    hang: nat,
)
    requires
        all_words(words),
        valid_starts(starts, words.len() as int),
        0 <= a < b <= starts.len(),
        0 <= at,
        at + (b - a) <= doc.lines.len() <= usize::MAX,
        para.line_indices == index_range(at, at + (b - a)),
        forall|j: int|
            0 <= j < b - a ==> trimmed((#[trigger] doc.lines[at + j]).text) == line_body(
                words,
                starts,
                a + j,
            ),
        stands_alone_as(words, starts, a, b, effective, hang, doc.flavor),
    ensures
        prose_lines(doc, para, prefix, effective) == Seq::new(
            (b - a) as nat,
            |j: int| line_lead(prefix, hang, a + j) + line_body(words, starts, a + j),
        ),
{
    reveal(stands_alone_as);
    let part = part_words(words, starts, a, b);
    let own = part_starts(starts, a, b);
    let text = part_text(words, starts, a, b);
    let n = b - a;
    lemma_part(words, starts, a, b);
    assert forall|i: int| 0 <= i < own.len() implies trimmed(
        (#[trigger] doc.lines[at + i]).text,
    ) == line_body(part, own, i) by {
        assert(trimmed(doc.lines[at + i].text) == line_body(words, starts, a + i));
    }
    lemma_put_together(doc, part, own, at, para.line_indices, n);
    assert(reach(part, own, n) == part.len());
    lemma_line_shape(part, 0, part.len() as int);
    lemma_single_collapsed(text);
    assert(para.line_indices.len() == n);
    assert(prose_body(doc, para.line_indices) == text);
    assert(part.subrange(0, part.len() as int) =~= part);
    lemma_words_joined(part);
    let own_hang = piece_hang(text, effective, doc.flavor);
    let pieces = return_pieces(text);
    let wrapped = wrapped_lines(text, prefix, effective as nat, own_hang);
    assert(piece_lines(pieces, 0, prefix, effective, doc.flavor) =~= Seq::<Seq<char>>::empty());
    assert(piece_lines(pieces, 1, prefix, effective, doc.flavor) =~= wrapped);
    let want = Seq::new(
        n as nat,
        |j: int| line_lead(prefix, hang, a + j) + line_body(words, starts, a + j),
    );
    assert(wrapped.len() == want.len());
    assert forall|j: int| 0 <= j < n implies wrapped[j] == want[j] by {
        assert(line_body(part, own, j) == line_body(words, starts, a + j));
        if j == 0 {
            assert(prefix + crate::text::repeated(' ', 0) =~= prefix);
        }
        assert(line_lead(prefix, own_hang, j) == line_lead(prefix, hang, a + j));
    }
    assert(wrapped =~= want);
}

} // verus!
