//! Laying an emitted comment out again changes nothing.

use crate::classify::DocFlavor;
use crate::normalize::{
    index_range, paragraphs_from, DocText, LineKind, LineText, ParagraphKind, ParagraphText,
};
use crate::reflow::{
    bare_prefix, first_paragraphs, paragraph_lines, paragraph_text, piece_hang, piece_lines,
    prose_body, raw_lines,
};
use crate::rows::{lemma_line_shape, lemma_lines_join};
use crate::text::{
    has_prefix, has_suffix, is_white, lemma_lead_len, lemma_lead_len_facts, lemma_trail_len,
    lemma_trail_len_facts, repeated, trimmed, trimmed_start, CharClass,
};
use crate::textline::return_pieces;
use crate::words::all_words;
use crate::wrap::{lemma_start_bounds, line_body, line_text, valid_starts, wrapped_lines};
use vstd::prelude::*;

verus! {

/// The lines that one paragraph is laid out as, or one piece of a prose
/// paragraph.
pub ghost struct Stretch {
    pub kind: ParagraphKind,
    /// A blank line is called for above the lines.
    pub gap: bool,
    /// The text of prose, on one line.
    pub piece: Seq<char>,
    pub lines: Seq<Seq<char>>,
}

/// What piece `i` of a prose paragraph is laid out as.
pub open spec fn piece_stretch(
    pieces: Seq<Seq<char>>,
    i: int,
    blank: bool,
    prefix: Seq<char>,
    effective: usize,
    flavor: DocFlavor,
) -> Stretch {
    Stretch {
        kind: ParagraphKind::Prose,
        gap: i > 0 || blank,
        piece: pieces[i],
        lines: wrapped_lines(
            pieces[i],
            prefix,
            effective as nat,
            piece_hang(pieces[i], effective, flavor),
        ),
    }
}

/// The stretches of one paragraph.
pub open spec fn paragraph_stretches(
    doc: DocText,
    para: ParagraphText,
    prefix: Seq<char>,
    effective: usize,
    inline_opener: bool,
) -> Seq<Stretch> {
    if para.kind == ParagraphKind::Prose {
        let pieces = return_pieces(prose_body(doc, para.line_indices));
        Seq::new(
            pieces.len(),
            |i: int|
                piece_stretch(pieces, i, para.preceded_by_blank, prefix, effective, doc.flavor),
        )
    } else {
        seq![
            Stretch {
                kind: para.kind,
                gap: para.preceded_by_blank,
                piece: Seq::empty(),
                lines: paragraph_lines(doc, para, prefix, effective, inline_opener),
            },
        ]
    }
}

/// The stretches of the first `n` paragraphs.
pub open spec fn stretches(
    doc: DocText,
    n: int,
    prefix: Seq<char>,
    effective: usize,
    inline_opener: bool,
) -> Seq<Stretch>
    decreases n,
{
    if n <= 0 {
        Seq::empty()
    } else {
        stretches(doc, n - 1, prefix, effective, inline_opener) + paragraph_stretches(
            doc,
            doc.paragraphs[n - 1],
            prefix,
            effective,
            inline_opener,
        )
    }
}

/// The empty comment line above stretch `i`, where there is one.
pub open spec fn gap_lines(st: Seq<Stretch>, i: int, prefix: Seq<char>) -> Seq<Seq<char>> {
    if i > 0 && st[i].gap {
        seq![bare_prefix(prefix)]
    } else {
        Seq::empty()
    }
}

/// The lines of the first `n` stretches.
pub open spec fn laid(st: Seq<Stretch>, n: int, prefix: Seq<char>) -> Seq<Seq<char>>
    decreases n,
{
    if n <= 0 {
        Seq::empty()
    } else {
        laid(st, n - 1, prefix) + gap_lines(st, n - 1, prefix) + st[n - 1].lines
    }
}

/// The lines of the first stretches depend on those alone.
proof fn lemma_laid_front(a: Seq<Stretch>, b: Seq<Stretch>, n: int, prefix: Seq<char>)
    requires
        0 <= n <= a.len(),
    ensures
        laid(a + b, n, prefix) == laid(a, n, prefix),
    decreases n,
{
    if n > 0 {
        lemma_laid_front(a, b, n - 1, prefix);
        assert((a + b)[n - 1] == a[n - 1]);
    }
}

/// The pieces of a prose paragraph, laid out behind other stretches.
proof fn lemma_laid_pieces(
    a: Seq<Stretch>,
    doc: DocText,
    para: ParagraphText,
    prefix: Seq<char>,
    effective: usize,
    inline_opener: bool,
    k: int,
)
    requires
        para.kind == ParagraphKind::Prose,
        1 <= k <= return_pieces(prose_body(doc, para.line_indices)).len(),
    ensures
        ({
            let st = a + paragraph_stretches(doc, para, prefix, effective, inline_opener);
            let pieces = return_pieces(prose_body(doc, para.line_indices));
            let gap = if a.len() > 0 && para.preceded_by_blank {
                seq![bare_prefix(prefix)]
            } else {
                Seq::empty()
            };
            laid(st, a.len() + k, prefix) == laid(a, a.len() as int, prefix) + gap + piece_lines(
                pieces,
                k,
                prefix,
                effective,
                doc.flavor,
            )
        }),
    decreases k,
{
    let own = paragraph_stretches(doc, para, prefix, effective, inline_opener);
    let st = a + own;
    let pieces = return_pieces(prose_body(doc, para.line_indices));
    let n = a.len() as int;
    assert(st[n + k - 1] == own[k - 1]);
    let gap = if a.len() > 0 && para.preceded_by_blank {
        seq![bare_prefix(prefix)]
    } else {
        Seq::<Seq<char>>::empty()
    };
    let before = laid(a, n, prefix);
    let lines = own[k - 1].lines;
    assert(lines == wrapped_lines(
        pieces[k - 1],
        prefix,
        effective as nat,
        piece_hang(pieces[k - 1], effective, doc.flavor),
    ));
    let done = piece_lines(pieces, k - 1, prefix, effective, doc.flavor);
    let bare = seq![bare_prefix(prefix)];
    let now = laid(st, n + k, prefix);
    assert(now == laid(st, n + k - 1, prefix) + gap_lines(st, n + k - 1, prefix) + lines);
    if k == 1 {
        lemma_laid_front(a, own, n, prefix);
        assert(gap_lines(st, n, prefix) == gap);
        lemma_empty_front(lines);
        assert(done == Seq::<Seq<char>>::empty());
        assert(piece_lines(pieces, k, prefix, effective, doc.flavor) == done + Seq::<
            Seq<char>,
        >::empty() + lines);
    } else {
        lemma_laid_pieces(a, doc, para, prefix, effective, inline_opener, k - 1);
        assert(gap_lines(st, n + k - 1, prefix) == bare);
        assert(piece_lines(pieces, k, prefix, effective, doc.flavor) == done + bare + lines);
        lemma_regroup(before + gap, done, bare, lines);
    }
}

proof fn lemma_empty_front(c: Seq<Seq<char>>)
    ensures
        Seq::<Seq<char>>::empty() + Seq::<Seq<char>>::empty() + c == c,
{
    assert(Seq::<Seq<char>>::empty() + Seq::<Seq<char>>::empty() + c =~= c);
}

proof fn lemma_regroup(
    a: Seq<Seq<char>>,
    b: Seq<Seq<char>>,
    c: Seq<Seq<char>>,
    d: Seq<Seq<char>>,
)
    ensures
        a + b + c + d == a + (b + c + d),
{
    assert(a + b + c + d =~= a + (b + c + d));
}

/// A comment's body is its stretches, laid out one behind the other.
pub proof fn lemma_laid_body(
    doc: DocText,
    n: int,
    prefix: Seq<char>,
    effective: usize,
    inline_opener: bool,
)
    requires
        0 <= n <= doc.paragraphs.len(),
    ensures
        ({
            let st = stretches(doc, n, prefix, effective, inline_opener);
            &&& st.len() >= n
            &&& laid(st, st.len() as int, prefix) == first_paragraphs(
                doc,
                n,
                prefix,
                effective,
                inline_opener,
            )
        }),
    decreases n,
{
    if n > 0 {
        lemma_laid_body(doc, n - 1, prefix, effective, inline_opener);
        let a = stretches(doc, n - 1, prefix, effective, inline_opener);
        let para = doc.paragraphs[n - 1];
        let own = paragraph_stretches(doc, para, prefix, effective, inline_opener);
        let st = a + own;
        if n == 1 {
            assert(a.len() == 0);
        }
        if para.kind == ParagraphKind::Prose {
            let pieces = return_pieces(prose_body(doc, para.line_indices));
            lemma_laid_pieces(
                a,
                doc,
                para,
                prefix,
                effective,
                inline_opener,
                pieces.len() as int,
            );
        } else {
            lemma_laid_front(a, own, a.len() as int, prefix);
            assert(st[a.len() as int] == own[0]);
        }
    }
}

/// The number of the line that stretch `i` starts at, when the body starts at
/// line `from`.
pub open spec fn start_of(st: Seq<Stretch>, i: int, prefix: Seq<char>, from: int) -> int {
    from + laid(st, i, prefix).len() + gap_lines(st, i, prefix).len()
}

/// Blank lines at the end are no paragraph.
pub proof fn lemma_blank_tail(lines: Seq<LineText>, i: int, blank: bool)
    requires
        0 <= i <= lines.len(),
        forall|k: int| i <= k < lines.len() ==> (#[trigger] lines[k]).kind == LineKind::Blank,
    ensures
        paragraphs_from(lines, i, blank) == Seq::<ParagraphText>::empty(),
    decreases lines.len() - i,
{
    if i < lines.len() {
        assert(lines[i].kind == LineKind::Blank);
        lemma_blank_tail(lines, i + 1, true);
    }
}

proof fn lemma_laid_len(st: Seq<Stretch>, a: int, b: int, prefix: Seq<char>)
    requires
        0 <= a <= b <= st.len(),
    ensures
        laid(st, a, prefix).len() <= laid(st, b, prefix).len(),
    decreases b - a,
{
    if a < b {
        lemma_laid_len(st, a, b - 1, prefix);
    }
}

/// Where line `j` starts, or where the words end.
pub open spec fn reach(words: Seq<Seq<char>>, starts: Seq<int>, j: int) -> int {
    if j < starts.len() {
        starts[j]
    } else {
        words.len() as int
    }
}

/// The lines of a packing put together again are the words on one line.
pub proof fn lemma_put_together(
    doc: DocText,
    words: Seq<Seq<char>>,
    starts: Seq<int>,
    from: int,
    indices: Seq<usize>,
    j: int,
)
    requires
        all_words(words),
        valid_starts(starts, words.len() as int),
        0 <= from,
        from + starts.len() <= doc.lines.len() <= usize::MAX,
        forall|i: int|
            0 <= i < starts.len() ==> trimmed((#[trigger] doc.lines[from + i]).text) == line_body(
                words,
                starts,
                i,
            ),
        indices == index_range(from, from + starts.len()),
        1 <= j <= starts.len(),
    ensures
        paragraph_text(doc, indices, j) == line_text(words, 0, reach(words, starts, j)),
        0 < reach(words, starts, j) <= words.len(),
    decreases j,
{
    let n = words.len() as int;
    let b = reach(words, starts, j);
    lemma_start_bounds(starts, n, j - 1);
    if j < starts.len() {
        lemma_start_bounds(starts, n, j);
        assert(starts[j - 1] < starts[j - 1 + 1]);
    }
    let a = starts[j - 1];
    let own = line_body(words, starts, j - 1);
    assert(indices[j - 1] == (from + (j - 1)) as usize);
    assert(trimmed(doc.lines[from + (j - 1)].text) == own);
    if j == 1 {
        assert(paragraph_text(doc, indices, 0) + own =~= own);
    } else {
        lemma_put_together(doc, words, starts, from, indices, j - 1);
        let head = line_text(words, 0, a);
        lemma_line_shape(words, 0, a);
        reveal_strlit(" ");
        assert(!has_suffix(head, " "@)) by {
            if has_suffix(head, " "@) {
                assert(head.subrange(head.len() - 1, head.len() as int)[0] == ' ');
            }
        }
        lemma_lines_join(words, a, b);
    }
}

/// How a stretch of a laid out comment looks.
pub open spec fn proper_stretch(
    doc: DocText,
    s: Stretch,
    prefix: Seq<char>,
    effective: usize,
    inline_opener: bool,
) -> bool {
    match s.kind {
        ParagraphKind::Prose => s.lines == wrapped_lines(
            s.piece,
            prefix,
            effective as nat,
            piece_hang(s.piece, effective, doc.flavor),
        ),
        ParagraphKind::AtxHeader => s.lines.len() == 1 && exists|text: Seq<char>|
            s.lines[0] == prefix + #[trigger] trimmed(text),
        ParagraphKind::Preformatted => exists|para: ParagraphText|
            s.lines == #[trigger] raw_lines(doc, para, prefix, inline_opener),
    }
}

pub proof fn lemma_proper_stretches(
    doc: DocText,
    n: int,
    prefix: Seq<char>,
    effective: usize,
    inline_opener: bool,
    i: int,
)
    requires
        0 <= n <= doc.paragraphs.len(),
        0 <= i < stretches(doc, n, prefix, effective, inline_opener).len(),
    ensures
        proper_stretch(
            doc,
            stretches(doc, n, prefix, effective, inline_opener)[i],
            prefix,
            effective,
            inline_opener,
        ),
    decreases n,
{
    let a = stretches(doc, n - 1, prefix, effective, inline_opener);
    let para = doc.paragraphs[n - 1];
    let own = paragraph_stretches(doc, para, prefix, effective, inline_opener);
    let st = a + own;
    if i < a.len() {
        lemma_proper_stretches(doc, n - 1, prefix, effective, inline_opener, i);
        assert(st[i] == a[i]);
    } else {
        let s = own[i - a.len()];
        assert(st[i] == s);
        if para.kind == ParagraphKind::AtxHeader {
            let text = doc.lines[para.line_indices[0] as int].text;
            assert(s.lines[0] == prefix + trimmed(text));
        } else if para.kind == ParagraphKind::Preformatted {
            assert(s.lines == raw_lines(doc, para, prefix, inline_opener));
        }
    }
}

/// White space in front does not change what trimming leaves of a trimmed text.
pub proof fn lemma_trim_padded(n: nat, l: Seq<char>)
    requires
        l.len() > 0,
        !is_white(l[0]),
        !is_white(l.last()),
    ensures
        trimmed(repeated(' ', n) + l) == l,
{
    let s = repeated(' ', n) + l;
    assert(s[n as int] == l[0]);
    lemma_lead_len(s, CharClass::White, n as int);
    assert(trimmed_start(s) =~= l);
    lemma_trail_len(l, CharClass::White, 0);
    assert(trimmed(s) =~= l);
}

pub proof fn lemma_trimmed_twice(s: Seq<char>)
    ensures
        trimmed(trimmed(s)) == trimmed(s),
{
    let t = trimmed_start(s);
    let u = trimmed(s);
    lemma_lead_len_facts(s, CharClass::White);
    lemma_trail_len_facts(t, CharClass::White);
    if u.len() > 0 {
        assert(u[0] == t[0]);
        assert(!is_white(t[0]));
        assert(u.last() == t[t.len() - 1 - crate::text::trail_len(t, CharClass::White)]);
        lemma_lead_len(u, CharClass::White, 0);
        assert(trimmed_start(u) =~= u);
        lemma_trail_len(u, CharClass::White, 0);
        assert(trimmed(u) =~= u);
    } else {
        lemma_lead_len(u, CharClass::White, 0);
        assert(trimmed_start(u) =~= u);
        lemma_trail_len(u, CharClass::White, 0);
        assert(trimmed(u) =~= u);
    }
}

/// The text of a line is what follows the prefix that it was emitted behind.
pub open spec fn text_read(l: LineText, emitted: Seq<char>, prefix: Seq<char>) -> bool {
    has_prefix(emitted, prefix) ==> l.text == emitted.skip(prefix.len() as int)
}

/// Where the lines of stretch `i` stand among all lines.
pub proof fn lemma_line_at(st: Seq<Stretch>, n: int, i: int, j: int, prefix: Seq<char>)
    requires
        0 <= i < n <= st.len(),
        0 <= j < st[i].lines.len(),
    ensures
        ({
            let k = start_of(st, i, prefix, 0) + j;
            0 <= k < laid(st, n, prefix).len() && laid(st, n, prefix)[k] == st[i].lines[j]
        }),
    decreases n,
{
    if i < n - 1 {
        lemma_line_at(st, n - 1, i, j, prefix);
    }
}

/// Every line is empty, or belongs to a stretch.
pub proof fn lemma_line_of(st: Seq<Stretch>, n: int, k: int, prefix: Seq<char>) -> (r: (int, int))
    requires
        0 <= n <= st.len(),
        0 <= k < laid(st, n, prefix).len(),
        laid(st, n, prefix)[k] != bare_prefix(prefix),
    ensures
        0 <= r.0 < n,
        0 <= r.1 < st[r.0].lines.len(),
        k == start_of(st, r.0, prefix, 0) + r.1,
        laid(st, n, prefix)[k] == st[r.0].lines[r.1],
    decreases n,
{
    let before = laid(st, n - 1, prefix).len() as int;
    let at = start_of(st, n - 1, prefix, 0);
    if k < before {
        lemma_line_of(st, n - 1, k, prefix)
    } else {
        assert(k >= at);
        (n - 1, k - at)
    }
}

pub proof fn lemma_skip_blanks(lines: Seq<LineText>, i: int, from: int, blank: bool)
    requires
        0 <= i <= from <= lines.len(),
        forall|k: int| i <= k < from ==> (#[trigger] lines[k]).kind == LineKind::Blank,
    ensures
        paragraphs_from(lines, i, blank) == paragraphs_from(lines, from, blank || i < from),
    decreases from - i,
{
    if i < from {
        assert(lines[i].kind == LineKind::Blank);
        lemma_skip_blanks(lines, i + 1, from, true);
    }
}

/// The first line is that of the first stretch.
pub proof fn lemma_first_laid(st: Seq<Stretch>, n: int, prefix: Seq<char>)
    requires
        0 < n <= st.len(),
        st[0].lines.len() > 0,
    ensures
        laid(st, n, prefix).len() > 0,
        laid(st, n, prefix)[0] == st[0].lines[0],
    decreases n,
{
    if n == 1 {
        assert(laid(st, 0, prefix) + gap_lines(st, 0, prefix) + st[0].lines =~= st[0].lines);
    } else {
        lemma_first_laid(st, n - 1, prefix);
    }
}

} // verus!
