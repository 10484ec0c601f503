//! How lines come together in paragraphs.

use crate::linekind::LineKind;
use crate::normalize::{
    index_range, paragraph_end, paragraphs_from, return_line, LineText, ParagraphKind,
};
use crate::shape_laws::lemma_prefixed;
use crate::text::{has_prefix, is_word_char, trimmed_start};
use vstd::prelude::*;

verus! {

/// A line of text that prose below it goes on with.
pub open spec fn takes_more(k: LineKind) -> bool {
    k == LineKind::Prose || k == LineKind::ListItem || k == LineKind::DoxygenTag || k
        == LineKind::SetextUnderline
}

/// The kinds of lines that keep their layout.
pub open spec fn is_kept(k: LineKind) -> bool {
    ||| k == LineKind::FenceOpen || k == LineKind::FenceContent || k == LineKind::FenceClose
    ||| k == LineKind::DoxyVerbatimOpen || k == LineKind::DoxyVerbatimContent || k
        == LineKind::DoxyVerbatimClose
    ||| k == LineKind::IndentedCode || k == LineKind::TableRow || k == LineKind::Blockquote
    ||| k == LineKind::ReferenceLink || k == LineKind::Metadata || k == LineKind::LabelRow
    ||| k == LineKind::Banner || k == LineKind::Art
}

/// The line starts with `Return` or `Returns` as a word.
pub open spec fn starts_return(l: LineText, w: Seq<char>, rest: Seq<char>) -> bool {
    &&& trimmed_start(l.text) == w + rest
    &&& w == "Return"@ || w == "Returns"@
    &&& rest.len() > 0 ==> !is_word_char(rest[0])
}

proof fn lemma_starts_return(l: LineText, w: Seq<char>, rest: Seq<char>)
    requires
        starts_return(l, w, rest),
    ensures
        return_line(l),
{
    lemma_prefixed(w, rest);
}

proof fn lemma_no_return(l: LineText)
    requires
        trimmed_start(l.text).len() > 0 ==> trimmed_start(l.text)[0] != 'R',
    ensures
        !return_line(l),
{
    reveal_strlit("Return");
    reveal_strlit("Returns");
    let t = trimmed_start(l.text);
    if has_prefix(t, "Return"@) {
        assert(t.subrange(0, 6)[0] == t[0]);
    }
    if has_prefix(t, "Returns"@) {
        assert(t.subrange(0, 7)[0] == t[0]);
    }
}

/// How many paragraphs two lines make.
pub open spec fn paragraphs_of_two(a: LineText, b: LineText) -> int {
    paragraphs_from(seq![a, b], 0, false).len() as int
}

proof fn lemma_two(a: LineText, b: LineText)
    requires
        a.kind != LineKind::Blank && b.kind != LineKind::Blank,
    ensures
        ({
            let lines = seq![a, b];
            let k = crate::normalize::opens_kind(a.kind);
            let both = crate::normalize::joins_above(b, k);
            let all = paragraphs_from(lines, 0, false);
            &&& both ==> all.len() == 1 && all[0].line_indices.len() == 2
            &&& !both ==> all.len() == 2 && all[0].line_indices.len() == 1
                && all[1].line_indices.len() == 1 && !all[1].preceded_by_blank
            &&& all[0].kind == k && !all[0].preceded_by_blank
        }),
{
    let lines = seq![a, b];
    assert(lines[0] == a && lines[1] == b);
    let k = crate::normalize::opens_kind(a.kind);
    assert(paragraph_end(lines, 2, k) == 2);
    assert(paragraphs_from(lines, 2, false).len() == 0);
    if crate::normalize::joins_above(b, k) {
        assert(paragraph_end(lines, 1, k) == 2);
    } else {
        assert(paragraph_end(lines, 1, k) == 1);
        let k2 = crate::normalize::opens_kind(b.kind);
        assert(paragraph_end(lines, 2, k2) == 2);
        assert(paragraphs_from(lines, 1, false).len() == 1);
    }
}

/// Prose goes on with the text above it, unless it says what is returned. An item, a command, a
/// heading and a line that keeps its layout start something of their own.
pub proof fn law_what_text_goes_on_with(a: LineText, b: LineText, w: Seq<char>, rest: Seq<char>)
    requires
        takes_more(a.kind),
        b.kind != LineKind::Blank,
        starts_return(b, w, rest) || (trimmed_start(b.text).len() > 0 ==> trimmed_start(b.text)[0]
            != 'R'),
    ensures
        paragraphs_of_two(a, b) == if b.kind == LineKind::Prose && !starts_return(b, w, rest) {
            1int
        } else {
            2int
        },
        paragraphs_from(seq![a, b], 0, false)[0].kind == ParagraphKind::Prose,
{
    lemma_two(a, b);
    if starts_return(b, w, rest) {
        lemma_starts_return(b, w, rest);
    } else {
        lemma_no_return(b);
    }
}

/// Lines that keep their layout stay together, and text does not join them. A heading stands
/// alone.
pub proof fn law_what_kept_lines_go_on_with(a: LineText, b: LineText)
    requires
        is_kept(a.kind) || a.kind == LineKind::AtxHeader,
        b.kind != LineKind::Blank,
    ensures
        paragraphs_of_two(a, b) == if is_kept(a.kind) && is_kept(b.kind) {
            1int
        } else {
            2int
        },
        paragraphs_from(seq![a, b], 0, false)[0].kind == if is_kept(a.kind) {
            ParagraphKind::Preformatted
        } else {
            ParagraphKind::AtxHeader
        },
{
    lemma_two(a, b);
}

/// A blank line parts what is above it from what is below it, and the lower part remembers it.
pub proof fn law_blank_lines_part(a: LineText, e: LineText, b: LineText)
    requires
        a.kind != LineKind::Blank && b.kind != LineKind::Blank,
        e.kind == LineKind::Blank,
    ensures
        ({
            let all = paragraphs_from(seq![a, e, b], 0, false);
            &&& all.len() == 2
            &&& all[0].line_indices == seq![0usize]
            &&& all[1].line_indices == seq![2usize]
            &&& all[1].preceded_by_blank && !all[0].preceded_by_blank
        }),
{
    let lines = seq![a, e, b];
    assert(lines[0] == a && lines[1] == e && lines[2] == b);
    let k = crate::normalize::opens_kind(a.kind);
    assert(paragraph_end(lines, 1, k) == 1);
    let k2 = crate::normalize::opens_kind(b.kind);
    assert(paragraph_end(lines, 3, k2) == 3);
    assert(paragraphs_from(lines, 3, false).len() == 0);
    assert(paragraphs_from(lines, 2, true).len() == 1);
    assert(paragraphs_from(lines, 1, false) == paragraphs_from(lines, 2, true));
    assert(index_range(0, 1) =~= seq![0usize]);
    assert(index_range(2, 3) =~= seq![2usize]);
}

} // verus!
