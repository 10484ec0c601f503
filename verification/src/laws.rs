//! What holds of the library as a whole.

use crate::kdoc::{
    good_entries, good_entry, kernel_doc, made_line, opens_region, param_line, param_lines,
    region_start, return_text, returned_lines, scanned, EntryText, KTag,
};
use crate::normalize::{
    closer_split, index_range, joins_above, last_line, lemma_paragraph_end, opens_kind,
    paragraph_end, paragraphs_from, DocText, LineKind, LineText, ParagraphText,
};
use crate::reflow::{
    bare_prefix, first_paragraphs, paragraph_lines, paragraph_text, prose_body, spaces_collapsed,
    stars_collapsed,
};
use crate::text::{
    after_lead, all_in, has_suffix, in_class, is_white, joined, lead_len, lead_run, leads_with,
    lemma_lead_len, lemma_lead_len_facts, lemma_trail_len, lemma_trail_len_facts, suffix_rest,
    trail_len, trimmed, trimmed_end, trimmed_start, words_of, CharClass,
};
use crate::textline::{is_bookend, past_blanks, return_boundary, return_groups, return_pieces};
use crate::words::{
    all_words, all_words_of, flat_words, is_word, lemma_first_word, lemma_no_words,
    lemma_words_apart, lemma_words_are_words, lemma_words_collapsed, lemma_words_joined,
    lemma_words_trimmed,
};
use crate::wrap::{
    colon_pending, law_lines_partition_words, lemma_last_usable, lemma_packed_valid,
    lemma_start_bounds, line_body, line_end, line_starts, line_text, lone_kdoc_name, packed, room,
    settled, tag_start, takes_word, wrapped_lines,
};
use vstd::prelude::*;

verus! {

/// The bodies of the lines that a text is wrapped into.
pub open spec fn wrapped_bodies(body: Seq<char>, effective: nat, hang: nat) -> Seq<Seq<char>> {
    let words = words_of(body);
    let starts = line_starts(words, effective, hang);
    Seq::new(starts.len(), |j: int| line_body(words, starts, j))
}

#[verifier::spinoff_prover]
proof fn lemma_bodies_upto(body: Seq<char>, effective: nat, hang: nat, j: int)
    requires
        words_of(body).len() > 0,
        0 <= j <= line_starts(words_of(body), effective, hang).len(),
    ensures
        ({
            let words = words_of(body);
            let starts = line_starts(words, effective, hang);
            let upto = if j < starts.len() {
                starts[j]
            } else {
                words.len() as int
            };
            0 <= upto <= words.len() && flat_words(wrapped_bodies(body, effective, hang), j)
                == words.take(upto)
        }),
    decreases j,
{
    let words = words_of(body);
    let starts = line_starts(words, effective, hang);
    let bodies = wrapped_bodies(body, effective, hang);
    law_lines_partition_words(words, effective, hang);
    if j == 0 {
        assert(words.take(0) =~= flat_words(bodies, 0));
    } else {
        lemma_bodies_upto(body, effective, hang, j - 1);
        let a = starts[j - 1];
        let b = line_end(words, starts, j - 1);
        if j < starts.len() {
            assert(starts[j - 1] < starts[j - 1 + 1]);
            crate::wrap::lemma_start_bounds(starts, words.len() as int, j);
        }
        crate::wrap::lemma_start_bounds(starts, words.len() as int, j - 1);
        let part = words.subrange(a, b);
        lemma_words_are_words(body);
        assert(all_words(part)) by {
            assert forall|i: int| 0 <= i < part.len() implies is_word(#[trigger] part[i]) by {
                assert(is_word(words[a + i]));
            }
        }
        lemma_words_joined(part);
        assert(words.take(a) + part =~= words.take(b));
    }
}

/// Wrapping keeps every word, once and in order.
pub proof fn law_wrapping_keeps_words(body: Seq<char>, effective: nat, hang: nat)
    ensures
        all_words_of(wrapped_bodies(body, effective, hang)) == words_of(body),
{
    let words = words_of(body);
    let bodies = wrapped_bodies(body, effective, hang);
    if words.len() > 0 {
        lemma_bodies_upto(body, effective, hang, bodies.len() as int);
        assert(words.take(words.len() as int) =~= words);
    } else {
        assert(all_words_of(bodies) =~= words);
    }
}

/// Texts set apart by one space have the words of the texts.
pub proof fn lemma_words_of_joined(texts: Seq<Seq<char>>)
    ensures
        words_of(joined(texts, " "@)) == all_words_of(texts),
    decreases texts.len(),
{
    reveal_strlit(" ");
    assert(" "@ =~= seq![' ']);
    if texts.len() == 0 {
        lemma_no_words(Seq::empty());
        assert(words_of(joined(texts, " "@)) =~= all_words_of(texts));
    } else if texts.len() == 1 {
        assert(all_words_of(texts) =~= flat_words(texts, 0) + words_of(texts[0]));
        assert(flat_words(texts, 0) + words_of(texts[0]) =~= words_of(texts[0]));
    } else {
        let head = texts.drop_last();
        lemma_words_of_joined(head);
        lemma_words_apart(joined(head, " "@), ' ', texts.last());
        lemma_flat_words_take(texts, head, head.len() as int);
    }
}

/// The words of the first texts depend on those texts alone.
proof fn lemma_flat_words_take(a: Seq<Seq<char>>, b: Seq<Seq<char>>, n: int)
    requires
        0 <= n <= a.len(),
        n <= b.len(),
        forall|i: int| 0 <= i < n ==> #[trigger] a[i] == b[i],
    ensures
        flat_words(a, n) == flat_words(b, n),
    decreases n,
{
    if n > 0 {
        lemma_flat_words_take(a, b, n - 1);
        assert(a[n - 1] == b[n - 1]);
    }
}

/// Wrapping the lines of a wrapped paragraph again gives the same lines.
pub proof fn law_rewrapping_changes_nothing(
    body: Seq<char>,
    prefix: Seq<char>,
    effective: nat,
    hang: nat,
)
    ensures
        wrapped_lines(
            joined(wrapped_bodies(body, effective, hang), " "@),
            prefix,
            effective,
            hang,
        ) == wrapped_lines(body, prefix, effective, hang),
{
    law_wrapping_keeps_words(body, effective, hang);
    lemma_words_of_joined(wrapped_bodies(body, effective, hang));
    assert(wrapped_lines(
        joined(wrapped_bodies(body, effective, hang), " "@),
        prefix,
        effective,
        hang,
    ) =~= wrapped_lines(body, prefix, effective, hang));
}

/// Why word `t` was put on a line that starts at `start` although it did not
/// fit: it is a tag, what stood before it was decoration, or it is the colon of
/// the lone kernel-doc name that opens the paragraph.
pub open spec fn overflow_reason(words: Seq<Seq<char>>, start: int, t: int) -> bool {
    ||| tag_start(words[t])
    ||| is_bookend(line_text(words, start, t))
    ||| start == 0 && t == 1 && leads_with(words[t], CharClass::One(':')) && lone_kdoc_name(words[0])
}

/// Only a tag, a rule or the colon of a name makes a line overflow: a line of
/// two words or more that is wider than its room holds a word with such a
/// reason.
pub proof fn law_overflow_has_a_reason(words: Seq<Seq<char>>, n: int, effective: nat, hang: nat)
    requires
        1 <= n <= words.len(),
    ensures
        ({
            let p = packed(words, n, effective, hang);
            let start = p.starts.last();
            n - start >= 2 && p.width > room(p.starts.len(), effective, hang) ==> exists|t: int|
                start < t < n && #[trigger] overflow_reason(words, start, t)
        }),
    decreases n,
{
    if n > 1 {
        law_overflow_has_a_reason(words, n - 1, effective, hang);
        crate::wrap::lemma_packed_valid(words, n - 1, effective, hang);
        let p = packed(words, n - 1, effective, hang);
        let q = packed(words, n, effective, hang);
        let i = n - 1;
        let start = p.starts.last();
        if takes_word(words, p, i, effective, hang) {
            if colon_pending(words, p, i) {
                assert(p.starts.len() == 1);
                assert(p.starts[0] == 0);
                assert(overflow_reason(words, start, i));
            }
        } else if is_bookend(line_text(words, start, i)) {
            assert(overflow_reason(words, start, i));
        } else if tag_start(words[i]) {
            assert(overflow_reason(words, q.starts.last(), i));
        }
    }
}

/// Packing one more word keeps the lines, or opens one with that word or with
/// the word before it, which is then no tag.
pub proof fn lemma_pack_step(words: Seq<Seq<char>>, n: int, effective: nat, hang: nat)
    requires
        1 <= n < words.len(),
    ensures
        ({
            let p = packed(words, n, effective, hang).starts;
            let q = packed(words, n + 1, effective, hang).starts;
            ||| q == p
            ||| q == p.push(n)
            ||| q == p.push(n - 1) && p.last() <= n - 2 && tag_start(words[n]) && !tag_start(
                words[n - 1],
            )
        }),
{
}

/// A line is filled by the words up to where the next one starts.
pub proof fn lemma_line_filled(words: Seq<Seq<char>>, n: int, effective: nat, hang: nat, j: int)
    requires
        1 <= n <= words.len(),
        0 <= j < packed(words, n, effective, hang).starts.len() - 1,
    ensures
        ({
            let starts = packed(words, n, effective, hang).starts;
            &&& 1 <= starts[j + 1] < n
            &&& packed(words, starts[j + 1], effective, hang).starts == starts.take(j + 1)
        }),
    decreases n,
{
    lemma_packed_valid(words, n, effective, hang);
    let q = packed(words, n, effective, hang).starts;
    lemma_start_bounds(q, n, j + 1);
    assert(q[j] < q[j + 1]);
    lemma_start_bounds(q, n, j);
    if n > 1 {
        lemma_packed_valid(words, n - 1, effective, hang);
        lemma_pack_step(words, n - 1, effective, hang);
        let p = packed(words, n - 1, effective, hang).starts;
        if j < p.len() - 1 {
            lemma_line_filled(words, n - 1, effective, hang, j);
            assert(q.take(j + 1) =~= p.take(j + 1));
        } else {
            assert(q.take(j + 1) =~= p);
            if q != p.push(n - 1) {
                assert(n > 2);
                lemma_packed_valid(words, n - 2, effective, hang);
                lemma_pack_step(words, n - 2, effective, hang);
            }
        }
    }
}

/// A line is being filled from its second word on.
pub proof fn lemma_line_filling(
    words: Seq<Seq<char>>,
    low: int,
    k: int,
    n: int,
    effective: nat,
    hang: nat,
)
    requires
        1 <= n <= words.len(),
        0 <= low,
        low + 2 <= k <= n,
        packed(words, n, effective, hang).starts.last() == low,
    ensures
        packed(words, k, effective, hang).starts == packed(words, n, effective, hang).starts,
    decreases n - k,
{
    if k < n {
        lemma_line_filling(words, low, k + 1, n, effective, hang);
        lemma_pack_step(words, k, effective, hang);
    }
}

/// A line whose second word is no tag was opened by its first.
pub proof fn lemma_line_started(
    words: Seq<Seq<char>>,
    low: int,
    k: int,
    n: int,
    effective: nat,
    hang: nat,
)
    requires
        1 <= n <= words.len(),
        0 <= low,
        k == low + 1,
        k < n,
        !tag_start(words[k]),
        packed(words, n, effective, hang).starts.last() == low,
    ensures
        packed(words, k, effective, hang).starts == packed(words, n, effective, hang).starts,
{
    if n > low + 2 {
        lemma_line_filling(words, low, low + 2, n, effective, hang);
    }
    lemma_pack_step(words, k, effective, hang);
    lemma_packed_valid(words, k, effective, hang);
    assert(packed(words, k + 1, effective, hang).starts.last() == low);
}

/// Line `j` was settled: the last line of the packing read as decoration, so it
/// took words from the line above or joined it, and the line above may have
/// joined the one above that.
pub open spec fn settled_line(words: Seq<Seq<char>>, rough: Seq<int>, j: int) -> bool {
    let lines = settled(words, rough).len();
    &&& rough.len() >= 2
    &&& is_bookend(line_text(words, rough.last(), words.len() as int))
    &&& j == lines - 1 || (j == lines - 2 && lines < rough.len())
}

/// Only a tag, a rule or the colon of a name makes an emitted line overflow.
/// Every line that was not settled because the last one read as decoration is
/// as its words filled it, and one of two words or more that is wider than its
/// room holds a word with such a reason.
pub proof fn law_lines_overflow_for_a_reason(
    words: Seq<Seq<char>>,
    effective: nat,
    hang: nat,
    j: int,
)
    requires
        words.len() > 0,
        0 <= j < line_starts(words, effective, hang).len(),
    ensures
        ({
            let starts = line_starts(words, effective, hang);
            let rough = packed(words, words.len() as int, effective, hang).starts;
            let a = starts[j];
            let b = line_end(words, starts, j);
            let p = packed(words, b, effective, hang);
            settled_line(words, rough, j) || (b - a >= 2 ==> {
                &&& p.starts.len() == j + 1
                &&& p.starts.last() == a
                &&& p.width > room((j + 1) as nat, effective, hang) ==> exists|t: int|
                    a < t < b && #[trigger] overflow_reason(words, a, t)
            })
        }),
{
    let n = words.len() as int;
    let starts = line_starts(words, effective, hang);
    let rough = packed(words, n, effective, hang).starts;
    let m = rough.len() as int;
    let a = starts[j];
    let b = line_end(words, starts, j);
    lemma_packed_valid(words, n, effective, hang);
    law_lines_partition_words(words, effective, hang);
    lemma_start_bounds(starts, n, j);
    if j + 1 < starts.len() {
        lemma_start_bounds(starts, n, j + 1);
        assert(starts[j] < starts[j + 1]);
    }
    if b - a >= 2 && !settled_line(words, rough, j) {
        law_overflow_has_a_reason(words, b, effective, hang);
        let p = packed(words, b, effective, hang);
        assert(p.starts.len() == j + 1 && p.starts.last() == a) by {
            if m >= 2 {
                let low = rough[m - 2];
                assert(rough[m - 2] < rough[m - 2 + 1]);
                lemma_last_usable(words, rough, low, rough.last() - 1);
            }
            if starts == rough {
                if j + 1 < m {
                    lemma_line_filled(words, n, effective, hang, j);
                }
            } else if j + 1 < m - 1 {
                lemma_line_filled(words, n, effective, hang, j);
                assert(starts[j + 1] == rough[j + 1]);
                assert(starts[j] == rough[j]);
            } else {
                assert(j == m - 2);
                lemma_line_filled(words, n, effective, hang, j);
                let full = rough[m - 1];
                assert(rough.take(j + 1).last() == rough[j]);
                lemma_line_filling(words, rough[j], b, full, effective, hang);
            }
        }
    }
}

proof fn lemma_groups_keep_words(body: Seq<char>, start: int, i: int)
    requires
        0 <= i <= body.len(),
        0 <= start <= body.len(),
        forall|t: int| i <= t < start ==> in_class(#[trigger] body[t], CharClass::Blank),
    ensures
        all_words_of(return_groups(body, start, i)) == words_of(body.skip(start)),
    decreases body.len() - i,
{
    let g = return_groups(body, start, i);
    if i >= body.len() {
        let rest = body.skip(start);
        lemma_words_trimmed(rest);
        if trimmed(rest).len() > 0 {
            assert(all_words_of(g) =~= flat_words(g, 0) + words_of(trimmed(rest)));
            assert(flat_words(g, 0) + words_of(trimmed(rest)) =~= words_of(rest));
        } else {
            lemma_no_words(trimmed(rest));
            assert(all_words_of(g) =~= words_of(rest));
        }
    } else if return_boundary(body, i) {
        let j = past_blanks(body, i + 1);
        let behind = body.skip(i + 1);
        lemma_lead_len_facts(behind, CharClass::Blank);
        assert(start <= i) by {
            if start > i {
                assert(in_class(body[i], CharClass::Blank));
            }
        }
        assert forall|t: int| i + 1 <= t < j implies in_class(#[trigger] body[t], CharClass::Blank) by {
            assert(behind[t - i - 1] == body[t]);
        }
        lemma_groups_keep_words(body, j, i + 1);
        let piece = body.subrange(start, j);
        let rest = return_groups(body, j, i + 1);
        let blank = body[j - 1];
        assert(in_class(body[j - 1], CharClass::Blank));
        let front = body.subrange(start, j - 1);
        lemma_words_trimmed(piece);
        lemma_words_apart(front, blank, body.skip(j));
        lemma_words_apart(front, blank, Seq::empty());
        lemma_no_words(Seq::empty());
        assert(body.skip(start) =~= front + seq![blank] + body.skip(j));
        assert(piece =~= front + seq![blank] + Seq::<char>::empty());
        assert(words_of(piece) =~= words_of(front));
        lemma_flat_words_cons(trimmed(piece), rest, rest.len() as int);
    } else {
        lemma_groups_keep_words(body, start, i + 1);
    }
}

proof fn lemma_flat_words_cons(first: Seq<char>, rest: Seq<Seq<char>>, n: int)
    requires
        0 <= n <= rest.len(),
    ensures
        flat_words(seq![first] + rest, n + 1) == words_of(first) + flat_words(rest, n),
    decreases n,
{
    let all = seq![first] + rest;
    if n > 0 {
        lemma_flat_words_cons(first, rest, n - 1);
        assert(all[n] == rest[n - 1]);
        assert(flat_words(all, n + 1) =~= words_of(first) + flat_words(rest, n));
    } else {
        assert(flat_words(all, 1) =~= flat_words(all, 0) + words_of(first));
        assert(flat_words(all, 1) =~= words_of(first) + flat_words(rest, 0));
    }
}

/// Cutting a paragraph in front of its `Return` sentences keeps every word.
pub proof fn law_return_split_keeps_words(body: Seq<char>)
    ensures
        all_words_of(return_pieces(body)) == words_of(body),
{
    lemma_groups_keep_words(body, 0, 0);
    assert(body.skip(0) =~= body);
    let g = return_groups(body, 0, 0);
    if g.len() == 0 {
        let one = seq![body];
        assert(all_words_of(one) =~= flat_words(one, 0) + words_of(body));
        assert(flat_words(one, 0) + words_of(body) =~= words_of(body));
    }
}

/// The texts of the lines that a paragraph names.
pub open spec fn named_texts(doc: DocText, lines: Seq<usize>) -> Seq<Seq<char>> {
    Seq::new(lines.len(), |i: int| doc.lines[lines[i] as int].text)
}

proof fn lemma_paragraph_text_words(doc: DocText, lines: Seq<usize>, n: int)
    requires
        0 <= n <= lines.len(),
    ensures
        words_of(paragraph_text(doc, lines, n)) == flat_words(named_texts(doc, lines), n),
    decreases n,
{
    reveal_strlit(" ");
    assert(" "@ =~= seq![' ']);
    let all = named_texts(doc, lines);
    if n == 0 {
        lemma_no_words(Seq::empty());
        assert(words_of(paragraph_text(doc, lines, n)) =~= flat_words(all, n));
    } else {
        lemma_paragraph_text_words(doc, lines, n - 1);
        let head = paragraph_text(doc, lines, n - 1);
        let line = doc.lines[lines[n - 1] as int].text;
        let text = trimmed(line);
        lemma_words_trimmed(line);
        assert(all[n - 1] == line);
        if n > 1 && !crate::text::has_suffix(head, " "@) {
            lemma_words_apart(head, ' ', text);
        } else if n == 1 {
            assert(head + text =~= text);
            assert(flat_words(all, 0) + words_of(line) =~= words_of(line));
        } else {
            let front = head.drop_last();
            assert(head.subrange(head.len() - 1, head.len() as int)[0] == ' ');
            assert(head.last() == ' ');
            lemma_words_apart(front, ' ', text);
            lemma_words_apart(front, ' ', Seq::empty());
            lemma_no_words(Seq::empty());
            assert(head + text =~= front + seq![' '] + text);
            assert(head =~= front + seq![' '] + Seq::<char>::empty());
            assert(words_of(head) =~= words_of(front));
        }
    }
}

/// No word of a prose paragraph is lost, added or moved: the words of the
/// pieces that are wrapped are those of the paragraph's lines.
pub proof fn law_paragraph_keeps_words(doc: DocText, lines: Seq<usize>)
    ensures
        all_words_of(return_pieces(prose_body(doc, lines))) == all_words_of(
            named_texts(doc, lines),
        ),
{
    lemma_paragraph_text_words(doc, lines, lines.len() as int);
    lemma_words_collapsed(paragraph_text(doc, lines, lines.len() as int));
    law_return_split_keeps_words(prose_body(doc, lines));
}


/// The numbers of the lines from `i` on that are not blank.
pub open spec fn text_lines_from(lines: Seq<LineText>, i: int) -> Seq<usize>
    decreases lines.len() - i,
{
    if i >= lines.len() {
        Seq::empty()
    } else if lines[i].kind == LineKind::Blank {
        text_lines_from(lines, i + 1)
    } else {
        seq![i as usize] + text_lines_from(lines, i + 1)
    }
}

/// The lines that the paragraphs from `p` on name, in order.
pub open spec fn named_lines_from(paras: Seq<ParagraphText>, p: int) -> Seq<usize>
    decreases paras.len() - p,
{
    if p >= paras.len() {
        Seq::empty()
    } else {
        paras[p].line_indices + named_lines_from(paras, p + 1)
    }
}

proof fn lemma_named_lines_cons(first: ParagraphText, rest: Seq<ParagraphText>, p: int)
    requires
        0 <= p <= rest.len(),
    ensures
        named_lines_from(seq![first] + rest, p + 1) == named_lines_from(rest, p),
    decreases rest.len() - p,
{
    if p < rest.len() {
        lemma_named_lines_cons(first, rest, p + 1);
        assert((seq![first] + rest)[p + 1] == rest[p]);
    }
}

proof fn lemma_text_run(lines: Seq<LineText>, i: int, j: int, end: int, k: crate::normalize::ParagraphKind)
    requires
        0 <= i <= j <= end <= lines.len(),
        end == paragraph_end(lines, j, k),
        forall|t: int| i <= t < j ==> (#[trigger] lines[t]).kind != LineKind::Blank,
        lines.len() <= usize::MAX,
    ensures
        text_lines_from(lines, i) == index_range(i, end) + text_lines_from(lines, end),
    decreases end - j, end - i,
{
    if j < end {
        assert(joins_above(lines[j], k));
        lemma_text_run(lines, i, j + 1, end, k);
    } else if i < end {
        assert(lines[i].kind != LineKind::Blank);
        lemma_text_run(lines, i + 1, j, end, k);
        assert(index_range(i, end) =~= seq![i as usize] + index_range(i + 1, end));
        assert(text_lines_from(lines, i) =~= index_range(i, end) + text_lines_from(lines, end));
    } else {
        assert(index_range(i, end) =~= Seq::<usize>::empty());
        assert(text_lines_from(lines, i) =~= index_range(i, end) + text_lines_from(lines, end));
    }
}

proof fn lemma_groups_cover(lines: Seq<LineText>, i: int, blank: bool)
    requires
        0 <= i <= lines.len() <= usize::MAX,
    ensures
        named_lines_from(paragraphs_from(lines, i, blank), 0) == text_lines_from(lines, i),
    decreases lines.len() - i,
{
    if i < lines.len() {
        if lines[i].kind == LineKind::Blank {
            lemma_groups_cover(lines, i + 1, true);
        } else {
            let k = opens_kind(lines[i].kind);
            lemma_paragraph_end(lines, i + 1, k);
            let end = paragraph_end(lines, i + 1, k);
            lemma_groups_cover(lines, end, false);
            let first = ParagraphText {
                kind: k,
                line_indices: index_range(i, end),
                preceded_by_blank: blank,
            };
            let rest = paragraphs_from(lines, end, false);
            lemma_named_lines_cons(first, rest, 0);
            lemma_text_run(lines, i, i + 1, end, k);
            assert((seq![first] + rest)[0] == first);
        }
    }
}

/// Grouping puts every line with text into exactly one paragraph, and keeps the
/// order of the lines.
pub proof fn law_paragraphs_cover_text(lines: Seq<LineText>)
    requires
        lines.len() <= usize::MAX,
    ensures
        named_lines_from(paragraphs_from(lines, 0, false), 0) == text_lines_from(lines, 0),
{
    lemma_groups_cover(lines, 0, false);
}

/// The paragraph opens right behind a blank line.
pub open spec fn behind_blank(lines: Seq<LineText>, para: ParagraphText) -> bool {
    let first = para.line_indices[0] as int;
    0 < first <= lines.len() && lines[first - 1].kind == LineKind::Blank
}

proof fn lemma_blank_marks(lines: Seq<LineText>, i: int, blank: bool, p: int)
    requires
        0 <= i <= lines.len() <= usize::MAX,
        blank == (i > 0 && lines[i - 1].kind == LineKind::Blank),
        0 <= p < paragraphs_from(lines, i, blank).len(),
    ensures
        ({
            let para = paragraphs_from(lines, i, blank)[p];
            &&& para.line_indices.len() > 0
            &&& para.preceded_by_blank == behind_blank(lines, para)
        }),
    decreases lines.len() - i,
{
    if i < lines.len() {
        if lines[i].kind == LineKind::Blank {
            lemma_blank_marks(lines, i + 1, true, p);
        } else {
            let k = opens_kind(lines[i].kind);
            lemma_paragraph_end(lines, i + 1, k);
            let end = paragraph_end(lines, i + 1, k);
            if p > 0 {
                lemma_last_not_blank(lines, i, i + 1, k);
                lemma_blank_marks(lines, end, false, p - 1);
            }
        }
    }
}

pub proof fn lemma_last_not_blank(lines: Seq<LineText>, i: int, j: int, k: crate::normalize::ParagraphKind)
    requires
        0 <= i < j <= lines.len(),
        lines[j - 1].kind != LineKind::Blank,
    ensures
        j <= paragraph_end(lines, j, k) <= lines.len(),
        lines[paragraph_end(lines, j, k) - 1].kind != LineKind::Blank,
    decreases lines.len() - j,
{
    if j < lines.len() && joins_above(lines[j], k) {
        lemma_last_not_blank(lines, i, j + 1, k);
    }
}

/// Blank lines inside a comment survive: a paragraph behind a blank line is
/// emitted behind an empty comment line, and only such a paragraph is.
pub proof fn law_blank_lines_survive(
    doc: DocText,
    p: int,
    prefix: Seq<char>,
    effective: usize,
    inline_opener: bool,
)
    requires
        doc.lines.len() <= usize::MAX,
        doc.paragraphs == paragraphs_from(doc.lines, 0, false),
        0 < p < doc.paragraphs.len(),
    ensures
        ({
            let before = first_paragraphs(doc, p, prefix, effective, inline_opener);
            let own = paragraph_lines(doc, doc.paragraphs[p], prefix, effective, inline_opener);
            first_paragraphs(doc, p + 1, prefix, effective, inline_opener) == if behind_blank(
                doc.lines,
                doc.paragraphs[p],
            ) {
                before.push(bare_prefix(prefix)) + own
            } else {
                before + own
            }
        }),
{
    lemma_blank_marks(doc.lines, 0, false, p);
    let before = first_paragraphs(doc, p, prefix, effective, inline_opener);
    let own = paragraph_lines(doc, doc.paragraphs[p], prefix, effective, inline_opener);
    assert(before + seq![bare_prefix(prefix)] + own =~= before.push(bare_prefix(prefix)) + own);
    assert(before + Seq::<Seq<char>>::empty() + own =~= before + own);
}

proof fn lemma_trimmed_white(s: Seq<char>)
    requires
        all_in(s, CharClass::White),
    ensures
        trimmed_end(s).len() == 0,
        trimmed_start(s).len() == 0,
        trimmed(s).len() == 0,
{
    lemma_lead_len(s, CharClass::White, s.len() as int);
    lemma_trail_len(s, CharClass::White, s.len() as int);
    let t = trimmed_start(s);
    lemma_trail_len(t, CharClass::White, 0);
}

/// A closer that has been moved to a line of its own stays there: there is
/// nothing left to move, whatever indentation is asked for.
pub proof fn law_closer_split_is_final(
    text: Seq<char>,
    indent: Option<Seq<char>>,
    again: Option<Seq<char>>,
)
    requires
        closer_split(text, indent) is Some,
        indent is Some ==> all_in(indent->0, CharClass::Blank),
    ensures
        closer_split(closer_split(text, indent)->0, again) is None,
{
    reveal_strlit("*/");
    reveal_strlit("\n");
    reveal_strlit("\r\n");
    let t = closer_split(text, indent)->0;
    let (above, last) = last_line(text)->0;
    let before = trimmed_end(suffix_rest(trimmed_end(last), "*/"@)->0);
    let eol = if has_suffix(above, "\r\n"@) {
        "\r\n"@
    } else {
        "\n"@
    };
    let lead = match indent {
        Some(i) => i,
        None => lead_run(last, CharClass::Blank),
    };
    lemma_lead_len_facts(last, CharClass::Blank);
    assert(all_in(lead, CharClass::Blank)) by {
        assert forall|i: int| 0 <= i < lead.len() implies in_class(
            #[trigger] lead[i],
            CharClass::Blank,
        ) by {
            if indent is None {
                assert(lead[i] == last[i]);
            }
        }
    }
    assert(all_in(lead, CharClass::White)) by {
        assert forall|i: int| 0 <= i < lead.len() implies in_class(
            #[trigger] lead[i],
            CharClass::White,
        ) by {
            assert(in_class(lead[i], CharClass::Blank));
        }
    }
    let tail = lead + "*/"@;
    assert(t =~= above + before + eol + tail);
    let n = tail.len() as int;
    assert forall|i: int| t.len() - n <= i < t.len() implies in_class(
        #[trigger] t[i],
        CharClass::NotOne('\n'),
    ) by {
        let q = i - (t.len() - n);
        assert(t[i] == tail[q]);
        if q < lead.len() {
            assert(in_class(lead[q], CharClass::Blank));
        }
    }
    assert(t[t.len() - n - 1] == eol.last());
    lemma_trail_len(t, CharClass::NotOne('\n'), n);
    assert(t.skip(t.len() - n) =~= tail);
    lemma_trail_len(tail, CharClass::White, 0);
    assert(trimmed_end(tail) =~= tail);
    assert(tail.subrange(tail.len() - 2, tail.len() as int) =~= "*/"@);
    assert(tail.take(tail.len() - 2) =~= lead);
    lemma_trimmed_white(lead);
    let none = trimmed_end(lead);
    lemma_trimmed_white(none);
    let rest = after_lead(trimmed_start(none), CharClass::One('*'));
    lemma_lead_len_facts(trimmed_start(none), CharClass::One('*'));
    lemma_trimmed_white(rest);
}

/// What of a text is not white space, in order.
pub open spec fn solids(s: Seq<char>) -> Seq<char>
    decreases s.len(),
{
    if s.len() == 0 {
        s
    } else if is_white(s.last()) {
        solids(s.drop_last())
    } else {
        solids(s.drop_last()).push(s.last())
    }
}

pub proof fn lemma_solids_concat(a: Seq<char>, b: Seq<char>)
    ensures
        solids(a + b) == solids(a) + solids(b),
    decreases b.len(),
{
    if b.len() == 0 {
        assert(a + b =~= a);
        assert(solids(a) + solids(b) =~= solids(a));
    } else {
        lemma_solids_concat(a, b.drop_last());
        assert((a + b).drop_last() =~= a + b.drop_last());
        assert(solids(a + b) =~= solids(a) + solids(b));
    }
}

pub proof fn lemma_solids_white(s: Seq<char>)
    requires
        all_in(s, CharClass::White),
    ensures
        solids(s).len() == 0,
    decreases s.len(),
{
    if s.len() > 0 {
        assert(in_class(s[s.len() - 1], CharClass::White));
        let t = s.drop_last();
        assert forall|i: int| 0 <= i < t.len() implies in_class(#[trigger] t[i], CharClass::White) by {
            assert(in_class(s[i], CharClass::White));
        }
        lemma_solids_white(t);
    }
}

proof fn lemma_solids_trimmed_end(s: Seq<char>)
    ensures
        solids(trimmed_end(s)) == solids(s),
{
    let n = trail_len(s, CharClass::White) as int;
    lemma_trail_len_facts(s, CharClass::White);
    let back = s.skip(s.len() - n);
    assert(all_in(back, CharClass::White)) by {
        assert forall|i: int| 0 <= i < back.len() implies in_class(
            #[trigger] back[i],
            CharClass::White,
        ) by {
            assert(back[i] == s[s.len() - n + i]);
        }
    }
    lemma_solids_white(back);
    lemma_solids_concat(trimmed_end(s), back);
    assert(trimmed_end(s) + back =~= s);
    assert(solids(trimmed_end(s)) + solids(back) =~= solids(trimmed_end(s)));
}

/// Moving a closer to a line of its own moves white space only: everything else
/// stays, in order.
pub proof fn law_closer_split_keeps_text(text: Seq<char>, indent: Option<Seq<char>>)
    requires
        closer_split(text, indent) is Some,
        indent is Some ==> all_in(indent->0, CharClass::White),
    ensures
        solids(closer_split(text, indent)->0) == solids(text),
{
    reveal_strlit("*/");
    reveal_strlit("\n");
    reveal_strlit("\r\n");
    let t = closer_split(text, indent)->0;
    let (above, last) = last_line(text)->0;
    let cut = trimmed_end(last);
    let head = suffix_rest(cut, "*/"@)->0;
    let before = trimmed_end(head);
    let eol = if has_suffix(above, "\r\n"@) {
        "\r\n"@
    } else {
        "\n"@
    };
    let lead = match indent {
        Some(i) => i,
        None => lead_run(last, CharClass::Blank),
    };
    lemma_lead_len_facts(last, CharClass::Blank);
    assert(all_in(lead, CharClass::White)) by {
        assert forall|i: int| 0 <= i < lead.len() implies in_class(
            #[trigger] lead[i],
            CharClass::White,
        ) by {
            if indent is None {
                assert(lead[i] == last[i]);
                assert(in_class(last[i], CharClass::Blank));
            }
        }
    }
    assert(all_in(eol, CharClass::White)) by {
        assert forall|i: int| 0 <= i < eol.len() implies in_class(
            #[trigger] eol[i],
            CharClass::White,
        ) by {}
    }
    lemma_solids_white(lead);
    lemma_solids_white(eol);
    lemma_solids_concat(above + before + eol + lead, "*/"@);
    lemma_solids_concat(above + before + eol, lead);
    lemma_solids_concat(above + before, eol);
    lemma_solids_concat(above, before);
    lemma_solids_concat(above, last);
    lemma_solids_trimmed_end(last);
    lemma_solids_trimmed_end(head);
    lemma_solids_concat(head, "*/"@);
    lemma_trail_len_facts(text, CharClass::NotOne('\n'));
    assert(text =~= above + last);
    assert(cut =~= head + "*/"@) by {
        let p = cut.subrange(cut.len() - 2, cut.len() as int);
        assert(p == "*/"@);
        assert(cut[cut.len() - 2] == p[0]);
        assert(cut[cut.len() - 1] == p[1]);
    }
    assert(solids(t) =~= solids(above) + (solids(before) + solids("*/"@)));
}

/// The line marker of a drawing is reduced once: doing it again changes nothing.
pub proof fn law_star_markers_settle(raw: Seq<char>)
    ensures
        stars_collapsed(stars_collapsed(raw)) == stars_collapsed(raw),
{
    reveal_strlit("*");
    let ws = lead_run(raw, CharClass::Blank);
    let rest = after_lead(raw, CharClass::Blank);
    let stars = lead_len(rest, CharClass::One('*')) as int;
    lemma_lead_len_facts(raw, CharClass::Blank);
    lemma_lead_len_facts(rest, CharClass::One('*'));
    let behind = rest.skip(stars);
    let r = stars_collapsed(raw);
    if r != raw {
        assert(r =~= ws + "*"@ + behind);
        assert forall|i: int| 0 <= i < ws.len() implies in_class(#[trigger] r[i], CharClass::Blank) by {
            assert(r[i] == raw[i]);
        }
        assert(r[ws.len() as int] == '*');
        lemma_lead_len(r, CharClass::Blank, ws.len() as int);
        let again = after_lead(r, CharClass::Blank);
        assert(again =~= "*"@ + behind);
        if behind.len() > 0 {
            assert(behind[0] == rest[stars]);
            assert(again[1] == behind[0]);
        }
        lemma_lead_len(again, CharClass::One('*'), 1);
    }
}

/// Blanks are single spaces.
pub open spec fn single_spaced(s: Seq<char>) -> bool {
    forall|i: int|
        0 <= i < s.len() && in_class(#[trigger] s[i], CharClass::Blank) ==> s[i] == ' ' && (i + 1
            < s.len() ==> !in_class(s[i + 1], CharClass::Blank))
}

pub proof fn lemma_collapsed_single(s: Seq<char>)
    ensures
        single_spaced(spaces_collapsed(s)),
        s.len() > 0 ==> spaces_collapsed(s).len() > 0 && in_class(
            spaces_collapsed(s).last(),
            CharClass::Blank,
        ) == in_class(s.last(), CharClass::Blank),
    decreases s.len(),
{
    if s.len() > 0 {
        let head = s.drop_last();
        lemma_collapsed_single(head);
        let h = spaces_collapsed(head);
        let r = spaces_collapsed(s);
        if s.len() > 1 {
            assert(head.last() == s[s.len() - 2]);
        } else {
            assert(h.len() == 0);
        }
        if r.len() > h.len() {
            assert forall|i: int| 0 <= i < r.len() && in_class(#[trigger] r[i], CharClass::Blank) implies r[i]
                == ' ' && (i + 1 < r.len() ==> !in_class(r[i + 1], CharClass::Blank)) by {
                if i < h.len() {
                    assert(r[i] == h[i]);
                    assert(in_class(h[i], CharClass::Blank));
                    if i + 1 < h.len() {
                        assert(r[i + 1] == h[i + 1]);
                    } else {
                        assert(h[i] == h.last());
                    }
                }
            }
        }
    }
}

pub proof fn lemma_single_collapsed(s: Seq<char>)
    requires
        single_spaced(s),
    ensures
        spaces_collapsed(s) == s,
    decreases s.len(),
{
    if s.len() > 0 {
        let head = s.drop_last();
        assert(single_spaced(head)) by {
            assert forall|i: int| 0 <= i < head.len() && in_class(#[trigger] head[i], CharClass::Blank) implies head[i]
                == ' ' && (i + 1 < head.len() ==> !in_class(head[i + 1], CharClass::Blank)) by {
                assert(in_class(s[i], CharClass::Blank));
            }
        }
        lemma_single_collapsed(head);
        if s.len() > 1 && in_class(s[s.len() - 2], CharClass::Blank) {
            assert(!in_class(s[s.len() - 2 + 1], CharClass::Blank));
        }
        if in_class(s.last(), CharClass::Blank) {
            assert(in_class(s[s.len() - 1], CharClass::Blank));
        }
        assert(spaces_collapsed(s) =~= s);
    }
}

/// Blanks are collapsed once: doing it again changes nothing.
pub proof fn law_spaces_settle(s: Seq<char>)
    ensures
        spaces_collapsed(spaces_collapsed(s)) == spaces_collapsed(s),
{
    lemma_collapsed_single(s);
    lemma_single_collapsed(spaces_collapsed(s));
}

proof fn lemma_region_start(lines: Seq<LineText>, i: int)
    requires
        0 <= i <= lines.len(),
    ensures
        i <= region_start(lines, i) <= lines.len(),
        forall|j: int| i <= j < region_start(lines, i) ==> !opens_region(#[trigger] lines[j]),
    decreases lines.len() - i,
{
    if i < lines.len() && !opens_region(lines[i]) {
        lemma_region_start(lines, i + 1);
    }
}

proof fn lemma_no_region(lines: Seq<LineText>, i: int)
    requires
        0 <= i <= lines.len(),
        forall|j: int| i <= j < lines.len() ==> !opens_region(#[trigger] lines[j]),
    ensures
        region_start(lines, i) == lines.len(),
    decreases lines.len() - i,
{
    if i < lines.len() {
        lemma_no_region(lines, i + 1);
    }
}

/// A converted parameter line opens no region.
proof fn lemma_param_line_settled(e: EntryText, had_crlf: bool)
    requires
        e.tag == KTag::Param,
        good_entry(e),
    ensures
        !opens_region(made_line(LineKind::DoxygenTag, param_line(e), had_crlf)),
{
    reveal_strlit("@");
    reveal_strlit(" :");
    reveal_strlit(" : ");
    let name = e.words[0];
    let word = "@"@ + name;
    assert(is_word(word)) by {
        assert forall|i: int| 0 <= i < word.len() implies in_class(
            #[trigger] word[i],
            CharClass::Solid,
        ) by {
            if i > 0 {
                assert(word[i] == name[i - 1]);
                assert(in_class(name[i - 1], CharClass::Word));
            }
        }
    }
    let rest = joined(e.words.skip(1), " "@);
    let tail = if rest.len() == 0 {
        " :"@
    } else {
        " : "@ + rest
    };
    assert(param_line(e) =~= word + tail);
    lemma_first_word(word, tail);
    let ws = words_of(param_line(e));
    assert(ws[0] == word);
    assert(word.skip(1) =~= name);
}

proof fn lemma_return_line_settled(e: EntryText, had_crlf: bool)
    ensures
        !opens_region(made_line(LineKind::Prose, return_text(e), had_crlf)),
{
    reveal_strlit("Return");
    reveal_strlit("Return ");
    let word = "Return"@;
    assert(is_word(word)) by {
        assert forall|i: int| 0 <= i < word.len() implies in_class(
            #[trigger] word[i],
            CharClass::Solid,
        ) by {}
    }
    let rest = joined(e.words, " "@);
    let tail = if rest.len() == 0 {
        Seq::empty()
    } else {
        seq![' '] + rest
    };
    assert(return_text(e) =~= word + tail);
    lemma_first_word(word, tail);
    assert(words_of(return_text(e))[0] == word);
}

proof fn lemma_emitted_parts(entries: Seq<EntryText>, n: int, had_crlf: bool)
    requires
        0 <= n <= entries.len(),
        good_entries(entries),
    ensures
        forall|j: int|
            0 <= j < param_lines(entries, n, had_crlf).len() ==> !opens_region(
                #[trigger] param_lines(entries, n, had_crlf)[j],
            ),
        forall|j: int|
            0 <= j < returned_lines(entries, n, had_crlf).len() ==> !opens_region(
                #[trigger] returned_lines(entries, n, had_crlf)[j],
            ),
    decreases n,
{
    if n > 0 {
        lemma_emitted_parts(entries, n - 1, had_crlf);
        let e = entries[n - 1];
        assert(good_entry(e));
        if e.tag == KTag::Param {
            lemma_param_line_settled(e, had_crlf);
            assert(returned_lines(entries, n, had_crlf) == returned_lines(
                entries,
                n - 1,
                had_crlf,
            ));
            let before = param_lines(entries, n - 1, had_crlf);
            let all = param_lines(entries, n, had_crlf);
            assert forall|j: int| 0 <= j < all.len() implies !opens_region(#[trigger] all[j]) by {
                if j < before.len() {
                    assert(all[j] == before[j]);
                }
            }
        } else {
            lemma_return_line_settled(e, had_crlf);
            assert(param_lines(entries, n, had_crlf) == param_lines(entries, n - 1, had_crlf));
            let before = returned_lines(entries, n - 1, had_crlf);
            let all = returned_lines(entries, n, had_crlf);
            assert forall|j: int| 0 <= j < all.len() implies !opens_region(#[trigger] all[j]) by {
                if j < before.len() {
                    assert(all[j] == before[j]);
                }
            }
        }
    }
}

/// A converted comment is in its final form: converting it again changes
/// nothing.
pub proof fn law_kernel_doc_settles(lines: Seq<LineText>)
    ensures
        kernel_doc(kernel_doc(lines)) == kernel_doc(lines),
{
    let r = kernel_doc(lines);
    if r != lines {
        let n = lines.len() as int;
        let first = region_start(lines, 0);
        let scan = scanned(lines, first, n);
        let crlf = lines[first].had_crlf;
        let entries = scan.entries;
        let m = entries.len() as int;
        lemma_region_start(lines, 0);
        lemma_emitted_parts(entries, m, crlf);
        let head = lines.take(first);
        let ps = param_lines(entries, m, crlf);
        let rs = returned_lines(entries, m, crlf);
        let gap = made_line(LineKind::Blank, Seq::empty(), crlf);
        lemma_no_words(Seq::<char>::empty());
        assert(!opens_region(gap));
        assert forall|j: int| 0 <= j < r.len() implies !opens_region(#[trigger] r[j]) by {
            if j < head.len() {
                assert(r[j] == lines[j]);
            } else if j < head.len() + ps.len() {
                assert(r[j] == ps[j - head.len()]);
            } else if rs.len() > 0 {
                let tail = j - (r.len() - rs.len());
                if tail >= 0 {
                    assert(r[j] == rs[tail]);
                } else {
                    assert(r[j] == gap);
                }
            }
        }
        lemma_no_region(r, 0);
    }
}

/// Converting a comment keeps the lines ahead of its tags.
pub proof fn law_kernel_doc_keeps_the_head(lines: Seq<LineText>)
    ensures
        region_start(lines, 0) <= kernel_doc(lines).len(),
        kernel_doc(lines).take(region_start(lines, 0)) == lines.take(region_start(lines, 0)),
{
    lemma_region_start(lines, 0);
    let first = region_start(lines, 0);
    assert(kernel_doc(lines).take(first) =~= lines.take(first));
}

} // verus!
