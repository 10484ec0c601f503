//! Prose fits the column limit, and fills it.

use crate::bytes::{lemma_encode_concat, lemma_source_ends};
use crate::classify::{kind_of, style_of, Style};
use crate::comment::CommentText;
use crate::comment_words::{stretch_pieces, texts_from};
use crate::final_form::{after_first, emitted, first_doc, lemma_emitted_forms, lemma_first_facts};
use crate::language::Language;
use crate::lines_before::{lemma_line_starts, lemma_lines_are};
use crate::normalize::{block_marker_of, line_marker_of, source_lines, DocText, ParagraphKind};
use crate::placement::lemma_span_middle;
use crate::plain_form::{
    is_plain_prose, lemma_plain_doc, lemma_plain_ends, lemma_plain_own, lemma_plain_starts,
    lemma_plain_stretches, lemma_word_among, plain_stretches,
};
use crate::plain_words::{lemma_plain_hang, lemma_plain_opens, plain_text, plain_word};
use crate::planner::{blank_lead, comment_splices, in_place_splices, keeps_style, needs_blank};
use crate::reflow::{bare_prefix, is_block, line_comment_lines};
use crate::rewrite::{final_break, rewritten, Splice};
use crate::rows::{eol_of, is_break, lemma_ended_lines, unbroken};
use crate::second_pass::lemma_line_of;
use crate::settling::{
    doc_lines, doc_room, doc_stretches, lemma_line_prefix, lemma_lines_unbroken, lemma_stretch_of,
    sound_stretch,
};
use crate::text::{
    all_in, before_trail, has_prefix, in_class, is_white, joined, lead_len, lemma_lead_len_facts,
    lemma_trail_len_facts, trail_len, trimmed, words_of, CharClass,
};
use crate::textline::half_banner;
use crate::width::{char_columns, columns, text_columns};
use crate::words::{all_words, flat_words, is_word, lemma_words_are_words};
use crate::wrap::{
    law_lines_partition_words, lemma_packed_valid, lemma_start_bounds, line_body, line_end,
    line_starts, line_text, packed, tag_start, takes_word,
};
use vstd::prelude::*;
use vstd::utf8::{encode_utf8, encode_utf8_decode_utf8};

verus! {

/// A character that takes one column.
pub open spec fn narrow(c: char) -> bool {
    c != '\t' && char_columns(c) == Some(1usize)
}

/// A word of such characters, which takes as many columns as it has of them.
pub open spec fn narrow_word(w: Seq<char>) -> bool {
    (forall|i: int| 0 <= i < w.len() ==> narrow(#[trigger] w[i])) && text_columns(w) == w.len()
}

/// Text of narrow characters takes one column for each.
pub proof fn lemma_columns_of(a: Seq<char>, b: Seq<char>, tab_width: nat)
    requires
        forall|i: int| 0 <= i < b.len() ==> narrow(#[trigger] b[i]),
    ensures
        columns(a + b, tab_width) == columns(a, tab_width) + b.len(),
    decreases b.len(),
{
    if b.len() > 0 {
        let front = b.drop_last();
        assert forall|i: int| 0 <= i < front.len() implies narrow(#[trigger] front[i]) by {
            assert(front[i] == b[i]);
        }
        lemma_columns_of(a, front, tab_width);
        assert((a + b).drop_last() =~= a + front);
        assert((a + b).last() == b.last());
        assert(narrow(b[b.len() - 1]));
    } else {
        assert(a + b =~= a);
    }
}

/// Columns in front of more text.
pub proof fn lemma_columns_behind(a: Seq<char>, b: Seq<char>, tab_width: nat)
    requires
        forall|i: int| 0 <= i < b.len() ==> #[trigger] b[i] != '\t',
    ensures
        columns(a + b, tab_width) == columns(a, tab_width) + columns(b, tab_width),
    decreases b.len(),
{
    if b.len() > 0 {
        let front = b.drop_last();
        assert forall|i: int| 0 <= i < front.len() implies #[trigger] front[i] != '\t' by {
            assert(front[i] == b[i]);
        }
        lemma_columns_behind(a, front, tab_width);
        assert((a + b).drop_last() =~= a + front);
        assert((a + b).last() == b.last());
        assert(b[b.len() - 1] != '\t');
    } else {
        assert(a + b =~= a);
    }
}

/// A comment on one line that is nobody else's and has no banner is left alone only where
/// its whole line fits: its indentation counts. The text behind the indentation holds no
/// tab, which would be as wide as the column it starts at makes it.
pub proof fn law_only_lines_that_fit_are_left_alone(
    c: CommentText,
    body: Seq<char>,
    brk: Seq<char>,
    lang: Language,
    limit: usize,
)
    requires
        c.text == body + brk,
        brk.len() == 0 || brk == "\n"@ || brk == "\r\n"@,
        body.len() > 0,
        forall|i: int| 0 <= i < body.len() ==> #[trigger] body[i] != '\t',
        body.last() != '\n' && body.last() != '\r',
        !c.is_trailing,
        !c.force_passthrough,
        limit < usize::MAX,
        forall|r: int|
            0 <= r < c.plain_lines(kind_of(c.text, lang)).len() ==> !half_banner(
                (#[trigger] c.plain_lines(kind_of(c.text, lang))[r]).body,
            ),
        c.left_alone(kind_of(c.text, lang), lang, limit),
    ensures
        columns(c.line_indent_bytes + body, 8) <= limit,
        !body.contains('\n'),
{
    reveal_strlit("\n");
    reveal_strlit("\r\n");
    reveal(CommentText::left_alone);
    let k = CharClass::Two('\r', '\n');
    assert forall|i: int| c.text.len() - brk.len() <= i < c.text.len() implies in_class(
        #[trigger] c.text[i],
        k,
    ) by {
        assert(c.text[i] == brk[i - body.len()]);
    }
    assert(c.text[c.text.len() - brk.len() - 1] == body.last());
    crate::text::lemma_trail_len(c.text, k, brk.len() as int);
    assert(before_trail(c.text, k) =~= body);
    lemma_columns_behind(c.line_indent_bytes, body, 8);
}

/// The length of a line that one more word goes on.
proof fn lemma_text_grows(words: Seq<Seq<char>>, a: int, n: int)
    requires
        0 <= a < n <= words.len(),
    ensures
        line_text(words, a, n).len() == if a == n - 1 {
            words[a].len()
        } else {
            line_text(words, a, n - 1).len() + 1 + words[n - 1].len()
        },
{
    reveal_strlit(" ");
    let part = words.subrange(a, n);
    if a == n - 1 {
        assert(part =~= seq![words[a]]);
        assert(joined(part, " "@) == words[a]);
    } else {
        assert(part.drop_last() =~= words.subrange(a, n - 1));
        assert(part.last() == words[n - 1]);
        assert(joined(part, " "@) == joined(part.drop_last(), " "@) + " "@ + part.last());
    }
}

/// The width of the last line of a packing of narrow words without tags.
proof fn lemma_width_is(words: Seq<Seq<char>>, n: int, effective: nat, hang: nat)
    requires
        1 <= n <= words.len(),
        forall|i: int| 0 <= i < words.len() ==> plain_word(#[trigger] words[i]) && narrow_word(
            words[i],
        ),
    ensures
        ({
            let p = packed(words, n, effective, hang);
            p.width == line_text(words, p.starts.last(), n).len()
        }),
    decreases n,
{
    let p = packed(words, n, effective, hang);
    lemma_packed_valid(words, n, effective, hang);
    lemma_start_bounds(p.starts, n, p.starts.len() - 1);
    let i = n - 1;
    assert(plain_word(words[i]) && narrow_word(words[i]));
    lemma_text_grows(words, p.starts.last(), n);
    if n > 1 {
        lemma_width_is(words, n - 1, effective, hang);
        let q = packed(words, n - 1, effective, hang);
        lemma_packed_valid(words, n - 1, effective, hang);
        lemma_start_bounds(q.starts, n - 1, q.starts.len() - 1);
        assert(!tag_start(words[i]));
    }
}

/// Plain words of one-column characters fill their lines: a line of several words is no
/// wider than the room, and the word that the next line starts with had none left on it.
pub proof fn law_plain_words_fill_their_lines(words: Seq<Seq<char>>, effective: nat, j: int)
    requires
        words.len() > 0,
        all_words(words),
        forall|i: int| 0 <= i < words.len() ==> plain_word(#[trigger] words[i]) && narrow_word(
            words[i],
        ),
        0 <= j < line_starts(words, effective, 0).len(),
    ensures
        ({
            let starts = line_starts(words, effective, 0);
            let line = line_body(words, starts, j);
            &&& line_end(words, starts, j) - starts[j] >= 2 ==> line.len() <= effective
            &&& j + 1 < starts.len() ==> line.len() + 1 + words[starts[j + 1]].len() > effective
        }),
{
    law_hanging_words_fill_their_lines(words, effective, 0, j);
}

/// The columns that line `j` of a paragraph may take where the lines behind the first hang.
pub open spec fn columns_left(effective: nat, hang: nat, j: int) -> int {
    if j == 0 {
        effective as int
    } else if effective > hang {
        effective - hang
    } else {
        0
    }
}

/// The same where the lines behind the first hang: they have as many columns less.
pub proof fn law_hanging_words_fill_their_lines(
    words: Seq<Seq<char>>,
    effective: nat,
    hang: nat,
    j: int,
)
    requires
        words.len() > 0,
        all_words(words),
        forall|i: int| 0 <= i < words.len() ==> plain_word(#[trigger] words[i]) && narrow_word(
            words[i],
        ),
        0 <= j < line_starts(words, effective, hang).len(),
    ensures
        ({
            let starts = line_starts(words, effective, hang);
            let line = line_body(words, starts, j);
            let space = columns_left(effective, hang, j);
            &&& line_end(words, starts, j) - starts[j] >= 2 ==> line.len() <= space
            &&& j + 1 < starts.len() ==> line.len() + 1 + words[starts[j + 1]].len() > space
        }),
{
    lemma_not_too_wide(words, effective, hang, j);
    lemma_full(words, effective, hang, j);
}

/// Why an overflow of plain words has no reason.
proof fn lemma_no_reason(words: Seq<Seq<char>>, a: int, t: int)
    requires
        all_words(words),
        forall|i: int| 0 <= i < words.len() ==> plain_word(#[trigger] words[i]),
        0 <= a < t < words.len(),
    ensures
        !crate::laws::overflow_reason(words, a, t),
{
    assert(plain_word(words[t]));
    assert(plain_word(words[0]));
    crate::plain_form::lemma_part_plain(words, a, t);
}

proof fn lemma_not_too_wide(words: Seq<Seq<char>>, effective: nat, hang: nat, j: int)
    requires
        words.len() > 0,
        all_words(words),
        forall|i: int| 0 <= i < words.len() ==> plain_word(#[trigger] words[i]) && narrow_word(
            words[i],
        ),
        0 <= j < line_starts(words, effective, hang).len(),
    ensures
        ({
            let starts = line_starts(words, effective, hang);
            line_end(words, starts, j) - starts[j] >= 2 ==> line_body(words, starts, j).len()
                <= columns_left(effective, hang, j)
        }),
{
    let n = words.len() as int;
    let starts = line_starts(words, effective, hang);
    let a = starts[j];
    let b = line_end(words, starts, j);
    law_lines_partition_words(words, effective, hang);
    lemma_start_bounds(starts, n, j);
    if j + 1 < starts.len() {
        lemma_start_bounds(starts, n, j + 1);
    }
    if b - a >= 2 {
        lemma_plain_starts(words, effective, hang);
        crate::laws::law_lines_overflow_for_a_reason(words, effective, hang, j);
        let p = packed(words, b, effective, hang);
        lemma_width_is(words, b, effective, hang);
        if p.width > columns_left(effective, hang, j) {
            let t = choose|t: int|
                a < t < b && #[trigger] crate::laws::overflow_reason(words, a, t);
            lemma_no_reason(words, a, t);
        }
    }
}

proof fn lemma_full(words: Seq<Seq<char>>, effective: nat, hang: nat, j: int)
    requires
        words.len() > 0,
        all_words(words),
        forall|i: int| 0 <= i < words.len() ==> plain_word(#[trigger] words[i]) && narrow_word(
            words[i],
        ),
        0 <= j < line_starts(words, effective, hang).len(),
    ensures
        ({
            let starts = line_starts(words, effective, hang);
            j + 1 < starts.len() ==> line_body(words, starts, j).len() + 1 + words[starts[j
                + 1]].len() > columns_left(effective, hang, j)
        }),
{
    let n = words.len() as int;
    let starts = line_starts(words, effective, hang);
    if j + 1 < starts.len() {
        let b = starts[j + 1];
        lemma_plain_starts(words, effective, hang);
        law_lines_partition_words(words, effective, hang);
        lemma_start_bounds(starts, n, j);
        lemma_start_bounds(starts, n, j + 1);
        assert(starts[j] < starts[j + 1]);
        crate::laws::lemma_line_filled(words, n, effective, hang, j);
        let p = packed(words, b, effective, hang);
        assert(p.starts == starts.take(j + 1));
        assert(p.starts.last() == starts[j]);
        lemma_width_is(words, b, effective, hang);
        lemma_plain_opens(words, n, effective, hang, j + 1);
        assert(plain_word(words[b]) && narrow_word(words[b]));
        assert(plain_word(words[b - 1]));
        assert(!takes_word(words, p, b, effective, hang)) by {
            if takes_word(words, p, b, effective, hang) {
                assert(packed(words, b + 1, effective, hang).starts == p.starts);
            }
        }
    }
}

/// Where a word among those of all texts comes from.
pub proof fn lemma_flat_from(texts: Seq<Seq<char>>, n: int, k: int) -> (r: (int, int))
    requires
        0 <= n <= texts.len(),
        0 <= k < flat_words(texts, n).len(),
    ensures
        0 <= r.0 < n,
        0 <= r.1 < words_of(texts[r.0]).len(),
        words_of(texts[r.0])[r.1] == flat_words(texts, n)[k],
    decreases n,
{
    let before = flat_words(texts, n - 1);
    if k < before.len() {
        lemma_flat_from(texts, n - 1, k)
    } else {
        (n - 1, k - before.len())
    }
}

/// All words of the comment's lines are narrow, and each fits behind the prefix.
pub open spec fn words_fit(
    c: CommentText,
    prefix: Seq<char>,
    lang: Language,
    limit: usize,
    tab_width: usize,
) -> bool {
    let lines = c.body(kind_of(c.text, lang), limit);
    &&& columns(prefix, tab_width as nat) <= limit
    &&& forall|i: int, j: int|
        0 <= i < lines.len() && 0 <= j < words_of(lines[i].text).len() ==> narrow_word(
            #[trigger] words_of(lines[i].text)[j],
        ) && columns(prefix, tab_width as nat) + words_of(lines[i].text)[j].len() <= limit
}

/// The words of a stretch are words of the comment's lines.
pub proof fn lemma_piece_word(
    c: CommentText,
    lang: Language,
    limit: usize,
    tab_width: usize,
    i: int,
    j: int,
)
    requires
        is_plain_prose(c, lang, limit),
        0 <= i < doc_stretches(first_doc(c, lang, limit), limit, tab_width).len(),
        0 <= j < words_of(
            doc_stretches(first_doc(c, lang, limit), limit, tab_width)[i].piece,
        ).len(),
        words_fit(c, first_doc(c, lang, limit).prefix(), lang, limit, tab_width),
    ensures
        ({
            let doc = first_doc(c, lang, limit);
            let w = words_of(doc_stretches(doc, limit, tab_width)[i].piece)[j];
            narrow_word(w) && columns(doc.prefix(), tab_width as nat) + w.len() <= limit
        }),
{
    let doc = first_doc(c, lang, limit);
    let st = doc_stretches(doc, limit, tab_width);
    let lines = c.body(kind_of(c.text, lang), limit);
    lemma_plain_doc(c, lang, limit);
    crate::comment_words::lemma_text_words(c, lang, limit, tab_width);
    let pieces = stretch_pieces(st, st.len() as int);
    let texts = texts_from(lines, 0);
    assert(pieces[i] == st[i].piece);
    let k = lemma_word_among(pieces, pieces.len() as int, i, j);
    let (a, b) = lemma_flat_from(texts, texts.len() as int, k);
    assert(texts[a] == lines[a].text);
    assert(narrow_word(words_of(lines[a].text)[b]));
}

/// A line of narrow words holds narrow characters alone.
proof fn lemma_narrow_line(words: Seq<Seq<char>>, a: int, b: int)
    requires
        0 <= a <= b <= words.len(),
        narrow(' '),
        forall|i: int| a <= i < b ==> narrow_word(#[trigger] words[i]),
    ensures
        forall|i: int|
            0 <= i < line_text(words, a, b).len() ==> narrow(#[trigger] line_text(words, a, b)[i]),
    decreases b - a,
{
    reveal_strlit(" ");
    let part = words.subrange(a, b);
    let s = line_text(words, a, b);
    if part.len() == 1 {
        assert(s == words[a]);
        assert(narrow_word(words[a]));
    } else if part.len() > 1 {
        lemma_narrow_line(words, a, b - 1);
        let front = words.subrange(a, b - 1);
        assert(part.drop_last() =~= front);
        let h = joined(front, " "@);
        assert(s == h + " "@ + words[b - 1]);
        assert(narrow_word(words[b - 1]));
        assert forall|i: int| 0 <= i < s.len() implies narrow(#[trigger] s[i]) by {
            if i < h.len() {
                assert(s[i] == h[i]);
                assert(narrow(line_text(words, a, b - 1)[i]));
            } else if i > h.len() {
                assert(s[i] == words[b - 1][i - h.len() - 1]);
            }
        }
    }
}

/// Every line of a plain comment fits behind its prefix.
proof fn lemma_body_fits(c: CommentText, lang: Language, limit: usize, tab_width: usize, k: int)
    requires
        is_plain_prose(c, lang, limit),
        narrow(' '),
        words_fit(c, first_doc(c, lang, limit).prefix(), lang, limit, tab_width),
        0 <= k < doc_lines(first_doc(c, lang, limit), limit, tab_width).len(),
    ensures
        ({
            let doc = first_doc(c, lang, limit);
            let row = doc_lines(doc, limit, tab_width)[k];
            let p = doc.prefix();
            &&& columns(row, tab_width as nat) <= limit
            &&& row == bare_prefix(p) || exists|own: Seq<char>|
                row == #[trigger] (p + own) && own.len() > 0 && !is_white(own[0]) && !is_white(
                    own.last(),
                ) && columns(p, tab_width as nat) + own.len() <= limit && forall|i: int|
                    0 <= i < own.len() ==> narrow(#[trigger] own[i])
        }),
{
    let doc = first_doc(c, lang, limit);
    let st = doc_stretches(doc, limit, tab_width);
    let prefix = doc.prefix();
    let body = doc_lines(doc, limit, tab_width);
    let t = tab_width as nat;
    lemma_plain_stretches(c, lang, limit, tab_width);
    if body[k] == bare_prefix(prefix) {
        lemma_bare_fits(prefix, t);
    } else {
        let (i, j) = lemma_line_of(st, st.len() as int, k, prefix);
        let s = st[i];
        let effective = doc_room(doc, limit, tab_width);
        assert(sound_stretch(s, doc.style));
        assert(s.kind == ParagraphKind::Prose);
        lemma_stretch_of(doc, limit, tab_width, i);
        let words = words_of(s.piece);
        lemma_plain_hang(s.piece, effective, doc.flavor);
        let (a, b) = lemma_plain_own(doc, s, effective, j);
        let own = line_text(words, a, b);
        lemma_words_are_words(s.piece);
        assert forall|x: int| 0 <= x < words.len() implies plain_word(#[trigger] words[x])
            && narrow_word(words[x]) && columns(prefix, t) + words[x].len() <= limit by {
            lemma_piece_word(c, lang, limit, tab_width, i, x);
        }
        lemma_own_fits(words, effective as nat, j, a, b);
        lemma_narrow_line(words, a, b);
        lemma_columns_of(prefix, own, t);
        assert(effective == limit - columns(prefix, t));
        if b - a == 1 {
            assert(words.subrange(a, b) =~= seq![words[a]]);
            assert(own == words[a]);
            assert(columns(prefix, t) + words[a].len() <= limit);
        }
        assert(body[k] == prefix + own);
    }
}

/// The bare prefix is no wider than the prefix.
proof fn lemma_bare_fits(prefix: Seq<char>, t: nat)
    requires
        narrow(' '),
    ensures
        columns(bare_prefix(prefix), t) <= columns(prefix, t),
{
    let bare = bare_prefix(prefix);
    lemma_trail_len_facts(prefix, CharClass::One(' '));
    let tail = prefix.skip(bare.len() as int);
    assert(prefix =~= bare + tail);
    assert forall|i: int| 0 <= i < tail.len() implies narrow(#[trigger] tail[i]) by {
        assert(tail[i] == prefix[bare.len() + i]);
        assert(in_class(prefix[bare.len() + i], CharClass::One(' ')));
    }
    lemma_columns_of(bare, tail, t);
}

/// A line of several words fits its room.
proof fn lemma_own_fits(words: Seq<Seq<char>>, effective: nat, j: int, a: int, b: int)
    requires
        words.len() > 0,
        all_words(words),
        forall|i: int| 0 <= i < words.len() ==> plain_word(#[trigger] words[i]) && narrow_word(
            words[i],
        ),
        0 <= j < line_starts(words, effective, 0).len(),
        a == line_starts(words, effective, 0)[j],
        b == line_end(words, line_starts(words, effective, 0), j),
    ensures
        b - a >= 2 ==> line_text(words, a, b).len() <= effective,
{
    law_plain_words_fill_their_lines(words, effective, j);
}

/// Every line of the text fits.
pub open spec fn rows_fit(text: Seq<char>, limit: usize, tab_width: usize) -> bool {
    forall|k: int|
        0 <= k < source_lines(text).len() ==> columns(
            (#[trigger] source_lines(text)[k]).body,
            tab_width as nat,
        ) <= limit
}

/// Plain text is no banner.
pub proof fn lemma_no_half_banner(s: Seq<char>)
    requires
        plain_text(s),
    ensures
        !half_banner(s),
{
    let t = trimmed(s);
    crate::words::lemma_words_trimmed(s);
    crate::spacing_laws::lemma_trimmed_opens(s);
    if crate::textline::rule_leads(t) {
        let n = lead_len(t, CharClass::Rule) as int;
        lemma_lead_len_facts(t, CharClass::Rule);
        let a = t.take(n);
        let b = t.skip(n + 1);
        assert(t =~= a + seq![t[n]] + b);
        crate::words::lemma_words_apart(a, t[n], b);
        assert forall|i: int| 0 <= i < a.len() implies in_class(#[trigger] a[i], CharClass::Rule) by {
            assert(a[i] == t[i]);
        }
        lemma_one_word(a);
        assert(words_of(t)[0] == a);
        assert(plain_word(words_of(s)[0]));
    }
    if crate::textline::rule_trails(t) {
        let n = trail_len(t, CharClass::Rule) as int;
        lemma_trail_len_facts(t, CharClass::Rule);
        let k = t.len() - n - 1;
        let a = t.take(k);
        let b = t.skip(k + 1);
        assert(t =~= a + seq![t[k]] + b);
        crate::words::lemma_words_apart(a, t[k], b);
        assert forall|i: int| 0 <= i < b.len() implies in_class(#[trigger] b[i], CharClass::Rule) by {
            assert(b[i] == t[k + 1 + i]);
        }
        lemma_one_word(b);
        let m = words_of(a).len() as int;
        assert(words_of(t)[m] == b);
        assert(plain_word(words_of(s)[m]));
    }
}

/// A run of rule characters is one word.
proof fn lemma_one_word(w: Seq<char>)
    requires
        w.len() > 0,
        all_in(w, CharClass::Rule),
    ensures
        words_of(w) == seq![w],
{
    let ws = seq![w];
    assert(is_word(w)) by {
        assert forall|i: int| 0 <= i < w.len() implies in_class(#[trigger] w[i], CharClass::Solid) by {
            assert(in_class(w[i], CharClass::Rule));
        }
    }
    assert(all_words(ws));
    assert(joined(ws, " "@) == w);
    crate::words::lemma_words_joined(ws);
}

/// Without tabs the tab width does not matter.
proof fn lemma_no_tabs(s: Seq<char>, a: nat, b: nat)
    requires
        forall|i: int| 0 <= i < s.len() ==> #[trigger] s[i] != '\t',
    ensures
        columns(s, a) == columns(s, b),
    decreases s.len(),
{
    if s.len() > 0 {
        let front = s.drop_last();
        assert forall|i: int| 0 <= i < front.len() implies #[trigger] front[i] != '\t' by {
            assert(front[i] == s[i]);
        }
        lemma_no_tabs(front, a, b);
        assert(s[s.len() - 1] != '\t');
    }
}

/// Indentation in front of joined rows goes in front of the first.
proof fn lemma_joined_indent(indent: Seq<char>, rows: Seq<Seq<char>>, sep: Seq<char>)
    requires
        rows.len() > 0,
    ensures
        indent + joined(rows, sep) == joined(rows.update(0, indent + rows[0]), sep),
    decreases rows.len(),
{
    let more = rows.update(0, indent + rows[0]);
    if rows.len() == 1 {
        assert(joined(rows, sep) == rows[0]);
        assert(joined(more, sep) == more[0]);
    } else {
        let front = rows.drop_last();
        lemma_joined_indent(indent, front, sep);
        assert(more.drop_last() =~= front.update(0, indent + front[0]));
        assert(more.last() == rows.last());
        assert(indent + joined(rows, sep) =~= joined(more, sep));
    }
}

/// The comment stands behind whole lines and its indentation, on lines of its own, is
/// nobody else's and does not move. Only its indentation may hold tabs, and these are as
/// wide as the estimate for short comments takes them to be.
pub open spec fn stands_alone_at(
    h: Seq<char>,
    c: CommentText,
    rest: Seq<char>,
    tab_width: usize,
) -> bool {
    let indent = c.line_indent_bytes;
    &&& h.len() > 0 ==> h.last() == '\n'
    &&& all_in(indent, CharClass::Blank)
    &&& c.start_byte == encode_utf8(h + indent).len()
    &&& c.end_byte == encode_utf8(h + indent + c.text).len()
    &&& !c.is_trailing
    &&& !c.force_passthrough
    &&& c.param_shift is None
    &&& c.relocate_before is None
    &&& is_break(final_break(c.text))
    &&& forall|i: int| 0 <= i < c.text.len() ==> #[trigger] c.text[i] != '\t'
    &&& tab_width == 8 || forall|i: int| 0 <= i < indent.len() ==> #[trigger] indent[i] != '\t'
}

/// A text and the line break it ends in.
proof fn lemma_break_apart(text: Seq<char>) -> (body: Seq<char>)
    requires
        is_break(final_break(text)),
    ensures
        text == body + final_break(text),
        body.len() > 0 ==> body.last() != '\n' && body.last() != '\r',
{
    let k = CharClass::Two('\r', '\n');
    lemma_trail_len_facts(text, k);
    let n = trail_len(text, k) as int;
    let body = text.take(text.len() - n);
    assert(text =~= body + final_break(text));
    if body.len() > 0 {
        assert(!in_class(text[text.len() - n - 1], k));
        assert(body.last() == text[text.len() - n - 1]);
    }
    body
}

/// A comment of plain prose that is left alone fits.
#[verifier::spinoff_prover]
#[verifier::rlimit(40)]
proof fn lemma_left_fits(
    h: Seq<char>,
    c: CommentText,
    rest: Seq<char>,
    lang: Language,
    limit: usize,
    tab_width: usize,
)
    requires
        stands_alone_at(h, c, rest, tab_width),
        is_plain_prose(c, lang, limit),
        limit < usize::MAX,
        c.left_alone(kind_of(c.text, lang), lang, limit),
    ensures
        rows_fit(c.line_indent_bytes + c.text, limit, tab_width),
{
    let kind = kind_of(c.text, lang);
    let lines = c.body(kind, limit);
    let indent = c.line_indent_bytes;
    let brk = final_break(c.text);
    let body = lemma_break_apart(c.text);
    assert(body.len() > 0) by {
        if body.len() == 0 {
            lemma_no_text(c, lang, limit);
        }
    }
    assert forall|i: int| 0 <= i < body.len() implies #[trigger] body[i] != '\t' by {
        assert(body[i] == c.text[i]);
    }
    assert forall|r: int| 0 <= r < c.plain_lines(kind).len() implies !half_banner(
        (#[trigger] c.plain_lines(kind)[r]).body,
    ) by {
        assert(lines[r].text == c.plain_lines(kind)[r].body);
        lemma_no_half_banner(lines[r].text);
    }
    law_only_lines_that_fit_are_left_alone(c, body, brk, lang, limit);
    let row = indent + body;
    if tab_width != 8 {
        assert forall|i: int| 0 <= i < row.len() implies #[trigger] row[i] != '\t' by {
            if i < indent.len() {
                assert(row[i] == indent[i]);
            } else {
                assert(row[i] == body[i - indent.len()]);
            }
        }
        lemma_no_tabs(row, 8, tab_width as nat);
    }
    assert(unbroken(row)) by {
        assert forall|i: int| 0 <= i < row.len() implies in_class(
            #[trigger] row[i],
            CharClass::NotOne('\n'),
        ) by {
            if i < indent.len() {
                assert(in_class(indent[i], CharClass::Blank));
            } else {
                assert(row[i] == body[i - indent.len()]);
                assert(body.contains(body[i - indent.len()]));
            }
        }
        assert(row.last() == body.last());
    }
    let rows = seq![row];
    lemma_ended_lines(rows, false, brk);
    assert(joined(rows, eol_of(false)) == row);
    assert(indent + c.text =~= row + brk);
    assert forall|k: int| 0 <= k < source_lines(indent + c.text).len() implies columns(
        (#[trigger] source_lines(indent + c.text)[k]).body,
        tab_width as nat,
    ) <= limit by {
        assert(source_lines(indent + c.text)[k].body == rows[k]);
    }
}

/// A comment of plain prose is more than a line break.
proof fn lemma_no_text(c: CommentText, lang: Language, limit: usize)
    requires
        is_plain_prose(c, lang, limit),
    ensures
        final_break(c.text) != c.text,
{
    if final_break(c.text) == c.text {
        let k = CharClass::Two('\r', '\n');
        lemma_trail_len_facts(c.text, k);
        assert(trail_len(c.text, k) == c.text.len());
        if is_block(style_of(c.text)) {
            crate::final_form::lemma_opener_style(c.text);
            let m = block_marker_of(c.text)->0;
            reveal_strlit("/*");
            reveal_strlit("/**");
            reveal_strlit("/*!");
            if has_prefix(c.text, "/*"@) {
                assert(c.text.subrange(0, 2)[0] == c.text[0]);
            } else {
                assert(c.text.subrange(0, 3)[0] == c.text[0]);
            }
            assert(in_class(c.text[0], k));
        } else {
            reveal_strlit("//");
            reveal_strlit("///");
            reveal_strlit("//!");
            reveal_strlit("#!");
            if has_prefix(c.text, "///"@) || has_prefix(c.text, "//!"@) {
                assert(c.text.subrange(0, 3)[0] == c.text[0]);
            } else if has_prefix(c.text, "//"@) || has_prefix(c.text, "#!"@) {
                assert(c.text.subrange(0, 2)[0] == c.text[0]);
            }
            assert(in_class(c.text[0], k));
        }
    }
}

/// What a plain comment is laid out from.
#[verifier::spinoff_prover]
#[verifier::rlimit(40)]
pub proof fn lemma_plain_forms(c: CommentText, lang: Language, limit: usize, tab_width: usize) -> (crlf:
    bool)
    requires
        is_plain_prose(c, lang, limit),
    ensures
        ({
            let none = Seq::<char>::empty();
            let doc = first_doc(c, lang, limit);
            let d = after_first(c, none, lang, limit, tab_width);
            let body = doc_lines(doc, limit, tab_width);
            &&& d.text == emitted(c, lang, limit, tab_width)
            &&& style_of(d.text) == style_of(c.text)
            &&& doc.style == style_of(c.text)
            &&& crate::settling::sound_stretches(doc_stretches(doc, limit, tab_width), doc.style)
            &&& doc_stretches(doc, limit, tab_width)[0].kind == ParagraphKind::Prose
            &&& is_block(doc.style) ==> crate::block_settling::block_emitted(
                doc,
                d,
                block_marker_of(c.text)->0,
                crlf,
                limit,
                tab_width,
            )
            &&& !is_block(doc.style) ==> emitted(c, lang, limit, tab_width) == joined(
                line_comment_lines(doc, body),
                eol_of(crlf),
            )
        }),
{
    let none = Seq::<char>::empty();
    let doc = first_doc(c, lang, limit);
    let st = doc_stretches(doc, limit, tab_width);
    lemma_plain_doc(c, lang, limit);
    lemma_plain_stretches(c, lang, limit, tab_width);
    lemma_plain_ends(doc, limit, tab_width);
    crate::comment_words::lemma_text_comment(c, lang, limit, tab_width);
    lemma_first_facts(c, none, lang, limit, tab_width);
    assert(st[0].kind == ParagraphKind::Prose);
    let crlf = lemma_emitted_forms(c, none, lang, limit, tab_width);
    let d = after_first(c, none, lang, limit, tab_width);
    assert(emitted(c, lang, limit, tab_width) + none =~= emitted(c, lang, limit, tab_width));
    crlf
}

/// Lines with the indentation in front of the first, which stands in the source already.
proof fn lemma_behind_indent(
    doc: DocText,
    marker: Seq<char>,
    body: Seq<Seq<char>>,
    sep: Seq<char>,
)
    requires
        doc.prefix() == doc.indent + marker + " "@,
        body.len() > 0,
        has_prefix(body[0], doc.prefix()),
    ensures
        doc.indent + joined(line_comment_lines(doc, body), sep) == joined(body, sep),
        joined(line_comment_lines(doc, body), sep).len() > 0,
{
    reveal_strlit(" ");
    let indent = doc.indent;
    let rows = line_comment_lines(doc, body);
    let n = indent.len() as int;
    let m = doc.prefix().len() as int;
    assert(body[0].subrange(0, m) == doc.prefix());
    assert(m > n);
    assert(body[0].subrange(0, n) =~= indent) by {
        assert forall|i: int| 0 <= i < n implies body[0][i] == indent[i] by {
            assert(body[0].subrange(0, m)[i] == doc.prefix()[i]);
        }
    }
    assert(rows =~= body.update(0, body[0].skip(n)));
    lemma_joined_indent(indent, rows, sep);
    assert(indent + rows[0] =~= body[0]);
    assert(rows.update(0, indent + rows[0]) =~= body);
    crate::rows::lemma_joined_opens(rows, sep);
    assert(rows[0].len() > 0);
}

/// The text of a plain line comment with its indentation is its body lines.
#[verifier::spinoff_prover]
#[verifier::rlimit(40)]
pub proof fn lemma_line_text_is(c: CommentText, lang: Language, limit: usize, tab_width: usize) -> (crlf:
    bool)
    requires
        is_plain_prose(c, lang, limit),
        !is_block(style_of(c.text)),
        c.relocate_before is None,
    ensures
        ({
            let doc = first_doc(c, lang, limit);
            let body = doc_lines(doc, limit, tab_width);
            let text = emitted(c, lang, limit, tab_width);
            &&& text.len() > 0
            &&& style_of(text) == style_of(c.text)
            &&& body.len() > 0
            &&& body.last().len() > 0
            &&& c.line_indent_bytes + text == joined(body, eol_of(crlf))
            &&& forall|k: int| 0 <= k < body.len() ==> unbroken(#[trigger] body[k])
        }),
{
    reveal_strlit(" ");
    let none = Seq::<char>::empty();
    let doc = first_doc(c, lang, limit);
    let body = doc_lines(doc, limit, tab_width);
    let marker = line_marker_of(c.text)->0;
    lemma_plain_stretches(c, lang, limit, tab_width);
    lemma_first_facts(c, none, lang, limit, tab_width);
    let crlf = lemma_plain_forms(c, lang, limit, tab_width);
    crate::final_form::lemma_plain_marker(c.text);
    lemma_line_prefix(doc, marker);
    crate::settling::lemma_first_line(doc, limit, tab_width);
    lemma_behind_indent(doc, marker, body, eol_of(crlf));
    assert forall|k: int| 0 <= k < body.len() implies unbroken(#[trigger] body[k]) by {
        lemma_lines_unbroken(doc, limit, tab_width, k);
    }
    lemma_last_not_empty(c, lang, limit, tab_width);
    crlf
}

/// The rows of a plain line comment, with the indentation in front of the first.
proof fn lemma_line_rows_fit(
    c: CommentText,
    brk: Seq<char>,
    lang: Language,
    limit: usize,
    tab_width: usize,
)
    requires
        is_plain_prose(c, lang, limit),
        is_break(brk),
        !is_block(style_of(c.text)),
        c.relocate_before is None,
        narrow(' '),
        words_fit(c, first_doc(c, lang, limit).prefix(), lang, limit, tab_width),
    ensures
        rows_fit(
            c.line_indent_bytes + (emitted(c, lang, limit, tab_width) + brk),
            limit,
            tab_width,
        ),
        emitted(c, lang, limit, tab_width).len() > 0,
        style_of(emitted(c, lang, limit, tab_width)) == style_of(c.text),
{
    let indent = c.line_indent_bytes;
    let body = doc_lines(first_doc(c, lang, limit), limit, tab_width);
    let text = emitted(c, lang, limit, tab_width);
    let crlf = lemma_line_text_is(c, lang, limit, tab_width);
    lemma_ended_lines(body, crlf, brk);
    let full = indent + (text + brk);
    assert(full =~= joined(body, eol_of(crlf)) + brk);
    assert forall|k: int| 0 <= k < source_lines(full).len() implies columns(
        (#[trigger] source_lines(full)[k]).body,
        tab_width as nat,
    ) <= limit by {
        assert(source_lines(full)[k].body == body[k]);
        lemma_body_fits(c, lang, limit, tab_width, k);
    }
}

/// The last body line holds something.
proof fn lemma_last_not_empty(c: CommentText, lang: Language, limit: usize, tab_width: usize)
    requires
        is_plain_prose(c, lang, limit),
        plain_stretches(first_doc(c, lang, limit), limit, tab_width),
    ensures
        ({
            let body = doc_lines(first_doc(c, lang, limit), limit, tab_width);
            body.len() > 0 && body.last().len() > 0
        }),
{
    let doc = first_doc(c, lang, limit);
    let st = doc_stretches(doc, limit, tab_width);
    let body = doc_lines(doc, limit, tab_width);
    let i = st.len() - 1;
    let s = st[i];
    assert(sound_stretch(st[i], doc.style));
    assert(s.kind == ParagraphKind::Prose);
    let j = s.lines.len() - 1;
    lemma_stretch_of(doc, limit, tab_width, i);
    let (a, b) = lemma_plain_own(doc, s, doc_room(doc, limit, tab_width), j);
    assert(body.last() == s.lines[j]);
}

/// What a run leaves where the comment stood: the text of the comment, with a blank line
/// ahead of it or without, between what stands in front of it and behind it.
pub open spec fn leaves(
    out: Seq<char>,
    h: Seq<char>,
    gap: Seq<char>,
    indent: Seq<char>,
    text: Seq<char>,
    rest: Seq<char>,
) -> bool {
    out == h + gap + indent + text + rest && (gap.len() == 0 || gap == "\n"@ || gap == "\r\n"@)
}

/// What a run does to a comment that is laid out, in its place.
proof fn lemma_leaves(
    h: Seq<char>,
    c: CommentText,
    rest: Seq<char>,
    prev: Option<CommentText>,
    lang: Language,
    limit: usize,
    tab_width: usize,
) -> (gap: Seq<char>)
    requires
        stands_alone_at(h, c, rest, tab_width),
        !c.left_alone(kind_of(c.text, lang), lang, limit),
        emitted(c, lang, limit, tab_width).len() > 0,
        keeps_style(emitted(c, lang, limit, tab_width), style_of(c.text)),
    ensures
        ({
            let src = h + c.line_indent_bytes + c.text + rest;
            leaves(
                rewritten(src, comment_splices(src, c, prev, lang, limit, tab_width)),
                h,
                gap,
                c.line_indent_bytes,
                emitted(c, lang, limit, tab_width) + final_break(c.text),
                rest,
            )
        }),
{
    reveal(in_place_splices);
    let indent = c.line_indent_bytes;
    let own = c.text;
    let src = h + indent + own + rest;
    let a = h + indent;
    let text = emitted(c, lang, limit, tab_width);
    let full = text + final_break(own);
    let none = Seq::<char>::empty();
    crate::spacing_laws::lemma_in_place(src, c, prev, lang, limit, tab_width);
    lemma_span_middle(a, own, rest);
    lemma_encode_concat(a, own);
    lemma_encode_concat(a + own, rest);
    lemma_span_middle(a + own, rest, none);
    assert(a + own + rest + none =~= src);
    lemma_span_middle(none, a, own + rest);
    assert(none + a + (own + rest) =~= src);
    lemma_span_middle(none, h, indent + own + rest);
    assert(none + h + (indent + own + rest) =~= src);
    lemma_span_middle(h, indent, own + rest);
    assert(h + indent + (own + rest) =~= src);
    assert(encode_utf8(none).len() == 0);
    lemma_encode_concat(h, indent);
    lemma_source_ends(src);
    assert(all_in(indent, CharClass::NotOne('\n'))) by {
        assert forall|i: int| 0 <= i < indent.len() implies in_class(
            #[trigger] indent[i],
            CharClass::NotOne('\n'),
        ) by {
            assert(in_class(indent[i], CharClass::Blank));
        }
    }
    lemma_lines_are(h, indent);
    lemma_line_starts(a, own + rest);
    assert(a + (own + rest) =~= src);
    let at = encode_utf8(h).len() as int;
    let b = encode_utf8(src);
    if needs_blank(src, c, style_of(c.text), text.contains('\n'), prev, lang) {
        let nl = if at >= 2 && b[at - 2] == 13 {
            "\r\n"@
        } else {
            "\n"@
        };
        let e = Splice { start: at, end: c.end_byte, text: nl + indent + full };
        assert(blank_lead(src, c) == nl + indent);
        assert(in_place_splices(src, c, text, prev, lang) =~= seq![e]);
        crate::spacing_laws::lemma_one_splice(src, e);
        assert(h + (nl + indent + full) + rest =~= h + nl + indent + full + rest);
        nl
    } else if full == own {
        assert(in_place_splices(src, c, text, prev, lang) =~= Seq::empty());
        crate::plan_laws::law_no_replacement_no_change(src);
        assert(src =~= h + none + indent + full + rest);
        none
    } else {
        let e = Splice { start: c.start_byte, end: c.end_byte, text: full };
        assert(in_place_splices(src, c, text, prev, lang) =~= seq![e]);
        crate::spacing_laws::lemma_one_splice(src, e);
        assert(a + full + rest =~= h + none + indent + full + rest);
        none
    }
}

/// Line comments of prose fit the column limit after a run, whether they were rewritten or
/// left alone: no line of theirs is wider than the limit, its indentation included, if each
/// of their words fits on a line of its own.
pub proof fn law_line_comments_fit(
    h: Seq<char>,
    c: CommentText,
    rest: Seq<char>,
    prev: Option<CommentText>,
    lang: Language,
    limit: usize,
    tab_width: usize,
)
    requires
        stands_alone_at(h, c, rest, tab_width),
        is_plain_prose(c, lang, limit),
        style_of(c.text) == Style::Line || style_of(c.text) == Style::DocLine,
        narrow(' '),
        words_fit(
            c,
            c.line_indent_bytes + line_marker_of(c.text)->0 + " "@,
            lang,
            limit,
            tab_width,
        ),
        limit < usize::MAX,
    ensures
        ({
            let src = h + c.line_indent_bytes + c.text + rest;
            exists|gap: Seq<char>, text: Seq<char>| #[trigger]
                leaves(
                    rewritten(src, comment_splices(src, c, prev, lang, limit, tab_width)),
                    h,
                    gap,
                    c.line_indent_bytes,
                    text,
                    rest,
                ) && rows_fit(c.line_indent_bytes + text, limit, tab_width)
        }),
{
    let indent = c.line_indent_bytes;
    let src = h + indent + c.text + rest;
    let none = Seq::<char>::empty();
    let out = rewritten(src, comment_splices(src, c, prev, lang, limit, tab_width));
    if c.left_alone(kind_of(c.text, lang), lang, limit) {
        reveal(comment_splices);
        reveal(crate::planner::closer_splices);
        assert(comment_splices(src, c, prev, lang, limit, tab_width) =~= Seq::empty());
        crate::plan_laws::law_no_replacement_no_change(src);
        assert(src =~= h + none + indent + c.text + rest);
        lemma_left_fits(h, c, rest, lang, limit, tab_width);
        assert(leaves(out, h, none, indent, c.text, rest));
    } else {
        let brk = final_break(c.text);
        let doc = first_doc(c, lang, limit);
        lemma_first_facts(c, none, lang, limit, tab_width);
        crate::final_form::lemma_plain_marker(c.text);
        lemma_line_prefix(doc, line_marker_of(c.text)->0);
        lemma_line_rows_fit(c, brk, lang, limit, tab_width);
        let text = emitted(c, lang, limit, tab_width) + brk;
        let gap = lemma_leaves(h, c, rest, prev, lang, limit, tab_width);
        assert(leaves(out, h, gap, indent, text, rest));
    }
}

} // verus!
