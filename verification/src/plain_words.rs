//! Words that read as nothing but text, wherever a line breaks.

use crate::classify::DocFlavor;
use crate::kdoc::{hoists_return, kernel_doc, opens_region, region_start, return_split};
use crate::linekind::{opens_fence, region_after, region_before, Region, StrippedText};
use crate::normalize::{
    paragraph_end, paragraphs_from, return_line, LineKind, LineText, ParagraphKind,
};
use crate::reflow::{hanging_indent, piece_hang};
use crate::text::{
    after_lead, all_in, has_prefix, has_suffix, in_class, is_white, lead_len, lead_run,
    lemma_lead_len, lemma_lead_len_facts, lemma_trail_len_facts, lemma_words_step, trimmed,
    trimmed_start, words_of, CharClass,
};
use crate::textline::{
    is_bookend, past_blanks, return_boundary, return_groups, return_pieces, return_token,
    rule_leads,
};
use crate::words::{lemma_words_apart, lemma_words_trimmed};
use crate::wrap::{packed, tag_start};
use vstd::prelude::*;

verus! {

/// A word that is plain text wherever it stands: it is not drawn with rules, opens
/// no tag, no `Return` sentence and no fence, and closes no block.
pub open spec fn plain_word(w: Seq<char>) -> bool {
    &&& w.len() > 0
    &&& !all_in(w, CharClass::Rule)
    &&& !in_class(w[0], CharClass::Two('@', '\\'))
    &&& !has_prefix(w, "Return"@)
    &&& !has_prefix(w, "```"@)
    &&& !has_prefix(w, "~~~"@)
    &&& !has_suffix(w, "*/"@)
}

/// All words of the text are plain.
pub open spec fn plain_text(s: Seq<char>) -> bool {
    forall|i: int| 0 <= i < words_of(s).len() ==> plain_word(#[trigger] words_of(s)[i])
}

/// Words of lower-case letters are plain.
pub proof fn law_lower_case_is_plain(w: Seq<char>)
    requires
        w.len() > 0,
        forall|i: int| 0 <= i < w.len() ==> 'a' <= #[trigger] w[i] <= 'z',
    ensures
        plain_word(w),
{
    reveal_strlit("Return");
    reveal_strlit("```");
    reveal_strlit("~~~");
    reveal_strlit("*/");
    assert('a' <= w[0] <= 'z');
    assert(!in_class(w[0], CharClass::Rule));
    assert(has_prefix(w, "Return"@) ==> w.subrange(0, 6)[0] == 'R');
    assert(has_prefix(w, "```"@) ==> w.subrange(0, 3)[0] == '`');
    assert(has_prefix(w, "~~~"@) ==> w.subrange(0, 3)[0] == '~');
    if has_suffix(w, "*/"@) {
        assert(w.subrange(w.len() - 2, w.len() as int)[1] == '/');
        assert('a' <= w[w.len() - 1] <= 'z');
    }
}

/// The first word of a text is what it starts with.
pub proof fn lemma_first_word(s: Seq<char>)
    requires
        words_of(s).len() > 0,
    ensures
        trimmed_start(s).len() > 0,
        !is_white(trimmed_start(s)[0]),
        words_of(s)[0] == lead_run(trimmed_start(s), CharClass::Solid),
        words_of(s)[0].len() > 0,
        words_of(s)[0][0] == trimmed_start(s)[0],
{
    lemma_words_step(s);
    lemma_lead_len_facts(s, CharClass::White);
    lemma_lead_len_facts(trimmed_start(s), CharClass::Solid);
}

/// What a text without white space in it starts with, its first word does.
pub proof fn lemma_word_prefix(t: Seq<char>, p: Seq<char>)
    requires
        has_prefix(t, p),
        forall|i: int| 0 <= i < p.len() ==> !is_white(#[trigger] p[i]),
    ensures
        has_prefix(lead_run(t, CharClass::Solid), p),
{
    let n = lead_len(t, CharClass::Solid) as int;
    lemma_lead_len_facts(t, CharClass::Solid);
    assert(t.subrange(0, p.len() as int) == p);
    if n < p.len() {
        assert(t.subrange(0, p.len() as int)[n] == p[n]);
        assert(!is_white(p[n]));
    }
    assert(lead_run(t, CharClass::Solid).subrange(0, p.len() as int) =~= p);
}

/// A text that starts with a plain word is no decoration.
pub proof fn lemma_plain_no_bookend(s: Seq<char>)
    requires
        words_of(s).len() > 0,
        plain_word(words_of(s)[0]),
    ensures
        !is_bookend(s),
{
    lemma_first_word(s);
    lemma_words_trimmed(s);
    let t = trimmed(s);
    let w = words_of(s)[0];
    lemma_lead_len_facts(trimmed_start(s), CharClass::Solid);
    lemma_trail_len_facts(trimmed_start(s), CharClass::White);
    crate::pieces::lemma_has_words(s);
    assert(t[0] == trimmed_start(s)[0]);
    lemma_lead_len_facts(t, CharClass::White);
    lemma_lead_len(t, CharClass::White, 0);
    assert(trimmed_start(t) =~= t);
    lemma_first_word(t);
    assert(w == lead_run(t, CharClass::Solid));
    let m = lead_len(t, CharClass::Solid) as int;
    lemma_lead_len_facts(t, CharClass::Solid);
    assert(w =~= t.take(m));
    let k = choose|k: int| 0 <= k < w.len() && !in_class(#[trigger] w[k], CharClass::Rule);
    assert(t[k] == w[k]);
    if rule_leads(t) {
        let n = lead_len(t, CharClass::Rule) as int;
        lemma_lead_len_facts(t, CharClass::Rule);
        if n > k {
            assert(in_class(t[k], CharClass::Rule));
        }
        assert(in_class(t[n], CharClass::Solid));
    }
}

/// A plain text opens no fence and no verbatim region.
pub proof fn lemma_plain_region(s: Seq<char>)
    requires
        plain_text(s),
    ensures
        region_after(Region::Text, s) == Region::Text,
{
    reveal_strlit("```");
    reveal_strlit("~~~");
    let t = trimmed_start(s);
    lemma_lead_len_facts(s, CharClass::White);
    if words_of(s).len() > 0 {
        lemma_first_word(s);
        assert(plain_word(words_of(s)[0]));
    } else {
        crate::pieces::lemma_has_words(s);
        lemma_words_step(s);
        if t.len() > 0 {
            lemma_lead_len_facts(t, CharClass::Solid);
            assert(!is_white(t[0]));
        }
    }
    if opens_fence(s) {
        let u = after_lead(s, CharClass::Blank);
        let n = lead_len(s, CharClass::Blank) as int;
        lemma_lead_len_facts(s, CharClass::Blank);
        assert(u[0] == s[n]);
        assert forall|i: int| 0 <= i < n implies in_class(#[trigger] s[i], CharClass::White) by {
            assert(in_class(s[i], CharClass::Blank));
        }
        lemma_lead_len(s, CharClass::White, n);
        assert(t == u);
        let c = u[0];
        let run = lead_len(u, CharClass::One(c)) as int;
        lemma_lead_len_facts(u, CharClass::One(c));
        let p = if c == '`' {
            "```"@
        } else {
            "~~~"@
        };
        assert forall|i: int| 0 <= i < 3 implies u[i] == #[trigger] p[i] by {
            assert(in_class(u[i], CharClass::One(c)));
        }
        assert(u.subrange(0, 3) =~= p);
        lemma_word_prefix(u, p);
    }
}

/// Where plain text opens a `Return` sentence: nowhere.
proof fn lemma_no_return_at(s: Seq<char>, i: int)
    requires
        plain_text(s),
        0 <= i < s.len(),
    ensures
        !return_boundary(s, i),
{
    if return_boundary(s, i) {
        let j = past_blanks(s, i + 1);
        let rest = s.skip(i + 1);
        lemma_lead_len_facts(rest, CharClass::Blank);
        assert(in_class(rest[j - i - 2], CharClass::Blank));
        let a = s.take(j - 1);
        let b = s.skip(j);
        assert(s =~= a + seq![s[j - 1]] + b);
        lemma_words_apart(a, s[j - 1], b);
        lemma_no_return_start(b);
        if words_of(b).len() > 0 {
            assert(words_of(s)[words_of(a).len() as int] == words_of(b)[0]);
            assert(plain_word(words_of(b)[0]));
        }
    }
}

/// A text that starts with a `Return` keyword has a word that does.
proof fn lemma_no_return_start(b: Seq<char>)
    requires
        return_token(b),
    ensures
        words_of(b).len() > 0,
        !plain_word(words_of(b)[0]),
{
    reveal_strlit("Return");
    assert(b.len() > 0 && !is_white(b[0])) by {
        if has_prefix(b, "Return"@) {
            assert(b.subrange(0, 6)[0] == 'R');
        }
    }
    lemma_lead_len(b, CharClass::White, 0);
    assert(trimmed_start(b) =~= b);
    lemma_lead_len_facts(b, CharClass::Solid);
    lemma_words_step(b);
    lemma_first_word(b);
    if has_prefix(b, "Return"@) {
        lemma_word_prefix(b, "Return"@);
    }
}

proof fn lemma_groups_whole(s: Seq<char>, i: int)
    requires
        plain_text(s),
        0 <= i <= s.len(),
    ensures
        return_groups(s, 0, i) == if trimmed(s).len() > 0 {
            seq![trimmed(s)]
        } else {
            Seq::empty()
        },
    decreases s.len() - i,
{
    if i < s.len() {
        lemma_no_return_at(s, i);
        lemma_groups_whole(s, i + 1);
    } else {
        assert(s.skip(0) =~= s);
    }
}

/// Plain text is one piece.
pub proof fn lemma_plain_piece(s: Seq<char>)
    requires
        plain_text(s),
    ensures
        return_pieces(s).len() == 1,
        trimmed(s).len() > 0 ==> return_pieces(s) == seq![trimmed(s)],
{
    lemma_groups_whole(s, 0);
}

/// A plain line opens no `Return` sentence.
pub proof fn lemma_plain_line(l: LineText)
    requires
        plain_text(l.text),
    ensures
        !return_line(l),
        !opens_region(l),
        !hoists_return(return_pieces(l.text)),
{
    reveal_strlit("Return");
    reveal_strlit("Returns");
    lemma_plain_piece(l.text);
    let t = trimmed_start(l.text);
    if words_of(l.text).len() > 0 {
        lemma_first_word(l.text);
        assert(plain_word(words_of(l.text)[0]));
    }
    if return_line(l) {
        assert(has_prefix(t, "Return"@)) by {
            if has_prefix(t, "Returns"@) {
                assert(t.subrange(0, 7) == "Returns"@);
                assert forall|i: int| 0 <= i < 6 implies t[i] == #[trigger] "Return"@[i] by {
                    assert(t.subrange(0, 7)[i] == t[i]);
                }
                assert(t.subrange(0, 6) =~= "Return"@);
            }
        }
        assert(t.subrange(0, 6)[0] == 'R');
        lemma_lead_len_facts(l.text, CharClass::White);
        lemma_words_step(l.text);
        lemma_lead_len_facts(t, CharClass::Solid);
        lemma_word_prefix(t, "Return"@);
    }
}

/// Plain lines stay as they are.
pub proof fn lemma_plain_final(lines: Seq<LineText>)
    requires
        forall|r: int| 0 <= r < lines.len() ==> plain_text((#[trigger] lines[r]).text),
    ensures
        kernel_doc(return_split(lines, lines.len() as int)) == lines,
{
    lemma_plain_split(lines, lines.len() as int);
    assert(lines.take(lines.len() as int) =~= lines);
    lemma_plain_no_region(lines, 0);
}

proof fn lemma_plain_split(lines: Seq<LineText>, n: int)
    requires
        0 <= n <= lines.len(),
        forall|r: int| 0 <= r < lines.len() ==> plain_text((#[trigger] lines[r]).text),
    ensures
        return_split(lines, n) == lines.take(n),
    decreases n,
{
    if n > 0 {
        lemma_plain_split(lines, n - 1);
        assert(plain_text(lines[n - 1].text));
        lemma_plain_line(lines[n - 1]);
        assert(lines.take(n - 1) + seq![lines[n - 1]] =~= lines.take(n));
    } else {
        assert(lines.take(0) =~= Seq::empty());
    }
}

proof fn lemma_plain_no_region(lines: Seq<LineText>, i: int)
    requires
        0 <= i <= lines.len(),
        forall|r: int| 0 <= r < lines.len() ==> plain_text((#[trigger] lines[r]).text),
    ensures
        region_start(lines, i) == lines.len(),
    decreases lines.len() - i,
{
    if i < lines.len() {
        assert(plain_text(lines[i].text));
        lemma_plain_line(lines[i]);
        lemma_plain_no_region(lines, i + 1);
    }
}

/// Among plain lines no region is open.
pub proof fn lemma_plain_before(plain: Seq<StrippedText>, r: int)
    requires
        0 <= r <= plain.len(),
        forall|i: int| 0 <= i < plain.len() ==> plain_text((#[trigger] plain[i]).body),
    ensures
        region_before(plain, r) == Region::Text,
    decreases r,
{
    if r > 0 {
        lemma_plain_before(plain, r - 1);
        assert(plain_text(plain[r - 1].body));
        lemma_plain_region(plain[r - 1].body);
    }
}

/// Plain text does not hang.
pub proof fn lemma_plain_hang(s: Seq<char>, effective: usize, flavor: DocFlavor)
    requires
        plain_text(s),
    ensures
        piece_hang(s, effective, flavor) == 0,
{
    let t = trimmed_start(s);
    lemma_lead_len_facts(s, CharClass::White);
    if words_of(s).len() > 0 {
        lemma_first_word(s);
        assert(plain_word(words_of(s)[0]));
    } else {
        lemma_words_step(s);
        lemma_lead_len_facts(t, CharClass::Solid);
    }
    assert(hanging_indent(s, effective as nat, flavor) == 0);
}

/// Every line of plain words opens with the word that was packed there.
pub proof fn lemma_plain_opens(
    words: Seq<Seq<char>>,
    n: int,
    effective: nat,
    hang: nat,
    j: int,
)
    requires
        1 <= n <= words.len(),
        forall|i: int| 0 <= i < words.len() ==> plain_word(#[trigger] words[i]),
        0 < j < packed(words, n, effective, hang).starts.len(),
    ensures
        ({
            let s = packed(words, n, effective, hang).starts[j];
            0 < s < n && packed(words, s + 1, effective, hang).starts.last() == s
        }),
    decreases n,
{
    let p = packed(words, n - 1, effective, hang);
    assert(n > 1);
    assert(plain_word(words[n - 1]));
    assert(!tag_start(words[n - 1]));
    if j < p.starts.len() {
        lemma_plain_opens(words, n - 1, effective, hang, j);
    }
}

/// Lines of prose and blank lines make paragraphs with blank lines between them.
pub proof fn lemma_set_apart(lines: Seq<LineText>, i: int, blank: bool, p: int)
    requires
        0 <= i <= lines.len(),
        forall|k: int|
            0 <= k < lines.len() ==> ((#[trigger] lines[k]).kind == LineKind::Prose || lines[k].kind
                == LineKind::Blank) && plain_text(lines[k].text),
        0 <= p < paragraphs_from(lines, i, blank).len(),
        p > 0 || blank || (i < lines.len() && lines[i].kind == LineKind::Blank),
    ensures
        paragraphs_from(lines, i, blank)[p].preceded_by_blank,
    decreases lines.len() - i,
{
    if lines[i].kind == LineKind::Blank {
        lemma_set_apart(lines, i + 1, true, p);
    } else if p > 0 {
        assert(lines[i].kind == LineKind::Prose);
        let end = paragraph_end(lines, i + 1, ParagraphKind::Prose);
        crate::normalize::lemma_paragraph_end(lines, i + 1, ParagraphKind::Prose);
        lemma_end_blank(lines, i + 1);
        let rest = paragraphs_from(lines, end, false);
        assert(paragraphs_from(lines, i, blank)[p] == rest[p - 1]);
        lemma_set_apart(lines, end, false, p - 1);
    }
}

proof fn lemma_end_blank(lines: Seq<LineText>, i: int)
    requires
        0 <= i <= lines.len(),
        forall|k: int|
            0 <= k < lines.len() ==> ((#[trigger] lines[k]).kind == LineKind::Prose || lines[k].kind
                == LineKind::Blank) && plain_text(lines[k].text),
    ensures
        ({
            let end = paragraph_end(lines, i, ParagraphKind::Prose);
            end < lines.len() ==> lines[end].kind == LineKind::Blank
        }),
    decreases lines.len() - i,
{
    if i < lines.len() {
        lemma_plain_line(lines[i]);
        if lines[i].kind == LineKind::Prose {
            lemma_end_blank(lines, i + 1);
        }
    }
}

} // verus!
