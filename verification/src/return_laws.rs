//! Sentences on what a function gives back stand apart.

use crate::kdoc::{hoists_return, opens_with_return_tag, return_lines, word_tag, KTag};
use crate::linekind::LineKind;
use crate::normalize::LineText;
use crate::text::{
    any_in, in_class, is_white, is_word_char, lemma_lead_len, trimmed, words_of, CharClass,
};
use crate::textline::{
    enclosed, nesting, ordinal_dot, past_blanks, return_boundary, return_groups, return_pieces,
    return_token, Nesting,
};
use crate::words::is_word;
use vstd::prelude::*;

verus! {

/// No sentence ends in the text.
pub open spec fn ends_no_sentence(s: Seq<char>) -> bool {
    forall|k: int| 0 <= k < s.len() ==> #[trigger] s[k] != '.' && s[k] != '!' && s[k] != '?'
}

/// The text holds no bracket, quotation mark or backslash.
pub open spec fn has_no_brackets(s: Seq<char>) -> bool {
    forall|k: int|
        0 <= k < s.len() ==> {
            let c = #[trigger] s[k];
            &&& c != '(' && c != '[' && c != '{' && c != ')' && c != ']' && c != '}'
            &&& c != '"' && c != '\\'
        }
}

/// The words that open a sentence on what a function gives back.
pub open spec fn says_return(w: Seq<char>) -> bool {
    ||| w == "Return"@ || w == "Returns"@
    ||| w == "@return"@ || w == "@returns"@
    ||| w == "\\return"@ || w == "\\returns"@
}

proof fn lemma_flat(s: Seq<char>)
    requires
        has_no_brackets(s),
    ensures
        nesting(s) == (Nesting { depth: 0, quoted: false, escaped: false }),
    decreases s.len(),
{
    if s.len() > 0 {
        let a = s.drop_last();
        assert forall|k: int| 0 <= k < a.len() implies {
            let c = #[trigger] a[k];
            &&& c != '(' && c != '[' && c != '{' && c != ')' && c != ']' && c != '}'
            &&& c != '"' && c != '\\'
        } by {
            assert(a[k] == s[k]);
        }
        lemma_flat(a);
        let c = s[s.len() - 1];
        assert(c != '"' && c != '\\');
    }
}

/// No cut is made where no sentence ends.
proof fn lemma_no_cut(body: Seq<char>, start: int, i: int, k: int)
    requires
        0 <= i <= k <= body.len(),
        forall|q: int| i <= q < k ==> !return_boundary(body, q),
    ensures
        return_groups(body, start, i) == return_groups(body, start, k),
    decreases k - i,
{
    if i < k {
        assert(!return_boundary(body, i));
        lemma_no_cut(body, start, i + 1, k);
    }
}

proof fn lemma_says_return(w: Seq<char>, rest: Seq<char>)
    requires
        says_return(w),
        rest.len() > 0 ==> !is_word_char(rest[0]),
    ensures
        return_token(w + rest),
        w.len() > 0,
        w[0] == 'R' || w[0] == '@' || w[0] == '\\',
        forall|k: int| 0 <= k < w.len() ==> #[trigger] w[k] != '.' && w[k] != '!' && w[k] != '?',
{
    reveal_strlit("Return");
    reveal_strlit("Returns");
    reveal_strlit("@return");
    reveal_strlit("@returns");
    reveal_strlit("\\return");
    reveal_strlit("\\returns");
    reveal_strlit("return");
    reveal_strlit("returns");
    reveal_strlit("s");
    let s = w + rest;
    let n = w.len() as int;
    assert(s.skip(n) =~= rest);
    if w == "Return"@ || w == "Returns"@ {
        assert(s.subrange(0, 6) =~= "Return"@);
        let more = s.skip(6);
        if w == "Return"@ {
            assert(more =~= rest);
            if crate::text::has_prefix(more, "s"@) {
                assert(more.subrange(0, 1)[0] == rest[0]);
            }
        } else {
            assert(more =~= seq!['s'] + rest);
            assert(more.subrange(0, 1) =~= "s"@);
            assert(more.skip(1) =~= rest);
        }
    } else {
        let u = s.skip(1);
        assert(s[0] == w[0]);
        if crate::text::has_prefix(s, "Return"@) {
            assert(s.subrange(0, 6)[0] == s[0]);
        }
        if n == 7 {
            assert(u =~= "return"@ + rest);
            assert(u.subrange(0, 6) =~= "return"@);
            assert(u.skip(6) =~= rest);
            if crate::text::has_prefix(u, "returns"@) {
                assert(u.subrange(0, 7)[6] == rest[0]);
            }
        } else {
            assert(u =~= "returns"@ + rest);
            assert(u.subrange(0, 7) =~= "returns"@);
            assert(u.skip(7) =~= rest);
        }
    }
}

/// A sentence that says what is given back is cut from the sentence in front of it; behind a
/// number and a dot it is the text of a list item and stays.
#[verifier::spinoff_prover]
#[verifier::rlimit(40)]
pub proof fn law_return_sentences_are_cut_off(
    a: Seq<char>,
    e: char,
    gap: Seq<char>,
    w: Seq<char>,
    rest: Seq<char>,
)
    requires
        a.len() > 0 && !is_white(a[0]),
        ends_no_sentence(a) && ends_no_sentence(rest),
        has_no_brackets(a),
        e == '.' || e == '!' || e == '?',
        gap.len() > 0 && forall|k: int| 0 <= k < gap.len() ==> #[trigger] gap[k] == ' ' || gap[k]
            == '\t',
        says_return(w),
        rest.len() > 0 ==> !is_word_char(rest[0]),
    ensures
        ({
            let body = a + seq![e] + gap + w + rest;
            let numbered = e == '.' && forall|k: int| 0 <= k < a.len() ==> '0' <= #[trigger] a[k]
                <= '9';
            return_pieces(body) == if numbered {
                seq![trimmed(body)]
            } else {
                seq![trimmed(a + seq![e] + gap), trimmed(w + rest)]
            }
        }),
{
    let body = a + seq![e] + gap + w + rest;
    let n = a.len() as int;
    let j = n + 1 + gap.len();
    let tail = w + rest;
    let numbered = e == '.' && forall|k: int| 0 <= k < a.len() ==> '0' <= #[trigger] a[k] <= '9';
    lemma_says_return(w, rest);
    assert(body.skip(j) =~= tail);
    assert(body[n] == e);
    // Where the next sentence starts.
    let behind = body.skip(n + 1);
    assert(behind =~= gap + tail);
    assert forall|k: int| 0 <= k < gap.len() implies in_class(
        #[trigger] behind[k],
        CharClass::Blank,
    ) by {
        assert(behind[k] == gap[k]);
    }
    assert(behind[gap.len() as int] == w[0]);
    lemma_lead_len(behind, CharClass::Blank, gap.len() as int);
    assert(past_blanks(body, n + 1) == j);
    // Nothing encloses the end of the sentence.
    assert(body.take(n) =~= a);
    lemma_flat(a);
    assert(!enclosed(body, n));
    assert(ordinal_dot(body, n) == numbered) by {
        if numbered {
            assert forall|k: int| 0 <= k < a.len() implies in_class(
                #[trigger] a[k],
                CharClass::Digit,
            ) by {}
        }
        if ordinal_dot(body, n) {
            assert forall|k: int| 0 <= k < a.len() implies '0' <= #[trigger] a[k] <= '9' by {
                assert(in_class(a[k], CharClass::Digit));
            }
        }
    }
    assert(return_boundary(body, n) == !numbered);
    // No other cut.
    assert forall|q: int| 0 <= q < body.len() && q != n implies !return_boundary(body, q) by {
        if q < n {
            assert(body[q] == a[q]);
        } else if q < j {
            assert(body[q] == gap[q - n - 1]);
        } else if q < j + w.len() {
            assert(body[q] == w[q - j]);
        } else {
            assert(body[q] == rest[q - j - w.len()]);
        }
    }
    lemma_no_cut(body, 0, 0, n);
    let len = body.len() as int;
    assert(trimmed(body).len() > 0) by {
        assert(body[0] == a[0]);
        crate::pieces::lemma_solid_inside(body, 0);
        crate::pieces::lemma_has_words(body);
    }
    assert(trimmed(tail).len() > 0) by {
        assert(tail[0] == w[0]);
        crate::pieces::lemma_solid_inside(tail, 0);
        crate::pieces::lemma_has_words(tail);
    }
    assert(body.skip(0) =~= body);
    if numbered {
        lemma_no_cut(body, 0, n, len);
        assert(return_groups(body, 0, 0) == seq![trimmed(body)]);
    } else {
        lemma_no_cut(body, j, n + 1, len);
        assert(return_groups(body, j, n + 1) == seq![trimmed(tail)]);
        assert(body.subrange(0, j) =~= a + seq![e] + gap);
        assert(return_groups(body, 0, 0) =~= seq![trimmed(a + seq![e] + gap), trimmed(tail)]);
    }
}

/// Inside brackets that are closed further on, nothing is cut.
pub proof fn law_brackets_hold_sentences_together(p: Seq<char>, open: char, q: Seq<char>, pos: int, rest: Seq<char>)
    requires
        has_no_brackets(p) && has_no_brackets(q),
        open == '(' || open == '[' || open == '{',
        pos == p.len() + 1 + q.len(),
        any_in(rest, CharClass::Three(')', ']', '}')),
    ensures
        enclosed(p + seq![open] + q + rest, pos),
        !return_boundary(p + seq![open] + q + rest, pos),
{
    let body = p + seq![open] + q + rest;
    assert(body.take(pos) =~= p + seq![open] + q);
    assert(body.skip(pos) =~= rest);
    lemma_flat(p);
    lemma_open(p, open, q);
}

proof fn lemma_open(p: Seq<char>, open: char, q: Seq<char>)
    requires
        has_no_brackets(p) && has_no_brackets(q),
        open == '(' || open == '[' || open == '{',
    ensures
        nesting(p + seq![open] + q) == (Nesting { depth: 1, quoted: false, escaped: false }),
    decreases q.len(),
{
    let s = p + seq![open] + q;
    if q.len() == 0 {
        assert(s.drop_last() =~= p);
        lemma_flat(p);
    } else {
        let r = q.drop_last();
        assert(has_no_brackets(r)) by {
            assert forall|k: int| 0 <= k < r.len() implies {
                let c = #[trigger] r[k];
                &&& c != '(' && c != '[' && c != '{' && c != ')' && c != ']' && c != '}'
                &&& c != '"' && c != '\\'
            } by {
                assert(r[k] == q[k]);
            }
        }
        assert(s.drop_last() =~= p + seq![open] + r);
        assert(s.last() == q[q.len() - 1]);
        lemma_open(p, open, r);
    }
}

/// Other words do not open such a sentence: a small `return` without a marker, or a longer word.
pub proof fn law_other_words_cut_nothing(body: Seq<char>, i: int)
    requires
        0 <= i < body.len(),
        ({
            let j = past_blanks(body, i + 1);
            j < body.len() && body[j] != 'R' && body[j] != '@' && body[j] != '\\'
        }),
    ensures
        !return_boundary(body, i),
{
    let j = past_blanks(body, i + 1);
    let s = body.skip(j);
    crate::text::lemma_lead_len_facts(body.skip(i + 1), CharClass::Blank);
    assert(s[0] == body[j]);
    reveal_strlit("Return");
    if crate::text::has_prefix(s, "Return"@) {
        assert(s.subrange(0, 6)[0] == s[0]);
    }
}

/// Inside a quotation that is closed further on, nothing is cut.
pub proof fn law_quotations_hold_sentences_together(
    p: Seq<char>,
    q: Seq<char>,
    pos: int,
    rest: Seq<char>,
)
    requires
        has_no_brackets(p) && has_no_brackets(q),
        pos == p.len() + 1 + q.len(),
        rest.contains('"'),
    ensures
        enclosed(p + seq!['"'] + q + rest, pos),
        !return_boundary(p + seq!['"'] + q + rest, pos),
{
    let body = p + seq!['"'] + q + rest;
    assert(body.take(pos) =~= p + seq!['"'] + q);
    assert(body.skip(pos) =~= rest);
    lemma_quoted(p, q);
}

proof fn lemma_quoted(p: Seq<char>, q: Seq<char>)
    requires
        has_no_brackets(p) && has_no_brackets(q),
    ensures
        nesting(p + seq!['"'] + q).quoted,
        !nesting(p + seq!['"'] + q).escaped,
    decreases q.len(),
{
    let s = p + seq!['"'] + q;
    if q.len() == 0 {
        assert(s.drop_last() =~= p);
        lemma_flat(p);
    } else {
        let r = q.drop_last();
        assert(has_no_brackets(r)) by {
            assert forall|k: int| 0 <= k < r.len() implies {
                let c = #[trigger] r[k];
                &&& c != '(' && c != '[' && c != '{' && c != ')' && c != ']' && c != '}'
                &&& c != '"' && c != '\\'
            } by {
                assert(r[k] == q[k]);
            }
        }
        assert(s.drop_last() =~= p + seq!['"'] + r);
        assert(s.last() == q[q.len() - 1]);
        lemma_quoted(p, r);
    }
}

/// A return tag in the middle of a line of prose gets a line of its own; a sentence without a
/// marker is left to the paragraph.
pub proof fn law_return_tags_get_their_line(
    l: LineText,
    a: Seq<char>,
    e: char,
    gap: Seq<char>,
    w: Seq<char>,
    rest: Seq<char>,
    k: int,
)
    requires
        l.kind == LineKind::Prose,
        l.text == a + seq![e] + gap + w + rest,
        a.len() > 0 && !is_white(a[0]),
        ends_no_sentence(a) && ends_no_sentence(rest),
        has_no_brackets(a),
        0 <= k < a.len() && !('0' <= a[k] <= '9'),
        e == '.' || e == '!' || e == '?',
        gap.len() > 0 && forall|j: int| 0 <= j < gap.len() ==> #[trigger] gap[j] == ' ' || gap[j]
            == '\t',
        says_return(w),
        rest.len() > 0 ==> is_white(rest[0]),
    ensures
        return_lines(l).len() == if w[0] == 'R' {
            1int
        } else {
            2int
        },
        w[0] != 'R' ==> return_lines(l)[0].text == trimmed(a + seq![e] + gap)
            && return_lines(l)[1].text == trimmed(w + rest),
        w[0] == 'R' ==> return_lines(l)[0] == l,
{
    law_return_sentences_are_cut_off(a, e, gap, w, rest);
    lemma_says_return(w, rest);
    let pieces = return_pieces(l.text);
    let tail = w + rest;
    assert(pieces == seq![trimmed(a + seq![e] + gap), trimmed(tail)]);
    lemma_return_word(w);
    crate::words::lemma_first_word(w, rest);
    crate::words::lemma_words_trimmed(tail);
    assert(words_of(pieces[1])[0] == w);
    assert(opens_with_return_tag(pieces[1]) == (w[0] != 'R'));
    if w[0] != 'R' {
        assert(hoists_return(pieces));
    } else {
        assert(!hoists_return(pieces)) by {
            if hoists_return(pieces) {
                let i = choose|i: int|
                    1 <= i < pieces.len() && opens_with_return_tag(#[trigger] pieces[i]);
                assert(i == 1);
            }
        }
    }
}

proof fn lemma_return_word(w: Seq<char>)
    requires
        says_return(w),
    ensures
        is_word(w),
        (word_tag(w) == Some(KTag::Return)) == (w[0] != 'R'),
{
    reveal_strlit("Return");
    reveal_strlit("Returns");
    reveal_strlit("@return");
    reveal_strlit("@returns");
    reveal_strlit("\\return");
    reveal_strlit("\\returns");
    reveal_strlit("return");
    reveal_strlit("returns");
    reveal_strlit("param");
    reveal_strlit("param[in]");
    reveal_strlit("param[out]");
    reveal_strlit("param[in,out]");
    assert("param"@.len() == 5 && "param[in]"@.len() == 9 && "param[out]"@.len() == 10
        && "param[in,out]"@.len() == 13);
    if w[0] != 'R' {
        let u = w.skip(1);
        assert(u =~= "return"@ || u =~= "returns"@);
    }
}

} // verus!
