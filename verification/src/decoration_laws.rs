//! Rules and banners around the text of a comment.

use crate::classify::{kind_of, DocFlavor};
use crate::comment::CommentText;
use crate::directive_laws::lemma_trimmed_is;
use crate::language::Language;
use crate::linekind::StrippedText;
use crate::marker_laws::is_line_marker;
use crate::normalize::{bookends_stripped, one_line_body, protects, strippable_bookend};
use crate::text::{
    all_in, alphabetic, any_in, has_prefix, in_class, is_white, lead_len, lemma_lead_len,
    lemma_trail_len, trail_len, trimmed, CharClass,
};
use crate::textline::{art_only, bookend, half_banner, rule_leads, rule_trails, uniform, Bookend};
use vstd::prelude::*;

verus! {

/// A run of at least three of one rule character.
pub open spec fn is_rule(s: Seq<char>) -> bool {
    &&& s.len() >= 3
    &&& s[0] == '-' || s[0] == '=' || s[0] == '*'
    &&& forall|k: int| 0 <= k < s.len() ==> #[trigger] s[k] == s[0]
}

pub open spec fn all_white(s: Seq<char>) -> bool {
    forall|k: int| 0 <= k < s.len() ==> is_white(#[trigger] s[k])
}

/// Text that starts and ends in something that is neither white nor a rule character.
pub open spec fn is_label(s: Seq<char>) -> bool {
    &&& s.len() > 0
    &&& !is_white(s[0]) && s[0] != '-' && s[0] != '=' && s[0] != '*'
    &&& !is_white(s.last()) && s.last() != '-' && s.last() != '=' && s.last() != '*'
}

/// A line that starts with a letter.
pub open spec fn starts_with_letter(s: Seq<char>) -> bool {
    let t = trimmed(s);
    t.len() > 0 && alphabetic(t[0]) && ('a' <= t[0] <= 'z' || 'A' <= t[0] <= 'Z')
}

/// Neither neighbour of line `i` is a drawing or a rule: each starts with a letter.
pub open spec fn among_text(lines: Seq<StrippedText>, i: int) -> bool {
    &&& i > 0 ==> starts_with_letter(lines[i - 1].body)
    &&& i + 1 < lines.len() ==> starts_with_letter(lines[i + 1].body)
}

proof fn lemma_text_protects_nothing(lines: Seq<StrippedText>, j: int)
    requires
        starts_with_letter(lines[j].body),
    ensures
        !protects(lines, j),
        bookend(lines[j].body) is None,
        !art_only(lines[j].body),
{
    let t = trimmed(lines[j].body);
    lemma_lead_len(t, CharClass::Rule, 0);
    assert(!in_class(t[0], CharClass::Rule));
    assert(in_class(t[0], CharClass::Letter));
    reveal_strlit("|");
    reveal_strlit("* ");
    if has_prefix(t, "|"@) {
        assert(t.subrange(0, 1)[0] == t[0]);
    }
    if has_prefix(t, "* "@) {
        assert(t.subrange(0, 2)[0] == t[0]);
    }
}

proof fn lemma_rule_is_uniform(s: Seq<char>)
    requires
        is_rule(s),
    ensures
        uniform(s),
        all_in(s, CharClass::Rule),
{
    assert forall|k: int| 0 <= k < s.len() implies in_class(#[trigger] s[k], CharClass::One(s[0]))
        && in_class(s[k], CharClass::Rule) by {
        assert(s[k] == s[0]);
    }
}

/// A text with a rule in front, and what follows it.
proof fn lemma_rule_in_front(t: Seq<char>, rule: Seq<char>, rest: Seq<char>)
    requires
        t == rule + rest,
        is_rule(rule),
        rest.len() > 0 && is_white(rest[0]),
    ensures
        lead_len(t, CharClass::Rule) == rule.len(),
        rule_leads(t),
{
    lemma_rule_is_uniform(rule);
    let n = rule.len() as int;
    assert forall|k: int| 0 <= k < n implies in_class(#[trigger] t[k], CharClass::Rule) by {
        assert(t[k] == rule[k]);
    }
    assert(t[n] == rest[0]);
    lemma_lead_len(t, CharClass::Rule, n);
    assert(t.take(n) =~= rule);
}

proof fn lemma_rule_behind(t: Seq<char>, rest: Seq<char>, rule: Seq<char>)
    requires
        t == rest + rule,
        is_rule(rule),
        rest.len() > 0 && is_white(rest.last()),
    ensures
        trail_len(t, CharClass::Rule) == rule.len(),
        rule_trails(t),
{
    lemma_rule_is_uniform(rule);
    let n = rule.len() as int;
    let m = rest.len() as int;
    assert forall|k: int| t.len() - n <= k < t.len() implies in_class(
        #[trigger] t[k],
        CharClass::Rule,
    ) by {
        assert(t[k] == rule[k - m]);
    }
    assert(t[m - 1] == rest.last());
    lemma_trail_len(t, CharClass::Rule, n);
    assert(t.skip(t.len() - n) =~= rule);
}

/// A label between two rules is all that is left of its line.
pub proof fn law_labels_lose_their_rules(
    lines: Seq<StrippedText>,
    flavor: DocFlavor,
    i: int,
    left: Seq<char>,
    gap: Seq<char>,
    label: Seq<char>,
    pad: Seq<char>,
    right: Seq<char>,
)
    requires
        0 <= i < lines.len(),
        among_text(lines, i),
        trimmed(lines[i].body) == left + (gap + label + pad) + right,
        is_rule(left) && is_rule(right),
        all_white(gap) && gap.len() > 0,
        all_white(pad) && pad.len() > 0,
        is_label(label),
    ensures
        bookends_stripped(lines, flavor)[i].body == label,
{
    lemma_labelled(lines[i].body, left, gap, label, pad, right);
    if i > 0 {
        lemma_text_protects_nothing(lines, i - 1);
    }
    if i + 1 < lines.len() {
        lemma_text_protects_nothing(lines, i + 1);
    }
}

/// A line that is nothing but a rule is taken away. In Rustdoc it stays where it stands under
/// text, or alone, for it may underline a heading there.
pub proof fn law_bare_rules_are_taken_away(lines: Seq<StrippedText>, flavor: DocFlavor, i: int)
    requires
        0 <= i < lines.len(),
        among_text(lines, i),
        is_rule(trimmed(lines[i].body)),
    ensures
        bookends_stripped(lines, flavor)[i].body == if flavor == DocFlavor::Rustdoc && (i > 0
            || lines.len() == 1) {
            lines[i].body
        } else {
            Seq::<char>::empty()
        },
{
    let t = trimmed(lines[i].body);
    lemma_rule_is_uniform(t);
    if t[0] == '*' {
        assert forall|k: int| 0 <= k < t.len() implies in_class(
            #[trigger] t[k],
            CharClass::One('*'),
        ) by {
            assert(t[k] == t[0]);
        }
        lemma_lead_len(t, CharClass::One('*'), t.len() as int);
    } else {
        lemma_lead_len(t, CharClass::One('*'), 0);
        assert(t.skip(0) =~= t);
    }
    assert(bookend(lines[i].body) == Some(Bookend::Bare));
    if i > 0 {
        lemma_text_protects_nothing(lines, i - 1);
    }
    if i + 1 < lines.len() {
        lemma_text_protects_nothing(lines, i + 1);
    }
}

/// Text is no decoration where no rule stands at one of its ends.
pub proof fn law_rules_on_one_side_stay(lines: Seq<StrippedText>, flavor: DocFlavor, i: int)
    requires
        0 <= i < lines.len(),
        ({
            let t = trimmed(lines[i].body);
            let n = t.len() as int;
            ||| n > 0 && t[0] != '-' && t[0] != '=' && t[0] != '*'
            ||| n > 0 && t[n - 1] != '-' && t[n - 1] != '=' && t[n - 1] != '*'
            ||| n >= 3 && (!(t[1] == t[0] && t[2] == t[0])) && !all_in(t, CharClass::Rule)
            ||| n >= 3 && (!(t[n - 2] == t[n - 1] && t[n - 3] == t[n - 1])) && !all_in(
                t,
                CharClass::Rule,
            )
        }),
    ensures
        bookends_stripped(lines, flavor)[i].body == lines[i].body,
{
    let t = trimmed(lines[i].body);
    let n = t.len() as int;
    let a = lead_len(t, CharClass::Rule) as int;
    let b = trail_len(t, CharClass::Rule) as int;
    crate::text::lemma_lead_len_facts(t, CharClass::Rule);
    crate::text::lemma_trail_len_facts(t, CharClass::Rule);
    assert(!all_in(t, CharClass::Rule)) by {
        if all_in(t, CharClass::Rule) {
            assert(in_class(t[0], CharClass::Rule));
            assert(in_class(t[n - 1], CharClass::Rule));
        }
    }
    if rule_leads(t) && rule_trails(t) {
        assert(in_class(t[0], CharClass::Rule));
        assert(in_class(t[n - 1], CharClass::Rule));
        let p = t.take(a);
        assert(in_class(p[1], CharClass::One(p[0])) && in_class(p[2], CharClass::One(p[0])));
        let q = t.skip(n - b);
        assert(in_class(q[b - 1], CharClass::One(q[0])));
        assert(in_class(q[b - 2], CharClass::One(q[0])));
        assert(in_class(q[b - 3], CharClass::One(q[0])));
        assert(q[b - 1] == t[n - 1] && q[b - 2] == t[n - 2] && q[b - 3] == t[n - 3]);
    }
    assert(bookend(lines[i].body) is None);
}

/// A line comment that is nothing but a decorated label is not left as it is, however short. A
/// bare rule is not either, but for Rustdoc.
pub proof fn law_decorated_comments_are_not_left(
    m: Seq<char>,
    body: Seq<char>,
    flavor: DocFlavor,
    left: Seq<char>,
    gap: Seq<char>,
    label: Seq<char>,
    pad: Seq<char>,
    right: Seq<char>,
)
    requires
        is_line_marker(m),
        body.len() > 0 && body[0] == ' ',
        is_rule(left) && is_rule(right),
        all_white(gap) && gap.len() > 0,
        all_white(pad) && pad.len() > 0,
        is_label(label),
        trimmed(body) == left + (gap + label + pad) + right || trimmed(body) == left,
    ensures
        strippable_bookend(m + body, flavor) == (trimmed(body) != left || flavor
            != DocFlavor::Rustdoc),
{
    let text = m + body;
    let n = m.len() as int;
    assert(one_line_body(text) == Some(body)) by {
        reveal_strlit("//");
        reveal_strlit("///");
        reveal_strlit("//!");
        assert(text[0] == m[0] && text[n] == ' ');
        lemma_lead_len(text, CharClass::Blank, 0);
        assert(crate::text::after_lead(text, CharClass::Blank) =~= text);
        assert forall|k: int| 0 <= k < n implies #[trigger] text[k] == m[k] by {}
        crate::marker_laws::lemma_markers(text);
        assert(text.skip(n) =~= body);
        if m != "//"@ && m != "///"@ && m != "//!"@ {
            assert forall|k: int| 0 <= k < n implies in_class(
                #[trigger] text[k],
                CharClass::One('#'),
            ) by {
                assert(text[k] == m[k]);
            }
            lemma_lead_len(text, CharClass::One('#'), n);
            assert(!crate::marker_laws::opens_with(text, '#', '!'));
        }
    }
    if trimmed(body) == left {
        lemma_rule_is_uniform(left);
        if left[0] == '*' {
            assert forall|k: int| 0 <= k < left.len() implies in_class(
                #[trigger] left[k],
                CharClass::One('*'),
            ) by {
                assert(left[k] == left[0]);
            }
            lemma_lead_len(left, CharClass::One('*'), left.len() as int);
        } else {
            lemma_lead_len(left, CharClass::One('*'), 0);
            assert(left.skip(0) =~= left);
        }
    } else {
        lemma_labelled(body, left, gap, label, pad, right);
    }
}

/// What stands between two rules is the label.
proof fn lemma_labelled(
    body: Seq<char>,
    left: Seq<char>,
    gap: Seq<char>,
    label: Seq<char>,
    pad: Seq<char>,
    right: Seq<char>,
)
    requires
        trimmed(body) == left + (gap + label + pad) + right,
        is_rule(left) && is_rule(right),
        all_white(gap) && gap.len() > 0,
        all_white(pad) && pad.len() > 0,
        is_label(label),
    ensures
        bookend(body) == Some(Bookend::Labeled(label)),
{
    let t = trimmed(body);
    let inner = gap + label + pad;
    assert(t =~= left + (inner + right));
    assert(inner[0] == gap[0]);
    lemma_rule_in_front(t, left, inner + right);
    assert((left + inner).last() == pad.last());
    lemma_rule_behind(t, left + inner, right);
    assert(t.subrange(left.len() as int, t.len() - right.len()) =~= inner);
    lemma_trimmed_is(gap, label, pad);
    assert(!all_in(t, CharClass::Rule)) by {
        assert(t[left.len() as int] == gap[0]);
        assert(is_white(gap[0]));
        assert(!in_class(t[left.len() as int], CharClass::Rule));
    }
    assert(!all_in(label, CharClass::RuleOrWhite)) by {
        assert(!in_class(label[0], CharClass::RuleOrWhite));
    }
}

/// A rule on one side of a label makes a banner of the line; without a rule there is none.
pub proof fn law_banners_have_one_rule(
    s: Seq<char>,
    rule: Seq<char>,
    gap: Seq<char>,
    label: Seq<char>,
)
    requires
        is_rule(rule),
        all_white(gap) && gap.len() > 0,
        is_label(label),
        trimmed(s) == rule + (gap + label) || trimmed(s) == (label + gap) + rule || trimmed(s)
            == label,
    ensures
        half_banner(s) == (trimmed(s) != label),
        bookend(s) is None,
{
    let t = trimmed(s);
    let n = t.len() as int;
    if t == rule + (gap + label) {
        assert((gap + label)[0] == gap[0]);
        lemma_rule_in_front(t, rule, gap + label);
        assert(t[n - 1] == label.last());
        lemma_trail_len(t, CharClass::Rule, 0);
        assert(!in_class(t[n - 1], CharClass::Rule));
        assert(t != label);
    } else if t == (label + gap) + rule {
        assert((label + gap).last() == gap.last());
        lemma_rule_behind(t, label + gap, rule);
        assert(t[0] == label[0]);
        lemma_lead_len(t, CharClass::Rule, 0);
        assert(!in_class(t[0], CharClass::Rule));
        assert(t != label);
    } else {
        lemma_lead_len(t, CharClass::Rule, 0);
        lemma_trail_len(t, CharClass::Rule, 0);
        assert(!in_class(t[0], CharClass::Rule));
    }
}

/// A rule next to a drawing is part of it and stays: a line without a letter is one, and so is a
/// line between two bars.
pub proof fn law_drawings_keep_their_rules(lines: Seq<StrippedText>, flavor: DocFlavor, i: int, j: int)
    requires
        0 <= i < lines.len() && 0 <= j < lines.len(),
        j == i + 1 || j == i - 1,
        is_rule(trimmed(lines[i].body)),
        ({
            let t = trimmed(lines[j].body);
            &&& t.len() > 1
            &&& t[0] != '-' && t[0] != '=' && t[0] != '*'
            &&& (t[0] == '|' && t.last() == '|') || forall|k: int|
                0 <= k < t.len() ==> !alphabetic(#[trigger] t[k])
        }),
    ensures
        bookends_stripped(lines, flavor)[i].body == lines[i].body,
{
    let t = trimmed(lines[j].body);
    lemma_lead_len(t, CharClass::Rule, 0);
    assert(!in_class(t[0], CharClass::Rule));
    assert(bookend(lines[j].body) is None);
    reveal_strlit("|");
    assert(art_only(lines[j].body)) by {
        if t[0] == '|' && t.last() == '|' {
            assert(t.subrange(0, 1) =~= "|"@);
            assert(t.subrange(t.len() - 1, t.len() as int) =~= "|"@);
        } else {
            assert(!any_in(t, CharClass::Letter)) by {
                if any_in(t, CharClass::Letter) {
                    let k = choose|k: int|
                        0 <= k < t.len() && in_class(#[trigger] t[k], CharClass::Letter);
                    assert(!alphabetic(t[k]));
                }
            }
        }
    }
    assert(protects(lines, j));
}

/// A comment of one line that is a banner with one rule is left as it is, whatever its width.
pub proof fn law_lone_banners_stay(
    c: CommentText,
    lang: Language,
    limit: usize,
    rule: Seq<char>,
    gap: Seq<char>,
    label: Seq<char>,
)
    requires
        is_rule(rule),
        all_white(gap) && gap.len() > 0,
        is_label(label),
        ({
            let plain = c.plain_lines(kind_of(c.text, lang));
            &&& plain.len() == 1
            &&& trimmed(plain[0].body) == rule + (gap + label) || trimmed(plain[0].body) == (label
                + gap) + rule
        }),
    ensures
        c.left_alone(kind_of(c.text, lang), lang, limit),
{
    let s = c.plain_lines(kind_of(c.text, lang))[0].body;
    assert(trimmed(s) != label) by {
        assert(trimmed(s).len() > label.len());
    }
    law_banners_have_one_rule(s, rule, gap, label);
    reveal(CommentText::left_alone);
}

} // verus!
