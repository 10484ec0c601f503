//! The markers of comments: what they show and how they are told from text.

use crate::classify::{kind_of, style_of, DocFlavor, Style};
use crate::comment::CommentText;
use crate::language::Language;
use crate::normalize::{
    behind_marker, block_marker_of, line_marker_of, line_stripped, member_marker, member_stripped,
    source_lines,
};
use crate::shape_laws::lemma_prefixed;
use crate::text::{
    after_lead, has_prefix, has_suffix, has_text, in_class, is_white, lead_run, leads_with,
    lemma_lead_len, sub_at, suffix_rest, trimmed_end, CharClass,
};
use vstd::prelude::*;

verus! {

/// The text has `a` at position 0 and `b` at position 1.
pub open spec fn opens_with(text: Seq<char>, a: char, b: char) -> bool {
    text.len() >= 2 && text[0] == a && text[1] == b
}

/// Position `i` of the text holds `a`.
pub open spec fn holds_at(text: Seq<char>, i: int, a: char) -> bool {
    0 <= i < text.len() && text[i] == a
}

/// The literals of the markers, character by character.
pub proof fn lemma_markers(text: Seq<char>)
    ensures
        has_prefix(text, "//"@) == opens_with(text, '/', '/'),
        has_prefix(text, "///"@) == (opens_with(text, '/', '/') && holds_at(text, 2, '/')),
        has_prefix(text, "//!"@) == (opens_with(text, '/', '/') && holds_at(text, 2, '!')),
        has_prefix(text, "/*"@) == opens_with(text, '/', '*'),
        has_prefix(text, "/**"@) == (opens_with(text, '/', '*') && holds_at(text, 2, '*')),
        has_prefix(text, "/*!"@) == (opens_with(text, '/', '*') && holds_at(text, 2, '!')),
        has_prefix(text, "/*-"@) == (opens_with(text, '/', '*') && holds_at(text, 2, '-')),
        has_prefix(text, "/*--"@) == (opens_with(text, '/', '*') && holds_at(text, 2, '-')
            && holds_at(text, 3, '-')),
        has_prefix(text, "#!"@) == opens_with(text, '#', '!'),
{
    lemma_two(text, '/', '/', "//"@);
    lemma_two(text, '/', '*', "/*"@);
    lemma_two(text, '#', '!', "#!"@);
    lemma_three(text, '/', '/', '/', "///"@);
    lemma_three(text, '/', '/', '!', "//!"@);
    lemma_three(text, '/', '*', '*', "/**"@);
    lemma_three(text, '/', '*', '!', "/*!"@);
    lemma_three(text, '/', '*', '-', "/*-"@);
    reveal_strlit("//");
    reveal_strlit("/*");
    reveal_strlit("#!");
    reveal_strlit("///");
    reveal_strlit("//!");
    reveal_strlit("/**");
    reveal_strlit("/*!");
    reveal_strlit("/*-");
    reveal_strlit("/*--");
    let p = "/*--"@;
    if has_prefix(text, p) {
        let u = text.subrange(0, 4);
        assert(u[0] == text[0] && u[1] == text[1] && u[2] == text[2] && u[3] == text[3]);
    } else if opens_with(text, '/', '*') && holds_at(text, 2, '-') && holds_at(text, 3, '-') {
        assert(text.subrange(0, 4) =~= p);
    }
}

proof fn lemma_two(text: Seq<char>, a: char, b: char, p: Seq<char>)
    ensures
        p.len() == 2 && p[0] == a && p[1] == b ==> has_prefix(text, p) == opens_with(text, a, b),
{
    if p.len() == 2 && p[0] == a && p[1] == b {
        if has_prefix(text, p) {
            let u = text.subrange(0, 2);
            assert(u[0] == text[0] && u[1] == text[1]);
        } else if opens_with(text, a, b) {
            assert(text.subrange(0, 2) =~= p);
        }
    }
}

proof fn lemma_three(text: Seq<char>, a: char, b: char, c: char, p: Seq<char>)
    ensures
        p.len() == 3 && p[0] == a && p[1] == b && p[2] == c ==> has_prefix(text, p) == (opens_with(
            text,
            a,
            b,
        ) && holds_at(text, 2, c)),
{
    if p.len() == 3 && p[0] == a && p[1] == b && p[2] == c {
        if has_prefix(text, p) {
            let u = text.subrange(0, 3);
            assert(u[0] == text[0] && u[1] == text[1] && u[2] == text[2]);
        } else if opens_with(text, a, b) && holds_at(text, 2, c) {
            assert(text.subrange(0, 3) =~= p);
        }
    }
}

/// The text opens a documentation block: `/*!`, or `/**` with neither a star nor a slash behind.
pub open spec fn opens_documentation(text: Seq<char>) -> bool {
    &&& opens_with(text, '/', '*')
    &&& {
        ||| holds_at(text, 2, '!')
        ||| holds_at(text, 2, '*') && !holds_at(text, 3, '*') && !holds_at(text, 3, '/')
    }
}

pub proof fn lemma_documentation(text: Seq<char>)
    ensures
        crate::textline::opens_doc_block(text) == opens_documentation(text),
{
    lemma_markers(text);
    if opens_with(text, '/', '*') && holds_at(text, 2, '*') && text.len() > 3 {
        assert(text.skip(3)[0] == text[3]);
    }
}

/// What the first characters of a comment say of its style, and of the tool that reads it.
pub proof fn law_openers_show_the_style(text: Seq<char>, lang: Language)
    ensures
        style_of(text) == Style::DocLine <==> opens_with(text, '/', '/') && (holds_at(text, 2, '/')
            || holds_at(text, 2, '!')),
        style_of(text) == Style::DocBlock <==> opens_documentation(text),
        style_of(text) == Style::Block <==> opens_with(text, '/', '*') && !opens_documentation(
            text,
        ),
        ({
            let doc = style_of(text) == Style::DocLine || style_of(text) == Style::DocBlock;
            let flavor = kind_of(text, lang).flavor;
            &&& flavor == DocFlavor::Rustdoc <==> doc && lang == Language::Rust
            &&& flavor == DocFlavor::Doxygen <==> doc && (lang == Language::C || lang
                == Language::Cpp)
        }),
{
    lemma_markers(text);
    lemma_documentation(text);
}

/// The marker of a comment is what it starts with: slashes, one of the block openers, or a run
/// of hashes.
pub proof fn law_markers_are_what_is_written(text: Seq<char>, n: int)
    requires
        0 <= n <= text.len(),
        forall|k: int| 0 <= k < n ==> #[trigger] text[k] == '#',
        n == text.len() || text[n] != '#',
    ensures
        opens_with(text, '/', '/') ==> line_marker_of(text) == Some(
            if holds_at(text, 2, '/') || holds_at(text, 2, '!') {
                text.take(3)
            } else {
                text.take(2)
            },
        ),
        n > 0 ==> line_marker_of(text) == Some(
            if opens_with(text, '#', '!') {
                text.take(2)
            } else {
                text.take(n)
            },
        ),
        opens_with(text, '/', '*') ==> block_marker_of(text) == Some(
            if opens_documentation(text) || (holds_at(text, 2, '-') && !holds_at(text, 3, '-')) {
                text.take(3)
            } else {
                text.take(2)
            },
        ),
        !opens_with(text, '/', '*') ==> block_marker_of(text) is None,
{
    lemma_markers(text);
    lemma_documentation(text);
    lemma_lead_len(text, CharClass::One('#'), n);
    reveal_strlit("//");
    reveal_strlit("/*");
    reveal_strlit("#!");
    reveal_strlit("///");
    reveal_strlit("//!");
    reveal_strlit("/**");
    reveal_strlit("/*!");
    reveal_strlit("/*-");
    if text.len() >= 2 {
        assert(opens_with(text, '/', '/') ==> text.take(2) =~= "//"@);
        assert(opens_with(text, '/', '*') ==> text.take(2) =~= "/*"@);
        assert(opens_with(text, '#', '!') ==> text.take(2) =~= "#!"@);
    }
    if text.len() >= 3 {
        assert(opens_with(text, '/', '/') && text[2] == '/' ==> text.take(3) =~= "///"@);
        assert(opens_with(text, '/', '/') && text[2] == '!' ==> text.take(3) =~= "//!"@);
        assert(opens_with(text, '/', '*') && text[2] == '*' ==> text.take(3) =~= "/**"@);
        assert(opens_with(text, '/', '*') && text[2] == '!' ==> text.take(3) =~= "/*!"@);
        assert(opens_with(text, '/', '*') && text[2] == '-' ==> text.take(3) =~= "/*-"@);
    }
    assert(lead_run(text, CharClass::One('#')) =~= text.take(n));
}

pub open spec fn all_blank(s: Seq<char>) -> bool {
    forall|k: int| 0 <= k < s.len() ==> #[trigger] s[k] == ' ' || s[k] == '\t'
}

/// The blanks in front of a line, and the rest.
pub proof fn lemma_blanks(ws: Seq<char>, t: Seq<char>)
    requires
        all_blank(ws),
        t.len() > 0 ==> t[0] != ' ' && t[0] != '\t',
    ensures
        lead_run(ws + t, CharClass::Blank) == ws,
        after_lead(ws + t, CharClass::Blank) == t,
{
    let s = ws + t;
    let n = ws.len() as int;
    assert forall|k: int| 0 <= k < n implies in_class(#[trigger] s[k], CharClass::Blank) by {
        assert(s[k] == ws[k]);
    }
    if t.len() > 0 {
        assert(s[n] == t[0]);
    }
    lemma_lead_len(s, CharClass::Blank, n);
    assert(s.take(n) =~= ws);
    assert(s.skip(n) =~= t);
}

pub proof fn lemma_one_space(body: Seq<char>)
    ensures
        behind_marker(seq![' '] + body) == body,
        body.len() > 0 && body[0] != ' ' ==> behind_marker(body) == body,
        body.len() == 0 ==> behind_marker(body) == body,
{
    reveal_strlit(" ");
    assert(seq![' '] =~= " "@);
    lemma_prefixed(" "@, body);
    if has_prefix(body, " "@) {
        assert(body.subrange(0, 1)[0] == body[0]);
    }
}

/// The markers that a line comment may start with.
pub open spec fn is_line_marker(m: Seq<char>) -> bool {
    ||| m == "//"@ || m == "///"@ || m == "//!"@
    ||| m.len() > 0 && forall|k: int| 0 <= k < m.len() ==> #[trigger] m[k] == '#'
}

/// The text of a line comment is what stands behind its marker and one space.
pub proof fn law_line_markers_are_taken_off(
    ws: Seq<char>,
    m: Seq<char>,
    body: Seq<char>,
    style: Style,
    first: bool,
    last: bool,
)
    requires
        style == Style::Line || style == Style::DocLine,
        all_blank(ws),
        is_line_marker(m),
    ensures
        line_stripped(ws + (m + (seq![' '] + body)), style, first, last) == (
            ws + m + seq![' '],
            body,
        ),
{
    let t = m + (seq![' '] + body);
    reveal_strlit("//");
    reveal_strlit("///");
    reveal_strlit("//!");
    reveal_strlit(" ");
    assert(m.len() > 0);
    assert(t[0] == m[0]);
    lemma_blanks(ws, t);
    let n = m.len() as int;
    assert(t[n] == ' ');
    assert(t.take(n) =~= m);
    assert(t.skip(n) =~= seq![' '] + body);
    lemma_one_space(body);
    if m == "//"@ || m == "///"@ || m == "//!"@ {
        assert forall|k: int| 0 <= k < n implies #[trigger] t[k] == m[k] by {}
        lemma_lead_len(t, CharClass::One('#'), 0);
        law_markers_are_what_is_written(t, 0);
        assert(line_marker_of(t) == Some(m));
    } else {
        assert forall|k: int| 0 <= k < n implies #[trigger] t[k] == '#' by {
            assert(t[k] == m[k]);
        }
        law_markers_are_what_is_written(t, n);
        assert(!opens_with(t, '#', '!'));
        assert(line_marker_of(t) == Some(m));
    }
    assert(" "@ =~= seq![' ']);
}

/// Inside a block a star with a blank behind it, or two, is a marker; any other text is text.
pub proof fn law_stars_are_taken_off(ws: Seq<char>, body: Seq<char>, style: Style)
    requires
        style == Style::Block || style == Style::DocBlock,
        all_blank(ws),
    ensures
        line_stripped(ws + (seq!['*', ' '] + body), style, false, false).1 == body,
        line_stripped(ws + (seq!['*', '*', ' '] + body), style, false, false).1 == body,
        line_stripped(ws + seq!['*'], style, false, false).1 == Seq::<char>::empty(),
        body.len() > 0 && body[0] != '*' && body[0] != ' ' && body[0] != '\t' && body[0] != '/'
            ==> line_stripped(ws + body, style, false, false).1 == body,
{
    reveal_strlit("* ");
    reveal_strlit("*");
    reveal_strlit("** ");
    reveal_strlit("**");
    let a = seq!['*', ' '] + body;
    let b = seq!['*', '*', ' '] + body;
    let c = seq!['*'];
    lemma_blanks(ws, a);
    lemma_blanks(ws, b);
    lemma_blanks(ws, c);
    lemma_markers(a);
    lemma_markers(b);
    lemma_markers(c);
    lemma_markers(body);
    assert(member_marker(a) is None && member_marker(b) is None && member_marker(c) is None);
    assert("* "@ =~= seq!['*', ' ']);
    lemma_prefixed("* "@, body);
    assert(a.skip(2) =~= body);
    assert("** "@ =~= seq!['*', '*', ' ']);
    lemma_prefixed("** "@, body);
    assert(b.skip(3) =~= body);
    if has_prefix(b, "* "@) {
        assert(b.subrange(0, 2)[1] == b[1]);
    }
    assert(b.skip(1)[0] == '*');
    assert(!leads_with(b.skip(1), CharClass::Blank));
    if has_prefix(c, "* "@) {
        assert(c.len() >= 2);
    }
    assert(c.subrange(0, 1) =~= "*"@);
    assert(c.skip(1) =~= Seq::<char>::empty());
    if body.len() > 0 && body[0] != '*' && body[0] != ' ' && body[0] != '\t' && body[0] != '/' {
        lemma_blanks(ws, body);
        assert(member_marker(body) is None);
        if has_prefix(body, "* "@) {
            assert(body.subrange(0, 2)[0] == body[0]);
        }
        if has_prefix(body, "*"@) {
            assert(body.subrange(0, 1)[0] == body[0]);
        }
        if has_prefix(body, "** "@) {
            assert(body.subrange(0, 3)[0] == body[0]);
        }
        if has_prefix(body, "**"@) {
            assert(body.subrange(0, 2)[0] == body[0]);
        }
    }
}

/// The text on the opener's line is what stands behind the opener and one space.
pub proof fn law_openers_are_taken_off(ws: Seq<char>, text: Seq<char>, style: Style)
    requires
        all_blank(ws),
        !has_suffix(text, "*/"@),
        text.len() > 0 && text[0] != '*' && text[0] != '!' && text[0] != '-' && text[0] != ' '
            && text[0] != '/',
    ensures
        line_stripped(ws + (seq!['/', '*', ' '] + text), Style::Block, true, false).1 == text,
        line_stripped(ws + (seq!['/', '*'] + text), Style::Block, true, false).1 == text,
        line_stripped(ws + (seq!['/', '*', '-', ' '] + text), Style::Block, true, false).1 == text,
        line_stripped(ws + (seq!['/', '*', '*', ' '] + text), Style::DocBlock, true, false).1
            == text,
        line_stripped(ws + (seq!['/', '*', '!', ' '] + text), Style::DocBlock, true, false).1
            == text,
{
    let s = seq![' '] + text;
    lemma_one_space(text);
    lemma_opener_off(ws, seq!['/', '*'], s, Style::Block);
    lemma_opener_off(ws, seq!['/', '*'], text, Style::Block);
    lemma_opener_off(ws, seq!['/', '*', '-'], s, Style::Block);
    lemma_opener_off(ws, seq!['/', '*', '*'], s, Style::DocBlock);
    lemma_opener_off(ws, seq!['/', '*', '!'], s, Style::DocBlock);
    assert(seq!['/', '*'] + s =~= seq!['/', '*', ' '] + text);
    assert(seq!['/', '*', '-'] + s =~= seq!['/', '*', '-', ' '] + text);
    assert(seq!['/', '*', '*'] + s =~= seq!['/', '*', '*', ' '] + text);
    assert(seq!['/', '*', '!'] + s =~= seq!['/', '*', '!', ' '] + text);
    reveal_strlit("*/");
    if has_suffix(s, "*/"@) {
        assert(s.subrange(s.len() - 2, s.len() as int)[0] == s[s.len() - 2]);
        assert(s.subrange(s.len() - 2, s.len() as int)[1] == s[s.len() - 1]);
        assert(s.len() >= 3);
        assert(text.subrange(text.len() - 2, text.len() as int) =~= "*/"@);
    }
}

proof fn lemma_opener_off(ws: Seq<char>, m: Seq<char>, rest: Seq<char>, style: Style)
    requires
        all_blank(ws),
        style == Style::Block && (m == seq!['/', '*'] || m == seq!['/', '*', '-']) || style
            == Style::DocBlock && (m == seq!['/', '*', '*'] || m == seq!['/', '*', '!']),
        rest.len() > 0 && rest[0] != '*' && rest[0] != '!' && rest[0] != '-' && rest[0] != '/',
    ensures
        !has_suffix(rest, "*/"@) ==> line_stripped(ws + (m + rest), style, true, false).1
            == behind_marker(rest),
{
    let t = m + rest;
    let n = m.len() as int;
    assert(t[0] == m[0] && t[1] == m[1] && t[n] == rest[0]);
    if n == 3 {
        assert(t[2] == m[2]);
    }
    lemma_blanks(ws, t);
    lemma_markers(t);
    reveal_strlit("*/");
    reveal_strlit("/*");
    reveal_strlit("/*-");
    reveal_strlit("/**");
    reveal_strlit("/*!");
    assert(t.skip(n) =~= rest);
    if !has_suffix(rest, "*/"@) {
        if has_suffix(t, "*/"@) {
            let u = t.subrange(t.len() - 2, t.len() as int);
            assert(u[0] == t[t.len() - 2] && u[1] == t[t.len() - 1]);
            assert(t[t.len() - 1] == rest[rest.len() - 1]);
            if rest.len() >= 2 {
                assert(t[t.len() - 2] == rest[rest.len() - 2]);
                assert(rest.subrange(rest.len() - 2, rest.len() as int) =~= "*/"@);
            } else {
                assert(rest[0] == '/');
            }
        }
        assert(suffix_rest(t, "*/"@) is None);
        assert(member_stripped(ws, t, true) is None);
    }
}

/// A block on one line holds what stands between its opener and its closer.
pub proof fn law_one_line_blocks_hold_their_text(ws: Seq<char>, text: Seq<char>)
    requires
        all_blank(ws),
        text.len() > 0,
        !is_white(text[0]) && !is_white(text.last()),
        text[0] != '*' && text[0] != '!' && text[0] != '-',
    ensures
        line_stripped(
            ws + (seq!['/', '*', ' '] + text + seq![' ', '*', '/']),
            Style::Block,
            true,
            true,
        ).1 == text,
        line_stripped(
            ws + (seq!['/', '*', '*', ' '] + text + seq![' ', '*', '/']),
            Style::DocBlock,
            true,
            true,
        ).1 == text,
{
    reveal_strlit("*/");
    reveal_strlit("/*");
    reveal_strlit("/**");
    let inner = text + seq![' ', '*', '/'];
    let s = seq![' '] + inner;
    let a = seq!['/', '*'] + s;
    let b = seq!['/', '*', '*'] + s;
    assert(seq!['/', '*', ' '] + text + seq![' ', '*', '/'] =~= a);
    assert(seq!['/', '*', '*', ' '] + text + seq![' ', '*', '/'] =~= b);
    lemma_blanks(ws, a);
    lemma_blanks(ws, b);
    lemma_markers(a);
    lemma_markers(b);
    assert(a[2] == ' ' && b[2] == '*' && b[3] == ' ');
    lemma_one_space(inner);
    assert(a.skip(2) =~= s);
    assert(b.skip(3) =~= s);
    assert(inner.subrange(inner.len() - 2, inner.len() as int) =~= "*/"@);
    let kept = inner.take(inner.len() - 2);
    assert(kept =~= text + seq![' ']);
    crate::text::lemma_trail_len(kept, CharClass::White, 1);
    assert(kept.take(kept.len() - 1) =~= text);
}

/// Whether the opener of a block stands alone on its line.
pub proof fn law_openers_alone(c: CommentText, m: Seq<char>, pad: Seq<char>, rest: Seq<char>)
    requires
        m == seq!['/', '*'] || m == seq!['/', '*', '*'] || m == seq!['/', '*', '!'],
        forall|k: int| 0 <= k < pad.len() ==> is_white(#[trigger] pad[k]) && pad[k] != '\n',
        c.text == m + pad + (seq!['\n'] + rest),
    ensures
        c.opener_alone() == Some(true),
{
    let s = c.text;
    let n = (m.len() + pad.len()) as int;
    assert forall|k: int| 0 <= k < n implies in_class(#[trigger] s[k], CharClass::NotOne('\n')) by {
        if k < m.len() {
            assert(s[k] == m[k]);
        } else {
            assert(s[k] == pad[k - m.len()]);
        }
    }
    assert(s[n] == '\n');
    lemma_lead_len(s, CharClass::NotOne('\n'), n);
    let line = s.take(n);
    assert(line =~= m + pad);
    assert forall|k: int| line.len() - pad.len() <= k < line.len() implies in_class(
        #[trigger] line[k],
        CharClass::White,
    ) by {
        assert(line[k] == pad[k - m.len()]);
    }
    assert(line[m.len() - 1] == m[m.len() - 1]);
    crate::text::lemma_trail_len(line, CharClass::White, pad.len() as int);
    assert(trimmed_end(line) =~= m);
    reveal_strlit("/*");
    reveal_strlit("/**");
    reveal_strlit("/*!");
    assert("/*"@ =~= seq!['/', '*']);
    assert("/**"@ =~= seq!['/', '*', '*']);
    assert("/*!"@ =~= seq!['/', '*', '!']);
}

/// A line of a run of blocks that is a whole block by itself holds what stands between its opener
/// and its closer.
pub proof fn law_members_hold_their_text(ws: Seq<char>, text: Seq<char>, last: bool)
    requires
        all_blank(ws),
        text.len() > 0,
        !is_white(text[0]) && !is_white(text.last()),
        !has_text(text + seq![' '], "*/"@),
    ensures
        line_stripped(
            ws + (seq!['/', '*', ' '] + text + seq![' ', '*', '/']),
            Style::Block,
            false,
            last,
        ).1 == text,
{
    reveal_strlit("*/");
    reveal_strlit("/*");
    let t = seq!['/', '*', ' '] + text + seq![' ', '*', '/'];
    lemma_blanks(ws, t);
    lemma_markers(t);
    assert(t[2] == ' ');
    assert(t.subrange(t.len() - 2, t.len() as int) =~= "*/"@);
    let rest = t.take(t.len() - 2);
    let inner = rest.skip(2);
    let kept = text + seq![' '];
    assert(inner =~= seq![' '] + kept);
    lemma_one_space(kept);
    assert(!has_text(inner, "*/"@)) by {
        if has_text(inner, "*/"@) {
            let i = choose|i: int| #[trigger] sub_at(inner, "*/"@, i);
            assert(inner.subrange(i, i + 2)[0] == inner[i]);
            assert(i > 0);
            assert(kept.subrange(i - 1, i + 1) =~= inner.subrange(i, i + 2));
            assert(sub_at(kept, "*/"@, i - 1));
        }
    }
    crate::text::lemma_trail_len(kept, CharClass::White, 1);
    assert(kept.take(kept.len() - 1) =~= text);
}

/// The text on the closer's line is what stands between its stars and the closer.
pub proof fn law_closers_are_taken_off(ws: Seq<char>, lead: Seq<char>, text: Seq<char>, style: Style)
    requires
        style == Style::Block || style == Style::DocBlock,
        all_blank(ws),
        forall|k: int| 0 <= k < lead.len() ==> #[trigger] lead[k] == ' ' || lead[k] == '*',
        lead.len() > 0 ==> lead[0] == '*',
        text.len() > 0 && text[0] != ' ' && text[0] != '*' && text[0] != '\t' && text[0] != '/',
        text.last() != '*',
    ensures
        line_stripped(ws + (lead + text + seq!['*', '/']), style, false, true).1 == text,
        line_stripped(ws + (lead + text + seq!['*', '*', '/']), style, false, true).1 == text,
        line_stripped(ws + seq!['*', '/'], style, false, true).1 == Seq::<char>::empty(),
{
    reveal_strlit("*/");
    reveal_strlit("**/");
    let a = lead + text + seq!['*', '/'];
    let b = lead + text + seq!['*', '*', '/'];
    let c = seq!['*', '/'];
    assert(a[0] == if lead.len() > 0 { lead[0] } else { text[0] });
    assert(b[0] == a[0]);
    lemma_blanks(ws, a);
    lemma_blanks(ws, b);
    lemma_blanks(ws, c);
    lemma_markers(a);
    lemma_markers(b);
    lemma_markers(c);
    assert(member_marker(a) is None && member_marker(b) is None && member_marker(c) is None);
    if has_suffix(a, "**/"@) {
        assert(a.subrange(a.len() - 3, a.len() as int)[0] == a[a.len() - 3]);
        assert(a[a.len() - 3] == text.last());
    }
    assert(a.subrange(a.len() - 2, a.len() as int) =~= "*/"@);
    assert(b.subrange(b.len() - 3, b.len() as int) =~= "**/"@);
    let k = CharClass::Two(' ', '*');
    let both = lead + text;
    assert(a.take(a.len() - 2) =~= both);
    assert(b.take(b.len() - 3) =~= both);
    assert forall|j: int| 0 <= j < lead.len() implies in_class(#[trigger] both[j], k) by {
        assert(both[j] == lead[j]);
    }
    assert(both[lead.len() as int] == text[0]);
    lemma_lead_len(both, k, lead.len() as int);
    assert(after_lead(both, k) =~= text);
    if has_suffix(c, "**/"@) {
        assert(c.len() >= 3);
    }
    assert(c.subrange(0, 2) =~= "*/"@);
    let none = Seq::<char>::empty();
    assert(c.take(0) =~= none);
    lemma_lead_len(none, k, 0);
    assert(after_lead(none, k) =~= none);
}

/// A banner of stars behind the opener of a plain block is dropped.
pub proof fn law_star_banners_are_dropped(ws: Seq<char>, n: nat, text: Seq<char>)
    requires
        all_blank(ws),
        n >= 2,
        text.len() > 0 && text[0] != '*' && text.last() != '/',
    ensures
        line_stripped(
            ws + (seq!['/'] + Seq::new(n, |k: int| '*') + (seq![' '] + text)),
            Style::Block,
            true,
            false,
        ).1 == text,
{
    let stars = Seq::new(n, |k: int| '*');
    let t = seq!['/'] + stars + (seq![' '] + text);
    reveal_strlit("*/");
    reveal_strlit("/**");
    assert(t[0] == '/' && t[1] == stars[0] && t[2] == stars[1]);
    lemma_blanks(ws, t);
    lemma_markers(t);
    if has_suffix(t, "*/"@) {
        assert(t.subrange(t.len() - 2, t.len() as int)[1] == t[t.len() - 1]);
        assert(t[t.len() - 1] == text.last());
    }
    let more = t.skip(3);
    let left = Seq::new((n - 2) as nat, |k: int| '*');
    assert(more =~= left + (seq![' '] + text));
    assert forall|k: int| 0 <= k < n - 2 implies in_class(#[trigger] more[k], CharClass::One('*')) by {
        assert(more[k] == left[k]);
    }
    assert(more[n - 2] == ' ');
    lemma_lead_len(more, CharClass::One('*'), n - 2);
    assert(after_lead(more, CharClass::One('*')) =~= seq![' '] + text);
    lemma_one_space(text);
}

/// The lines of a comment: a line feed ends one, and a carriage return in front of it is part of
/// the break.
pub proof fn law_breaks_end_lines(a: Seq<char>, b: Seq<char>, crlf: bool)
    requires
        !a.contains('\n') && !b.contains('\n'),
        a.len() == 0 || a.last() != '\r',
        b.len() > 0 && b.last() != '\r',
    ensures
        ({
            let nl = if crlf {
                seq!['\r', '\n']
            } else {
                seq!['\n']
            };
            let lines = source_lines(a + nl + b);
            &&& lines.len() == 2
            &&& lines[0].body == a && lines[0].had_crlf == crlf
            &&& lines[1].body == b && !lines[1].had_crlf
        }),
{
    reveal_strlit("\r");
    reveal_strlit("\n");
    let nl = if crlf {
        seq!['\r', '\n']
    } else {
        seq!['\n']
    };
    let text = a + nl + b;
    let first = if crlf {
        a + seq!['\r']
    } else {
        a
    };
    assert(text =~= first + seq!['\n'] + b);
    assert forall|k: int| 0 <= k < first.len() implies in_class(
        #[trigger] first[k],
        CharClass::NotOne('\n'),
    ) by {
        if k < a.len() {
            assert(first[k] == a[k]);
            assert(a.contains(a[k]));
        }
    }
    assert forall|k: int| 0 <= k < b.len() implies in_class(
        #[trigger] b[k],
        CharClass::NotOne('\n'),
    ) by {
        assert(b.contains(b[k]));
    }
    crate::rows::lemma_split_one(first, '\n');
    crate::rows::lemma_split_one(b, '\n');
    crate::rows::lemma_split_apart(first, '\n', b);
    let pieces = crate::text::split_on(text, '\n');
    assert(pieces =~= seq![first, b]);
    assert(text.last() == b.last());
    if has_suffix(text, "\n"@) {
        assert(text.subrange(text.len() - 1, text.len() as int)[0] == text.last());
        assert(b.contains(b.last()));
    }
    if has_suffix(b, "\r"@) {
        assert(b.subrange(b.len() - 1, b.len() as int)[0] == b.last());
    }
    if crlf {
        assert(first.subrange(first.len() - 1, first.len() as int) =~= "\r"@);
        assert(first.take(first.len() - 1) =~= a);
    } else if has_suffix(a, "\r"@) {
        assert(a.subrange(a.len() - 1, a.len() as int)[0] == a.last());
    }
}

/// With text behind it on its line, the opener of a block does not stand alone.
pub proof fn law_openers_with_text(c: CommentText, m: Seq<char>, text: Seq<char>, rest: Seq<char>)
    requires
        m == seq!['/', '*'] || m == seq!['/', '*', '*'] || m == seq!['/', '*', '!'],
        text.len() > 1 && text[0] == ' ' && !is_white(text.last()),
        !text.contains('\n'),
        c.text == m + text + (seq!['\n'] + rest),
    ensures
        c.opener_alone() == Some(false),
{
    let s = c.text;
    let line = m + text;
    let n = line.len() as int;
    assert forall|k: int| 0 <= k < n implies in_class(#[trigger] s[k], CharClass::NotOne('\n')) by {
        if k < m.len() {
            assert(s[k] == m[k]);
        } else {
            assert(s[k] == text[k - m.len()]);
            assert(text.contains(text[k - m.len()]));
        }
    }
    assert(s[n] == '\n');
    lemma_lead_len(s, CharClass::NotOne('\n'), n);
    assert(s.take(n) =~= line);
    assert(line.last() == text.last());
    crate::text::lemma_trail_len(line, CharClass::White, 0);
    assert(trimmed_end(line) =~= line);
    lemma_markers(line);
    assert(line[0] == '/' && line[1] == '*');
    assert(line[m.len() as int] == ' ');
    reveal_strlit("/*");
    reveal_strlit("/**");
    reveal_strlit("/*!");
    assert(line.len() >= 4);
}

} // verus!
