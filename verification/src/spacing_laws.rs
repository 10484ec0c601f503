//! The blank line above a comment, as it stands in the source that a run leaves.

use crate::blank_lines::{
    above_of, lemma_blank_needed, lemma_needs_blank, lemma_untied, line_of, tied_above,
};
use crate::bytes::{
    lemma_encode_concat, lemma_encode_len, lemma_source_ends, line_start, span, span_ok,
};
use crate::classify::{kind_of, style_of, Style};
use crate::comment::CommentText;
use crate::directive::spliced;
use crate::final_form::emitted;
use crate::language::Language;
use crate::lines_before::{
    lemma_line_above, lemma_line_feed_byte, lemma_line_starts, lemma_lines_are, lemma_lines_of,
    lemma_no_carriage_return, open_line, whole_lines,
};
use crate::placement::{
    ahead_of, end_of, gets_blank, lemma_rewritten_is, lemma_span_join, lemma_span_middle, lie_apart,
    new_lead, new_text, new_upto,
};
use crate::planner::{
    blank_lead, comment_splices, in_place_splices, keeps_style, needs_blank, planned,
};
use crate::rewrite::{final_break, ordered, rewritten, rewritten_upto, Splice};
use crate::run_places::{lemma_split_out, new_rest};
use crate::text::{
    all_in, before_trail, has_prefix, has_suffix, in_class, is_white, lead_len, lemma_lead_len,
    lemma_lead_len_facts, lemma_trail_len, lemma_trail_len_facts, trail_len, trimmed, trimmed_end,
    trimmed_start, CharClass,
};
use vstd::prelude::*;
use vstd::utf8::{encode_utf8, encode_utf8_decode_utf8};

verus! {

/// `pre` is whole lines, `line` the line below them with its break `nl`, and `indent`
/// the blanks in front of a comment on the line below that.
pub open spec fn line_above(
    pre: Seq<char>,
    line: Seq<char>,
    nl: Seq<char>,
    indent: Seq<char>,
) -> bool {
    &&& pre.len() > 0 ==> pre.last() == '\n'
    &&& all_in(line, CharClass::NotOne('\n'))
    &&& line.len() > 0 ==> line.last() != '\r'
    &&& nl == "\n"@ || nl == "\r\n"@
    &&& all_in(indent, CharClass::Blank)
    &&& !has_suffix(trimmed_end(pre), "\\"@)
}

/// The comment stands between `front` and `rest`, on lines of its own and on several of
/// them, is no one else's, and does not move.
pub open spec fn stands_on_lines(
    front: Seq<char>,
    own: Seq<char>,
    rest: Seq<char>,
    c: CommentText,
) -> bool {
    &&& c.start_byte == encode_utf8(front).len()
    &&& c.end_byte == encode_utf8(front + own).len()
    &&& !c.is_trailing
    &&& !c.force_passthrough
    &&& c.param_shift is None
    &&& c.relocate_before is None
    &&& exists|i: int, j: int|
        0 <= i < j < c.text.len() && #[trigger] c.text[i] == '\n' && #[trigger] c.text[j] != '\n'
            && c.text[j] != '\r'
}

/// White space behind a text is trimmed with it.
pub proof fn lemma_trimmed_with(a: Seq<char>, w: Seq<char>)
    requires
        all_in(w, CharClass::White),
    ensures
        trimmed(a + w) == trimmed(a),
{
    let s = a + w;
    let n = lead_len(a, CharClass::White) as int;
    lemma_lead_len_facts(a, CharClass::White);
    if n == a.len() {
        assert forall|i: int| 0 <= i < s.len() implies in_class(
            #[trigger] s[i],
            CharClass::White,
        ) by {
            if i < n {
                assert(s[i] == a[i]);
            } else {
                assert(s[i] == w[i - n]);
            }
        }
        lemma_lead_len(s, CharClass::White, s.len() as int);
        assert(trimmed_start(s) =~= Seq::empty());
        assert(trimmed_start(a) =~= Seq::empty());
    } else {
        assert forall|i: int| 0 <= i < n implies in_class(#[trigger] s[i], CharClass::White) by {
            assert(s[i] == a[i]);
        }
        assert(s[n] == a[n]);
        lemma_lead_len(s, CharClass::White, n);
        let x = trimmed_start(a);
        assert(trimmed_start(s) =~= x + w);
        lemma_end_with(x, w);
    }
}

pub proof fn lemma_end_with(x: Seq<char>, w: Seq<char>)
    requires
        all_in(w, CharClass::White),
    ensures
        trimmed_end(x + w) == trimmed_end(x),
{
    let s = x + w;
    let m = trail_len(x, CharClass::White) as int;
    lemma_trail_len_facts(x, CharClass::White);
    let k = m + w.len();
    assert forall|i: int| s.len() - k <= i < s.len() implies in_class(
        #[trigger] s[i],
        CharClass::White,
    ) by {
        if i < x.len() {
            assert(s[i] == x[i]);
        } else {
            assert(s[i] == w[i - x.len()]);
        }
    }
    if k < s.len() {
        assert(s[s.len() - k - 1] == x[x.len() - m - 1]);
    }
    lemma_trail_len(s, CharClass::White, k);
    assert(trimmed_end(s) =~= trimmed_end(x));
}

/// What stands in front of a comment: the line above it, and what lies above that.
proof fn lemma_above(pre: Seq<char>, line: Seq<char>, nl: Seq<char>, indent: Seq<char>)
    requires
        line_above(pre, line, nl, indent),
    ensures
        ({
            let a = pre + line + nl + indent;
            &&& whole_lines(a) == pre + line + nl
            &&& open_line(a) == indent
            &&& above_of(a) == pre
            &&& line_of(a) == line + nl.drop_last()
            &&& trimmed(line_of(a) + seq!['\n']) == trimmed(line)
            &&& trimmed(line_of(a)) == trimmed(line)
            &&& !tied_above(a)
        }),
{
    reveal_strlit("\n");
    reveal_strlit("\r\n");
    reveal_strlit("\\");
    let a = pre + line + nl + indent;
    let h = pre + line + nl;
    assert(all_in(indent, CharClass::NotOne('\n'))) by {
        assert forall|i: int| 0 <= i < indent.len() implies in_class(
            #[trigger] indent[i],
            CharClass::NotOne('\n'),
        ) by {
            assert(in_class(indent[i], CharClass::Blank));
        }
    }
    assert(h.last() == '\n');
    lemma_lines_are(h, indent);
    let cr = nl.drop_last();
    let l = line + cr;
    assert(h.drop_last() =~= pre + l);
    assert(all_in(l, CharClass::NotOne('\n'))) by {
        assert forall|i: int| 0 <= i < l.len() implies in_class(
            #[trigger] l[i],
            CharClass::NotOne('\n'),
        ) by {
            if i < line.len() {
                assert(l[i] == line[i]);
            } else {
                assert(l[i] == nl[i - line.len()]);
            }
        }
    }
    lemma_lines_are(pre, l);
    let w = cr + seq!['\n'];
    assert(l + seq!['\n'] =~= line + w);
    lemma_trimmed_with(line, w);
    lemma_trimmed_with(line, cr);
    if tied_above(a) {
        let none = Seq::<char>::empty();
        assert(all_in(none, CharClass::NotOne('\n')));
        lemma_lines_are(pre, none);
        assert(pre + none =~= pre);
        lemma_not_spliced(pre);
    }
}

/// Lines that do not end in a backslash do not run on.
pub proof fn lemma_not_spliced(pre: Seq<char>)
    requires
        pre.len() > 0,
        pre.last() == '\n',
        !has_suffix(trimmed_end(pre), "\\"@),
    ensures
        !spliced(open_line(pre.drop_last())),
{
    reveal_strlit("\\");
    let g = pre.drop_last();
    lemma_lines_of(g);
    let t = open_line(g);
    if spliced(t) {
        let k = CharClass::Three(' ', '\t', '\r');
        let y = before_trail(t, k);
        lemma_trail_len_facts(t, k);
        let tail = t.skip(y.len() as int) + seq!['\n'];
        assert(y.subrange(y.len() - 1, y.len() as int)[0] == '\\');
        assert(y.last() == '\\');
        let x = whole_lines(g) + y;
        assert(t =~= y + t.skip(y.len() as int));
        assert(pre =~= g + seq!['\n']);
        assert(pre =~= x + tail);
        assert(all_in(tail, CharClass::White)) by {
            assert forall|i: int| 0 <= i < tail.len() implies in_class(
                #[trigger] tail[i],
                CharClass::White,
            ) by {
                if i < tail.len() - 1 {
                    assert(tail[i] == t[y.len() + i]);
                    assert(in_class(t[y.len() + i], k));
                }
            }
        }
        lemma_end_with(x, tail);
        assert(x.last() == '\\');
        crate::block_settling::lemma_trimmed_end(x);
        assert(x.subrange(x.len() - 1, x.len() as int) =~= "\\"@);
    }
}

/// A comment on several lines that is no one else's is laid out.
pub proof fn lemma_laid_out(c: CommentText, lang: Language, limit: usize)
    requires
        !c.is_trailing,
        !c.force_passthrough,
        exists|i: int, j: int|
            0 <= i < j < c.text.len() && #[trigger] c.text[i] == '\n' && #[trigger] c.text[j]
                != '\n' && c.text[j] != '\r',
    ensures
        !c.left_alone(kind_of(c.text, lang), lang, limit),
{
    reveal(CommentText::left_alone);
    let k = CharClass::Two('\r', '\n');
    let (i, j) = choose|i: int, j: int|
        0 <= i < j < c.text.len() && #[trigger] c.text[i] == '\n' && #[trigger] c.text[j] != '\n'
            && c.text[j] != '\r';
    let n = trail_len(c.text, k) as int;
    lemma_trail_len_facts(c.text, k);
    let body = before_trail(c.text, k);
    assert(c.text.len() - n > j) by {
        if c.text.len() - n <= j {
            assert(in_class(c.text[j], k));
        }
    }
    assert(body[i] == '\n');
    let brk = c.text.skip(body.len() as int);
    assert(c.text =~= body + brk);
    assert(!in_class(c.text[c.text.len() - n - 1], k));
    crate::source_laws::lemma_two_lines(body, brk, i);
}

/// The break of the line above is the one that a blank line goes in with.
proof fn lemma_blank_text(
    pre: Seq<char>,
    line: Seq<char>,
    nl: Seq<char>,
    indent: Seq<char>,
    own: Seq<char>,
    rest: Seq<char>,
    c: CommentText,
)
    requires
        line_above(pre, line, nl, indent),
        line.len() > 0,
        c.start_byte == encode_utf8(pre + line + nl + indent).len(),
    ensures
        ({
            let src = pre + line + nl + indent + own + rest;
            let h = pre + line + nl;
            &&& line_start(encode_utf8(src), c.start_byte) == encode_utf8(h).len()
            &&& blank_lead(src, c) == nl + indent
            &&& span(src, 0, encode_utf8(h).len() as int) == h
            &&& span_ok(src, 0, encode_utf8(h).len() as int)
        }),
{
    reveal_strlit("\n");
    reveal_strlit("\r\n");
    let src = pre + line + nl + indent + own + rest;
    let b = encode_utf8(src);
    let a = pre + line + nl + indent;
    let h = pre + line + nl;
    let r = own + rest;
    assert(a + r =~= src);
    lemma_above(pre, line, nl, indent);
    lemma_line_starts(a, r);
    let at = encode_utf8(h).len() as int;
    assert(h + indent + r =~= src);
    lemma_span_middle(h, indent, r);
    lemma_encode_concat(h, indent);
    let none = Seq::<char>::empty();
    lemma_span_middle(none, h, indent + r);
    assert(none + h + (indent + r) =~= src);
    assert(encode_utf8(none).len() == 0);
    let g = pre + line;
    let nlb = encode_utf8(nl);
    lemma_encode_concat(g, nl);
    lemma_encode_concat(h, indent + r);
    assert(h + (indent + r) =~= src);
    assert(g.last() == line.last());
    lemma_no_carriage_return(g);
    lemma_break_bytes();
    let gb = encode_utf8(g);
    if nl == "\r\n"@ {
        assert(b[at - 2] == nlb[0]);
    } else {
        assert(nl == "\n"@);
        assert(b[at - 2] == gb.last());
    }
}

proof fn lemma_break_bytes()
    ensures
        encode_utf8("\n"@) == seq![10u8],
        encode_utf8("\r\n"@) == seq![13u8, 10u8],
{
    reveal_strlit("\n");
    reveal_strlit("\r\n");
    lemma_line_feed_byte();
    assert("\n"@ =~= seq!['\n']);
    assert("\r\n"@ =~= seq!['\r'] + seq!['\n']);
    lemma_encode_concat(seq!['\r'], seq!['\n']);
    let s = seq!['\r'];
    assert(s.drop_first().len() == 0);
    assert(encode_utf8(s.drop_first()).len() == 0);
    assert((13u32 & 0x7fu32) as u8 == 13u8) by (bit_vector);
    assert(encode_utf8(s) =~= seq![13u8]);
    assert(encode_utf8("\r\n"@) =~= seq![13u8, 10u8]);
}

/// A text that starts with no hash is no directive.
proof fn lemma_no_directive(line: Seq<char>, first: bool, lang: Language)
    requires
        trimmed(line).len() > 0,
        trimmed(line)[0] != '#',
        trimmed(line)[0] != '\u{feff}',
    ensures
        !crate::planner::opens_hash_scope(line, first, lang),
{
    reveal_strlit("#");
    let t = trimmed(line);
    lemma_lead_len(t, CharClass::One('\u{feff}'), 0);
    let u = crate::text::after_lead(t, CharClass::One('\u{feff}'));
    assert(u =~= t);
    lemma_trimmed_opens(line);
    lemma_lead_len(u, CharClass::White, 0);
    assert(trimmed_start(u) =~= u);
    if has_prefix(u, "#"@) {
        assert(u.subrange(0, 1)[0] == u[0]);
    }
}

/// A trimmed text starts with no white space.
pub proof fn lemma_trimmed_opens(s: Seq<char>)
    ensures
        trimmed(s).len() > 0 ==> !is_white(trimmed(s)[0]) && !is_white(trimmed(s).last()),
{
    lemma_lead_len_facts(s, CharClass::White);
    let t = trimmed_start(s);
    lemma_trail_len_facts(t, CharClass::White);
    let u = trimmed(s);
    if u.len() > 0 {
        assert(u[0] == t[0]);
        assert(t[0] == s[lead_len(s, CharClass::White) as int]);
        assert(u.last() == t[t.len() - trail_len(t, CharClass::White) - 1]);
    }
}

/// A comment that sits flush on the line above it: that line holds something, does not
/// open a block or name a label, is no directive, and holds no comment; and no block
/// opens behind the comment. Such a line may be a statement, or a closing brace.
pub open spec fn sits_flush(
    pre: Seq<char>,
    line: Seq<char>,
    rest: Seq<char>,
    prev: Option<CommentText>,
    lang: Language,
) -> bool {
    let t = trimmed(line);
    let r = trimmed_start(rest);
    &&& t.len() > 0
    &&& t.last() != '{'
    &&& t.last() != ':'
    &&& t[0] != '#'
    &&& t[0] != '\u{feff}'
    &&& lang == Language::Asm ==> t[0] != '@' && t[0] != ';' && t[0] != '!' && t[0] != '|'
        && !(t.len() > 1 && t[0] == '/' && t[1] == '/')
    &&& prev is Some ==> prev->0.end_byte <= encode_utf8(pre).len()
    &&& !(r.len() > 0 && r[0] == '{')
}

/// An ordinary comment on several lines that sits flush needs a blank line.
proof fn lemma_flush_needs_blank(
    pre: Seq<char>,
    line: Seq<char>,
    nl: Seq<char>,
    indent: Seq<char>,
    own: Seq<char>,
    rest: Seq<char>,
    c: CommentText,
    prev: Option<CommentText>,
    lang: Language,
)
    requires
        line_above(pre, line, nl, indent),
        stands_on_lines(pre + line + nl + indent, own, rest, c),
        sits_flush(pre, line, rest, prev, lang),
        style_of(c.text) == Style::Line || style_of(c.text) == Style::Block,
    ensures
        needs_blank(
            pre + line + nl + indent + own + rest,
            c,
            style_of(c.text),
            true,
            prev,
            lang,
        ),
{
    reveal_strlit("{");
    reveal_strlit(":");
    reveal_strlit("//");
    let a = pre + line + nl + indent;
    let t = trimmed(line);
    lemma_above(pre, line, nl, indent);
    if has_suffix(t, "{"@) {
        assert(t.subrange(t.len() - 1, t.len() as int)[0] == t.last());
    }
    if has_suffix(t, ":"@) {
        assert(t.subrange(t.len() - 1, t.len() as int)[0] == t.last());
    }
    lemma_untied(a, own + rest);
    lemma_line_above(a, own + rest);
    assert(a + (own + rest) =~= a + own + rest);
    lemma_no_directive(line_of(a), encode_utf8(above_of(a)).len() == 0, lang);
    lemma_trimmed_opens(line);
    lemma_lead_len(t, CharClass::White, 0);
    assert(trimmed_start(t) =~= t);
    if has_prefix(t, "//"@) {
        assert(t.subrange(0, 2)[0] == t[0] && t.subrange(0, 2)[1] == t[1]);
    }
    lemma_blank_needed(a, own, rest, c, style_of(c.text), true, prev, lang);
}

/// What a run does to a comment on lines of its own that is laid out.
pub proof fn lemma_in_place(
    src: Seq<char>,
    c: CommentText,
    prev: Option<CommentText>,
    lang: Language,
    limit: usize,
    tab_width: usize,
)
    requires
        c.param_shift is None,
        c.relocate_before is None,
        !c.left_alone(kind_of(c.text, lang), lang, limit),
        emitted(c, lang, limit, tab_width).len() > 0,
        keeps_style(emitted(c, lang, limit, tab_width), style_of(c.text)),
    ensures
        comment_splices(src, c, prev, lang, limit, tab_width) == in_place_splices(
            src,
            c,
            emitted(c, lang, limit, tab_width),
            prev,
            lang,
        ),
{
    reveal(comment_splices);
    reveal(CommentText::normalized);
}

/// A source with one stretch replaced.
pub proof fn lemma_one_splice(src: Seq<char>, e: Splice)
    requires
        span_ok(src, 0, e.start),
        span_ok(src, e.end, encode_utf8(src).len() as int),
    ensures
        rewritten(src, seq![e]) == span(src, 0, e.start) + e.text + span(
            src,
            e.end,
            encode_utf8(src).len() as int,
        ),
{
    let v = seq![e];
    assert(ordered(v, 0) =~= Seq::empty());
    assert(ordered(v, 1) =~= v);
    assert(rewritten_upto(src, v, 0) =~= Seq::empty());
    assert(rewritten_upto(src, v, 1) =~= span(src, 0, e.start) + e.text);
}

/// The spacing rule: an ordinary comment on several lines that sits flush on the line
/// above gets one blank line, with the line break of the line above. Nothing else changes
/// but the comment's own text.
pub proof fn law_flush_comment_gets_one_blank_line(
    pre: Seq<char>,
    line: Seq<char>,
    nl: Seq<char>,
    indent: Seq<char>,
    own: Seq<char>,
    rest: Seq<char>,
    c: CommentText,
    prev: Option<CommentText>,
    lang: Language,
    limit: usize,
    tab_width: usize,
)
    requires
        line_above(pre, line, nl, indent),
        stands_on_lines(pre + line + nl + indent, own, rest, c),
        sits_flush(pre, line, rest, prev, lang),
        style_of(c.text) == Style::Line || style_of(c.text) == Style::Block,
        emitted(c, lang, limit, tab_width).contains('\n'),
        keeps_style(emitted(c, lang, limit, tab_width), style_of(c.text)),
    ensures
        ({
            let src = pre + line + nl + indent + own + rest;
            let text = emitted(c, lang, limit, tab_width) + final_break(own);
            rewritten(src, comment_splices(src, c, prev, lang, limit, tab_width)) == pre + line + nl
                + nl + indent + text + rest
        }),
{
    reveal(in_place_splices);
    let src = pre + line + nl + indent + own + rest;
    let a = pre + line + nl + indent;
    let h = pre + line + nl;
    let text = emitted(c, lang, limit, tab_width);
    let full = text + final_break(own);
    assert(trimmed(line).len() > 0 ==> line.len() > 0) by {
        if line.len() == 0 {
            lemma_lead_len(line, CharClass::White, 0);
        }
    }
    lemma_laid_out(c, lang, limit);
    lemma_flush_needs_blank(pre, line, nl, indent, own, rest, c, prev, lang);
    lemma_blank_text(pre, line, nl, indent, own, rest, c);
    lemma_in_place(src, c, prev, lang, limit, tab_width);
    lemma_span_middle(a, own, rest);
    lemma_encode_concat(a, own);
    lemma_encode_concat(a + own, rest);
    let none = Seq::<char>::empty();
    lemma_span_middle(a + own, rest, none);
    assert(a + own + rest + none =~= src);
    assert(span(src, c.start_byte, c.end_byte) == own);
    let e = Splice {
        start: encode_utf8(h).len() as int,
        end: c.end_byte,
        text: nl + indent + full,
    };
    assert(in_place_splices(src, c, text, prev, lang) =~= seq![e]);
    lemma_source_ends(src);
    lemma_one_splice(src, e);
    assert(h + (nl + indent + full) + rest =~= h + nl + indent + full + rest);
}

/// The spacing rule in a whole run, with other comments around: the blank line stands
/// right below the line that the comment sat on, and right above the comment.
#[verifier::spinoff_prover]
#[verifier::rlimit(60)]
pub proof fn law_flush_comment_gets_one_blank_line_in_a_run(
    pre: Seq<char>,
    line: Seq<char>,
    nl: Seq<char>,
    indent: Seq<char>,
    own: Seq<char>,
    rest: Seq<char>,
    comments: Seq<CommentText>,
    i: int,
    lang: Language,
    limit: usize,
    tab_width: usize,
)
    requires
        0 <= i < comments.len(),
        lie_apart(pre + line + nl + indent + own + rest, comments, lang, limit, tab_width),
        line_above(pre, line, nl, indent),
        stands_on_lines(pre + line + nl + indent, own, rest, comments[i]),
        sits_flush(pre, line, rest, ahead_of(comments, i), lang),
        style_of(comments[i].text) == Style::Line || style_of(comments[i].text) == Style::Block,
        emitted(comments[i], lang, limit, tab_width).contains('\n'),
        keeps_style(emitted(comments[i], lang, limit, tab_width), style_of(comments[i].text)),
    ensures
        ({
            let src = pre + line + nl + indent + own + rest;
            let text = emitted(comments[i], lang, limit, tab_width) + final_break(own);
            let above = new_upto(src, comments, i, lang, limit, tab_width) + span(
                src,
                end_of(comments, i),
                encode_utf8(pre).len() as int,
            );
            let below = new_rest(src, comments, i + 1, lang, limit, tab_width);
            rewritten(src, planned(src, comments, lang, limit, tab_width)) == above + line + nl + nl
                + indent + text + below
        }),
{
    let src = pre + line + nl + indent + own + rest;
    let c = comments[i];
    let text = emitted(c, lang, limit, tab_width) + final_break(own);
    lemma_gets_blank(pre, line, nl, indent, own, rest, comments, i, lang, limit, tab_width);
    lemma_rewritten_is(src, comments, lang, limit, tab_width);
    lemma_split_out(src, comments, i, lang, limit, tab_width);
    assert(comments[i].placed(src));
    if i > 0 {
        assert(comments[i - 1].placed(src));
    }
    assert(pre + (line + nl) + (indent + own + rest) =~= src);
    assert(pre + (line + nl) =~= pre + line + nl);
    lemma_source_ends(src);
    lemma_span_upto(pre, line + nl, indent + own + rest, end_of(comments, i));
    let u = new_upto(src, comments, i, lang, limit, tab_width);
    let below = new_rest(src, comments, i + 1, lang, limit, tab_width);
    let x = span(src, end_of(comments, i), encode_utf8(pre).len() as int);
    lemma_put_together(u, x, line, nl, indent, text, below);
}

proof fn lemma_put_together(
    u: Seq<char>,
    x: Seq<char>,
    line: Seq<char>,
    nl: Seq<char>,
    indent: Seq<char>,
    text: Seq<char>,
    below: Seq<char>,
)
    ensures
        u + ((x + (line + nl)) + (nl + indent) + text + below) == u + x + line + nl + nl + indent
            + text + below,
{
    assert(u + ((x + (line + nl)) + (nl + indent) + text + below) =~= u + x + line + nl + nl
        + indent + text + below);
}

/// The stretch from a place ahead to behind a line.
proof fn lemma_span_upto(pre: Seq<char>, mid: Seq<char>, z: Seq<char>, old: int)
    requires
        0 <= old <= encode_utf8(pre).len(),
        crate::bytes::at_boundary(pre + mid + z, old),
    ensures
        ({
            let src = pre + mid + z;
            let p = encode_utf8(pre).len() as int;
            span(src, old, encode_utf8(pre + mid).len() as int) == span(src, old, p) + mid
        }),
{
    let src = pre + mid + z;
    lemma_span_middle(pre, mid, z);
    lemma_encode_concat(pre, mid);
    lemma_span_join(
        src,
        old,
        encode_utf8(pre).len() as int,
        encode_utf8(pre + mid).len() as int,
    );
}

/// The comment gets a blank line in the run.
proof fn lemma_gets_blank(
    pre: Seq<char>,
    line: Seq<char>,
    nl: Seq<char>,
    indent: Seq<char>,
    own: Seq<char>,
    rest: Seq<char>,
    comments: Seq<CommentText>,
    i: int,
    lang: Language,
    limit: usize,
    tab_width: usize,
)
    requires
        0 <= i < comments.len(),
        line_above(pre, line, nl, indent),
        stands_on_lines(pre + line + nl + indent, own, rest, comments[i]),
        sits_flush(pre, line, rest, ahead_of(comments, i), lang),
        style_of(comments[i].text) == Style::Line || style_of(comments[i].text) == Style::Block,
        emitted(comments[i], lang, limit, tab_width).contains('\n'),
        keeps_style(emitted(comments[i], lang, limit, tab_width), style_of(comments[i].text)),
    ensures
        ({
            let src = pre + line + nl + indent + own + rest;
            let h = encode_utf8(pre + line + nl).len() as int;
            &&& gets_blank(src, comments, i, lang, limit, tab_width)
            &&& new_text(src, comments[i], lang, limit, tab_width) == emitted(
                comments[i],
                lang,
                limit,
                tab_width,
            ) + final_break(own)
            &&& new_lead(src, comments, i, lang, limit, tab_width) == span(
                src,
                end_of(comments, i),
                h,
            ) + (nl + indent)
        }),
{
    let src = pre + line + nl + indent + own + rest;
    let c = comments[i];
    let a = pre + line + nl + indent;
    assert(line.len() > 0) by {
        if line.len() == 0 {
            lemma_lead_len(line, CharClass::White, 0);
        }
    }
    lemma_laid_out(c, lang, limit);
    lemma_flush_needs_blank(pre, line, nl, indent, own, rest, c, ahead_of(comments, i), lang);
    lemma_blank_text(pre, line, nl, indent, own, rest, c);
    lemma_span_middle(a, own, rest);
    lemma_encode_concat(a, own);
}

/// The line above keeps a comment flush: there is nothing on it, it opens a block or names
/// a label, a comment ends on it, it opens a conditional, or it is the first line of a script or
/// a line comment of assembly; or a block opens right behind the comment.
pub open spec fn belongs_flush(
    pre: Seq<char>,
    line: Seq<char>,
    nl: Seq<char>,
    rest: Seq<char>,
    prev: Option<CommentText>,
    lang: Language,
) -> bool {
    let t = trimmed(line);
    let r = trimmed_start(rest);
    ||| t.len() == 0
    ||| t.last() == '{'
    ||| t.last() == ':'
    ||| t[0] == '#' && (has_prefix(trimmed_start(t.skip(1)), "if"@) || has_prefix(
        trimmed_start(t.skip(1)),
        "else"@,
    ) || has_prefix(trimmed_start(t.skip(1)), "elif"@))
    ||| prev is Some && prev->0.start_byte < encode_utf8(pre + line + nl).len()
        && prev->0.end_byte > encode_utf8(pre).len()
    ||| r.len() > 0 && r[0] == '{'
    ||| lang == Language::Shell && pre.len() == 0 && t.len() > 1 && t[0] == '#' && t[1] == '!'
    ||| lang == Language::Asm && (t[0] == '#' || t[0] == '@' || t[0] == ';' || t[0] == '!' || t[0]
        == '|' || (t.len() > 1 && t[0] == '/' && t[1] == '/'))
}

/// No blank line goes in where the line above keeps the comment flush, nor above a
/// documentation comment, nor above a comment on one line: the comment's text is all that
/// changes.
pub proof fn law_no_blank_line_where_none_belongs(
    pre: Seq<char>,
    line: Seq<char>,
    nl: Seq<char>,
    indent: Seq<char>,
    own: Seq<char>,
    rest: Seq<char>,
    c: CommentText,
    prev: Option<CommentText>,
    lang: Language,
    limit: usize,
    tab_width: usize,
)
    requires
        line_above(pre, line, nl, indent),
        stands_on_lines(pre + line + nl + indent, own, rest, c),
        belongs_flush(pre, line, nl, rest, prev, lang) || style_of(c.text) == Style::DocLine || style_of(
            c.text,
        ) == Style::DocBlock || !emitted(c, lang, limit, tab_width).contains('\n'),
        emitted(c, lang, limit, tab_width).len() > 0,
        keeps_style(emitted(c, lang, limit, tab_width), style_of(c.text)),
    ensures
        ({
            let src = pre + line + nl + indent + own + rest;
            let text = emitted(c, lang, limit, tab_width) + final_break(own);
            rewritten(src, comment_splices(src, c, prev, lang, limit, tab_width)) == pre + line + nl
                + indent + text + rest
        }),
{
    reveal(in_place_splices);
    let src = pre + line + nl + indent + own + rest;
    let a = pre + line + nl + indent;
    let text = emitted(c, lang, limit, tab_width);
    let full = text + final_break(own);
    lemma_laid_out(c, lang, limit);
    lemma_stays_flush(
        pre,
        line,
        nl,
        indent,
        own,
        rest,
        c,
        text.contains('\n'),
        prev,
        lang,
    );
    lemma_in_place(src, c, prev, lang, limit, tab_width);
    lemma_span_middle(a, own, rest);
    lemma_encode_concat(a, own);
    lemma_encode_concat(a + own, rest);
    let none = Seq::<char>::empty();
    lemma_span_middle(a + own, rest, none);
    assert(a + own + rest + none =~= src);
    lemma_span_middle(none, a, own + rest);
    assert(none + a + (own + rest) =~= src);
    assert(encode_utf8(none).len() == 0);
    lemma_source_ends(src);
    if full == own {
        assert(in_place_splices(src, c, text, prev, lang) =~= Seq::empty());
        crate::plan_laws::law_no_replacement_no_change(src);
    } else {
        let e = Splice { start: c.start_byte, end: c.end_byte, text: full };
        assert(in_place_splices(src, c, text, prev, lang) =~= seq![e]);
        lemma_one_splice(src, e);
    }
}

proof fn lemma_stays_flush(
    pre: Seq<char>,
    line: Seq<char>,
    nl: Seq<char>,
    indent: Seq<char>,
    own: Seq<char>,
    rest: Seq<char>,
    c: CommentText,
    multiline: bool,
    prev: Option<CommentText>,
    lang: Language,
)
    requires
        line_above(pre, line, nl, indent),
        stands_on_lines(pre + line + nl + indent, own, rest, c),
        belongs_flush(pre, line, nl, rest, prev, lang) || style_of(c.text) == Style::DocLine || style_of(
            c.text,
        ) == Style::DocBlock || !multiline,
    ensures
        !needs_blank(
            pre + line + nl + indent + own + rest,
            c,
            style_of(c.text),
            multiline,
            prev,
            lang,
        ),
{
    reveal_strlit("{");
    reveal_strlit(":");
    reveal_strlit("#");
    let a = pre + line + nl + indent;
    let t = trimmed(line);
    if needs_blank(a + own + rest, c, style_of(c.text), multiline, prev, lang) {
        lemma_above(pre, line, nl, indent);
        lemma_needs_blank(a, own, rest, c, style_of(c.text), multiline, prev, lang);
        if t.len() > 0 {
            assert(t.subrange(t.len() - 1, t.len() as int) =~= seq![t.last()]);
            assert("{"@ =~= seq!['{']);
            assert(":"@ =~= seq![':']);
            if t[0] == '#' {
                lemma_lead_len(t, CharClass::One('\u{feff}'), 0);
                assert(crate::text::after_lead(t, CharClass::One('\u{feff}')) =~= t);
                lemma_lead_len(t, CharClass::White, 0);
                assert(trimmed_start(t) =~= t);
                assert(t.subrange(0, 1) =~= "#"@);
                if t.len() > 1 {
                    assert(t.skip(1)[0] == t[1]);
                }
            }
            reveal_strlit("//");
            assert(!crate::text::is_white(t[0])) by {
                crate::ordinary_prose::lemma_trimmed_at(line);
                lemma_lead_len_facts(line, CharClass::White);
            }
            lemma_lead_len(t, CharClass::White, 0);
            assert(trimmed_start(t) =~= t);
            if t.len() > 1 && t[0] == '/' && t[1] == '/' {
                assert(t.subrange(0, 2) =~= "//"@);
            }
            if pre.len() == 0 {
                crate::bytes::lemma_encode_len(pre);
                assert(pre =~= Seq::<char>::empty());
            }
        }
    }
}

} // verus!
