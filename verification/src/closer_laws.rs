//! The closers of comments that are otherwise left alone, and comments on directive lines.

use crate::bytes::span;
use crate::classify::{kind_of, style_of};
use crate::comment::{acsl_split_allowed, final_line, in_directive, CommentText};
use crate::comment_laws::{law_glued_closers_get_their_line, lemma_line_from, on_line_from};
use crate::directive::{bare_cr, cppcheck_suppress, spliced};
use crate::language::Language;
use crate::marker_laws::all_blank;
use crate::normalize::closer_split;
use crate::planner::{closer_splices, comment_splices};
use crate::reflow::is_block;
use crate::rewrite::{final_break, Splice};
use crate::text::{
    after_lead, before_trail, has_prefix, has_suffix, in_class, is_white, lemma_lead_len,
    lemma_trail_len, trimmed_end, trimmed_start, CharClass,
};
use vstd::prelude::*;
use vstd::utf8::encode_utf8;

verus! {

/// The last line of a comment is text with the closer behind it.
pub open spec fn closer_is_glued(
    c: CommentText,
    above: Seq<char>,
    nl: Seq<char>,
    lead: Seq<char>,
    text: Seq<char>,
    pad: Seq<char>,
) -> bool {
    &&& c.text == above + nl + (lead + text + pad + seq!['*', '/'])
    &&& nl == seq!['\n'] && (above.len() == 0 || above.last() != '\r') || nl == seq!['\r', '\n']
    &&& all_blank(lead) && all_blank(pad)
    &&& text.len() > 0 && !is_white(text[0]) && text[0] != '*' && !is_white(text.last())
    &&& !text.contains('\n')
}

/// What replaces such a comment.
proof fn lemma_replaced(
    src: Seq<char>,
    c: CommentText,
    above: Seq<char>,
    nl: Seq<char>,
    lead: Seq<char>,
    text: Seq<char>,
    pad: Seq<char>,
    indent: Option<Seq<char>>,
)
    requires
        closer_is_glued(c, above, nl, lead, text, pad),
        span(src, c.start_byte, c.end_byte) == c.text,
    ensures
        ({
            let new = above + nl + (lead + text) + nl + (match indent {
                Some(x) => x,
                None => lead,
            }) + seq!['*', '/'];
            &&& closer_split(c.text, indent) == Some(new)
            &&& crate::rewrite::replacement_of(c, new, src) == Some(
                Splice { start: c.start_byte, end: c.end_byte, text: new },
            )
        }),
{
    law_glued_closers_get_their_line(above, nl, lead, text, pad, indent);
    let x = match indent {
        Some(x) => x,
        None => lead,
    };
    let new = above + nl + (lead + text) + nl + x + seq!['*', '/'];
    assert(c.text.last() == '/');
    lemma_trail_len(c.text, CharClass::Two('\r', '\n'), 0);
    assert(final_break(c.text) =~= Seq::<char>::empty());
    assert(new + Seq::<char>::empty() =~= new);
    let k = (above.len() + nl.len() + lead.len() + text.len()) as int;
    assert(new[k] == nl[0]);
    assert(c.text[k] == (pad + seq!['*', '/'])[0]);
    if pad.len() > 0 {
        assert((pad + seq!['*', '/'])[0] == pad[0]);
    }
    assert(new != c.text);
}

/// A block behind code keeps its text, and its closer gets a line of its own behind the
/// indentation of the line it was on.
pub proof fn law_closers_of_trailing_blocks(
    src: Seq<char>,
    c: CommentText,
    above: Seq<char>,
    nl: Seq<char>,
    lead: Seq<char>,
    text: Seq<char>,
    pad: Seq<char>,
    prev: Option<CommentText>,
    lang: Language,
    limit: usize,
    tab_width: usize,
)
    requires
        closer_is_glued(c, above, nl, lead, text, pad),
        span(src, c.start_byte, c.end_byte) == c.text,
        c.is_trailing && !c.force_passthrough,
        c.param_shift is None && c.relocate_before is None,
        is_block(style_of(c.text)),
    ensures
        comment_splices(src, c, prev, lang, limit, tab_width) == seq![
            Splice {
                start: c.start_byte,
                end: c.end_byte,
                text: above + nl + (lead + text) + nl + lead + seq!['*', '/'],
            },
        ],
{
    lemma_replaced(src, c, above, nl, lead, text, pad, None);
    reveal(comment_splices);
    reveal(closer_splices);
    reveal(CommentText::left_alone);
    let kind = kind_of(c.text, lang);
    assert(c.page(kind, lang, limit) is None);
    assert(c.left_alone(kind, lang, limit));
    assert(!acsl_split_allowed(src, c, lang));
}

/// An annotation in C or C++ keeps its text too, and its closer gets a line of its own, one
/// column behind the indentation of the comment.
pub proof fn law_closers_of_annotations(
    src: Seq<char>,
    c: CommentText,
    above: Seq<char>,
    nl: Seq<char>,
    lead: Seq<char>,
    text: Seq<char>,
    pad: Seq<char>,
    prev: Option<CommentText>,
    lang: Language,
    limit: usize,
    tab_width: usize,
)
    requires
        closer_is_glued(c, above, nl, lead, text, pad),
        span(src, c.start_byte, c.end_byte) == c.text,
        !c.is_trailing && c.force_passthrough,
        c.param_shift is None,
        is_block(style_of(c.text)),
        lang == Language::C || lang == Language::Cpp,
        has_prefix(c.text, "/*@"@),
        !bare_cr(encode_utf8(src), c.start_byte, c.end_byte),
        !cppcheck_suppress(c.text),
        text[0] != '@' && text.last() != '@' && text.last() != '*',
    ensures
        comment_splices(src, c, prev, lang, limit, tab_width) == seq![
            Splice {
                start: c.start_byte,
                end: c.end_byte,
                text: above + nl + (lead + text) + nl + (c.line_indent_bytes + " "@) + seq!['*', '/'],
            },
        ],
{
    lemma_replaced(
        src,
        c,
        above,
        nl,
        lead,
        text,
        pad,
        Some(c.line_indent_bytes + " "@),
    );
    reveal(comment_splices);
    reveal(closer_splices);
    reveal(CommentText::left_alone);
    let last = lead + text + pad + seq!['*', '/'];
    let n = last.len() as int;
    let s = c.text;
    assert(final_line(s) == last) by {
        assert forall|k: int| s.len() - n <= k < s.len() implies in_class(
            #[trigger] s[k],
            CharClass::NotOne('\n'),
        ) by {
            let q = k - (s.len() - n);
            assert(s[k] == last[q]);
            if q < lead.len() {
                assert(last[q] == lead[q]);
            } else if q < lead.len() + text.len() {
                assert(last[q] == text[q - lead.len()]);
                assert(text.contains(text[q - lead.len()]));
            } else if q < lead.len() + text.len() + pad.len() {
                assert(last[q] == pad[q - lead.len() - text.len()]);
            }
        }
        assert(s[s.len() - n - 1] == '\n');
        lemma_trail_len(s, CharClass::NotOne('\n'), n);
        assert(s.skip(s.len() - n) =~= last);
    }
    lemma_trail_len(last, CharClass::White, 0);
    assert(trimmed_end(last) =~= last);
    reveal_strlit("@*/");
    reveal_strlit("*/");
    if has_suffix(last, "@*/"@) {
        assert(last.subrange(n - 3, n)[0] == last[n - 3]);
        if pad.len() > 0 {
            assert(last[n - 3] == pad[pad.len() - 1]);
        } else {
            assert(last[n - 3] == text.last());
        }
    }
    assert(last.subrange(n - 2, n) =~= "*/"@);
    let before = last.take(n - 2);
    assert(before =~= lead + text + pad);
    assert forall|k: int| 0 <= k < lead.len() implies in_class(
        #[trigger] lead[k],
        CharClass::White,
    ) by {}
    assert forall|k: int| 0 <= k < pad.len() implies in_class(#[trigger] pad[k], CharClass::White) by {}
    crate::directive_laws::lemma_trimmed_is(lead, text, pad);
    let k = CharClass::Two('@', '*');
    lemma_lead_len(text, k, 0);
    assert(after_lead(text, k) =~= text);
    lemma_trail_len(text, k, 0);
    assert(before_trail(text, k) =~= text);
    assert(acsl_split_allowed(src, c, lang));
    assert(c.left_alone(kind_of(c.text, lang), lang, limit));
}

/// A comment is part of a directive when its line starts with `#`, and also when the line above
/// runs on into its line and is part of one.
pub proof fn law_directives_run_on(src: Seq<char>, at: int, end: int, above: int)
    requires
        on_line_from(encode_utf8(src), at, end),
        ({
            let t = trimmed_start(span(src, at, end));
            t.len() > 0 && t[0] == '#'
        }) || ({
            let l = span(src, above, at - 1);
            &&& at > 0
            &&& on_line_from(encode_utf8(src), above, at - 1)
            &&& l.len() > 0 && l.last() == '\\'
            &&& in_directive(src, at - 1)
        }),
    ensures
        in_directive(src, end),
{
    let b = encode_utf8(src);
    lemma_line_from(b, at, end);
    let t = trimmed_start(span(src, at, end));
    if !(t.len() > 0 && t[0] == '#') {
        lemma_line_from(b, above, at - 1);
        let l = span(src, above, at - 1);
        reveal_strlit("\\");
        lemma_trail_len(l, CharClass::Three(' ', '\t', '\r'), 0);
        assert(before_trail(l, CharClass::Three(' ', '\t', '\r')) =~= l);
        assert(l.subrange(l.len() - 1, l.len() as int) =~= "\\"@);
        assert(spliced(l));
    }
}

/// A comment on a line without `#` is part of no directive where the line above does not run on.
pub proof fn law_other_lines_hold_no_directive(src: Seq<char>, at: int, end: int, above: int)
    requires
        on_line_from(encode_utf8(src), at, end),
        ({
            let t = trimmed_start(span(src, at, end));
            t.len() > 0 ==> t[0] != '#'
        }),
        at > 0 ==> on_line_from(encode_utf8(src), above, at - 1) && !span(
            src,
            above,
            at - 1,
        ).contains('\\'),
    ensures
        !in_directive(src, end),
{
    let b = encode_utf8(src);
    lemma_line_from(b, at, end);
    if at > 0 {
        lemma_line_from(b, above, at - 1);
        let l = span(src, above, at - 1);
        reveal_strlit("\\");
        let u = before_trail(l, CharClass::Three(' ', '\t', '\r'));
        crate::text::lemma_trail_len_facts(l, CharClass::Three(' ', '\t', '\r'));
        if has_suffix(u, "\\"@) {
            assert(u.subrange(u.len() - 1, u.len() as int)[0] == u[u.len() - 1]);
            assert(l[u.len() - 1] == '\\');
        }
    }
}

} // verus!
