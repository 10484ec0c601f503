//! Which neighbouring comments are read as one, and how the one is written.

use crate::bytes::span;
use crate::comment::CommentText;
use crate::marker_laws::{
    all_blank, holds_at, lemma_blanks, lemma_documentation, lemma_markers, opens_documentation,
    opens_with,
};
use crate::merge::{
    block_texts, crlf_count, dominant_ending, has_laid_out_line, inner_line_text, laid_out,
    less_blank_edges, marker_of, merged_block, merged_from, merged_run, merges, one_break_between,
    one_line_text, run_end, run_texts, Marker,
};
use crate::ordinary_prose::{lemma_no_drawing, lemma_no_table, ordinary_line};
use crate::rows::lemma_split_one;
use crate::shape_laws::lemma_prefixed;
use crate::text::{
    after_lead, has_text, in_class, is_white, joined, lead_len, lemma_lead_len, sub_at, trimmed,
    trimmed_end, trimmed_start, CharClass,
};
use vstd::prelude::*;

verus! {

/// Two comments with the same line marker: as many slashes, or as many hashes.
pub open spec fn same_line_marker(a: Seq<char>, b: Seq<char>, n: int) -> bool {
    ||| {
        &&& opens_with(a, '/', '/') && opens_with(b, '/', '/')
        &&& holds_at(a, 2, '/') == holds_at(b, 2, '/')
        &&& holds_at(a, 2, '!') == holds_at(b, 2, '!')
    }
    ||| {
        &&& 0 < n <= a.len() && n <= b.len()
        &&& forall|k: int| 0 <= k < n ==> #[trigger] a[k] == '#'
        &&& forall|k: int| 0 <= k < n ==> #[trigger] b[k] == '#'
        &&& !holds_at(a, n, '#') && !holds_at(b, n, '#')
        &&& !holds_at(a, 1, '!') && !holds_at(b, 1, '!')
    }
}

/// The second comment stands right below the first, at the same column; neither shares its line
/// with code, and no tool reads either.
pub open spec fn stands_below(
    a: CommentText,
    b: CommentText,
    src: Seq<char>,
    pad: Seq<char>,
) -> bool {
    &&& !a.force_passthrough && !b.force_passthrough
    &&& !a.is_trailing && !b.is_trailing
    &&& a.start_col_byte == b.start_col_byte
    &&& a.end_byte < b.start_byte
    &&& forall|k: int| 0 <= k < pad.len() ==> is_white(#[trigger] pad[k]) && pad[k] != '\n'
    &&& !b.line_indent_bytes.contains('\n')
    &&& span(src, a.end_byte, b.start_byte) == pad + (seq!['\n'] + b.line_indent_bytes)
}

proof fn lemma_one_break(pad: Seq<char>, indent: Seq<char>)
    requires
        forall|k: int| 0 <= k < pad.len() ==> is_white(#[trigger] pad[k]) && pad[k] != '\n',
        !indent.contains('\n'),
    ensures
        one_break_between(pad + (seq!['\n'] + indent), indent),
{
    let s = pad + (seq!['\n'] + indent);
    let n = pad.len() as int;
    assert forall|k: int| 0 <= k < n implies in_class(#[trigger] s[k], CharClass::NotOne('\n')) by {
        assert(s[k] == pad[k]);
    }
    assert(s[n] == '\n');
    lemma_lead_len(s, CharClass::NotOne('\n'), n);
    assert(s.take(n) =~= pad);
    assert(s.skip(n + 1) =~= indent);
    assert(trimmed(pad).len() == 0) by {
        assert forall|k: int| 0 <= k < pad.len() implies in_class(
            #[trigger] pad[k],
            CharClass::White,
        ) by {}
        lemma_lead_len(pad, CharClass::White, n);
        assert(trimmed_start(pad) =~= Seq::<char>::empty());
    }
}

/// Line comments with the same marker on neighbouring lines are one comment.
pub proof fn law_line_comments_run_on(
    a: CommentText,
    b: CommentText,
    src: Seq<char>,
    pad: Seq<char>,
    n: int,
)
    requires
        stands_below(a, b, src, pad),
        same_line_marker(a.text, b.text, n),
    ensures
        merges(a, b, src),
        ({
            let all = merged_from(seq![a, b], 0, src);
            &&& all.len() == 1
            &&& all[0].start_byte == a.start_byte
            &&& all[0].end_byte == b.end_byte
            &&& all[0].text == span(src, a.start_byte, b.end_byte)
        }),
{
    lemma_one_break(pad, b.line_indent_bytes);
    lemma_markers(a.text);
    lemma_markers(b.text);
    if !opens_with(a.text, '/', '/') {
        assert(a.text[0] == '#' && b.text[0] == '#');
        lemma_lead_len(a.text, CharClass::One('#'), n);
        lemma_lead_len(b.text, CharClass::One('#'), n);
    }
    assert(marker_of(a.text) is Some && marker_of(a.text) == marker_of(b.text));
    assert(marker_of(a.text) != Some(Marker::PlainBlock));
    let v = seq![a, b];
    assert(v[0] == a && v[1] == b);
    assert(run_end(v, 1, src) == 1);
    assert(run_end(v, 0, src) == 1);
    let one = merged_run(v, 0, 1, src);
    assert(merged_from(v, 2, src) =~= Seq::<CommentText>::empty());
    assert(merged_from(v, 0, src) =~= seq![one]);
}

/// What keeps two comments apart: code on the line of one, a tool that reads one, another
/// column, a blank line between them, other markers, a documentation block, or a licence tag
/// that has the first lines of the file.
pub proof fn law_what_keeps_comments_apart(a: CommentText, b: CommentText, src: Seq<char>, i: int, j: int)
    requires
        ({
            let between = span(src, a.end_byte, b.start_byte);
            ||| a.is_trailing || b.is_trailing
            ||| a.force_passthrough || b.force_passthrough
            ||| a.start_col_byte != b.start_col_byte
            ||| 0 <= i < j < between.len() && between[i] == '\n' && between[j] == '\n'
            ||| holds_at(a.text, 2, '/') != holds_at(b.text, 2, '/') && opens_with(a.text, '/', '/')
            ||| holds_at(a.text, 2, '!') != holds_at(b.text, 2, '!') && opens_with(a.text, '/', '/')
            ||| opens_with(a.text, '/', '/') != opens_with(b.text, '/', '/')
            ||| opens_documentation(a.text) || opens_documentation(b.text)
            ||| opens_with(a.text, '#', '!') || opens_with(b.text, '#', '!')
            ||| a.at_file_start && opens_with(a.text, '/', '*') && sub_at(
                a.text,
                "SPDX-License-Identifier"@,
                i,
            )
        }),
    ensures
        !merges(a, b, src),
{
    let between = span(src, a.end_byte, b.start_byte);
    lemma_markers(a.text);
    lemma_markers(b.text);
    lemma_documentation(a.text);
    lemma_documentation(b.text);
    if 0 <= i < j < between.len() && between[i] == '\n' && between[j] == '\n' {
        let n = lead_len(between, CharClass::NotOne('\n')) as int;
        crate::text::lemma_lead_len_facts(between, CharClass::NotOne('\n'));
        assert(n <= i) by {
            if n > i {
                assert(in_class(between[i], CharClass::NotOne('\n')));
            }
        }
        assert(between.skip(n + 1)[j - n - 1] == '\n');
    }
    if sub_at(a.text, "SPDX-License-Identifier"@, i) {
        assert(has_text(a.text, "SPDX-License-Identifier"@));
    }
}

/// A block on one line.
pub open spec fn is_one_line(c: CommentText, x: Seq<char>) -> bool {
    &&& c.text == seq!['/', '*', ' '] + x + seq![' ', '*', '/']
    &&& x.len() > 0
    &&& !is_white(x[0]) && !is_white(x.last())
    &&& !x.contains('\n')
}

proof fn lemma_one_line(c: CommentText, x: Seq<char>)
    requires
        is_one_line(c, x),
    ensures
        block_texts(c.text) == seq![x],
        trimmed(x) == x,
        marker_of(c.text) == Some(Marker::PlainBlock),
{
    let s = c.text;
    reveal_strlit("/*");
    reveal_strlit("*/");
    reveal_strlit(" ");
    assert forall|k: int| 0 <= k < s.len() implies in_class(
        #[trigger] s[k],
        CharClass::NotOne('\n'),
    ) by {
        if 3 <= k < 3 + x.len() {
            assert(s[k] == x[k - 3]);
        }
    }
    lemma_split_one(s, '\n');
    lemma_lead_len(s, CharClass::White, 0);
    assert(trimmed_start(s) =~= s);
    let a = seq![' '] + x + seq![' ', '*', '/'];
    assert(s =~= "/*"@ + a);
    lemma_prefixed("/*"@, a);
    assert(a.subrange(a.len() - 2, a.len() as int) =~= "*/"@);
    let b = a.take(a.len() - 2);
    assert(b =~= seq![' '] + x + seq![' ']);
    assert(b[b.len() - 2] == x.last());
    crate::text::lemma_trail_len(b, CharClass::White, 1);
    assert(trimmed_end(b) =~= " "@ + x);
    lemma_prefixed(" "@, x);
    assert(one_line_text(s) == x);
    crate::directive_laws::lemma_trimmed_is(Seq::empty(), x, Seq::empty());
    assert(Seq::<char>::empty() + x + Seq::<char>::empty() =~= x);
    lemma_markers(s);
    lemma_documentation(s);
}

proof fn lemma_not_laid_out(x: Seq<char>)
    requires
        ordinary_line(x),
        x.len() > 0,
        !is_white(x[0]) && !is_white(x.last()),
    ensures
        !laid_out(x),
{
    crate::directive_laws::lemma_trimmed_is(Seq::empty(), x, Seq::empty());
    assert(Seq::<char>::empty() + x + Seq::<char>::empty() =~= x);
    lemma_no_table(x);
    lemma_no_drawing(x);
    assert(x[0] != '`' && x[0] != '~' && x[0] != '@' && x[0] != '\\');
    reveal_strlit("@code");
    reveal_strlit("\\code");
    reveal_strlit("@verbatim");
    reveal_strlit("\\verbatim");
    lemma_lead_len(x, CharClass::Blank, 0);
    assert(crate::text::after_lead(x, CharClass::Blank) =~= x);
    if crate::merge::opens_command(x, "@code"@) {
        assert(x.subrange(0, 5)[0] == x[0] || x == "@code"@);
    }
    if crate::merge::opens_command(x, "\\code"@) {
        assert(x.subrange(0, 5)[0] == x[0] || x == "\\code"@);
    }
    if crate::merge::opens_command(x, "@verbatim"@) {
        assert(x.subrange(0, 9)[0] == x[0] || x == "@verbatim"@);
    }
    if crate::merge::opens_command(x, "\\verbatim"@) {
        assert(x.subrange(0, 9)[0] == x[0] || x == "\\verbatim"@);
    }
}

proof fn lemma_no_crlf(s: Seq<char>)
    requires
        !s.contains('\r'),
    ensures
        crlf_count(s) == 0,
    decreases s.len(),
{
    if s.len() > 0 {
        assert forall|k: int| 0 <= k < s.len() - 1 implies s.drop_last()[k] != '\r' by {
            assert(s.contains(s[k]));
        }
        lemma_no_crlf(s.drop_last());
        if s.len() > 1 {
            assert(s.contains(s[s.len() - 2]));
        }
    }
}

/// Two plain blocks of one line each on neighbouring lines become one block of two lines, whose
/// opener stands alone at the start of the file.
pub proof fn law_one_line_blocks_run_on(
    a: CommentText,
    b: CommentText,
    src: Seq<char>,
    pad: Seq<char>,
    x: Seq<char>,
    y: Seq<char>,
)
    requires
        stands_below(a, b, src, pad),
        is_one_line(a, x) && is_one_line(b, y),
        ordinary_line(x) && ordinary_line(y),
        !(a.at_file_start && has_text(a.text, "SPDX-License-Identifier"@)),
        !span(src, a.start_byte, b.end_byte).contains('\r'),
    ensures
        ({
            let all = merged_from(seq![a, b], 0, src);
            &&& all.len() == 1
            &&& all[0].start_byte == a.start_byte
            &&& all[0].end_byte == b.end_byte
            &&& all[0].text == if a.at_file_start {
                "/*"@ + "\n"@ + (" * "@ + x) + "\n"@ + (" * "@ + y) + "\n"@ + " */"@
            } else {
                ("/* "@ + x) + "\n"@ + (" * "@ + y) + "\n"@ + " */"@
            }
        }),
{
    lemma_one_break(pad, b.line_indent_bytes);
    lemma_one_line(a, x);
    lemma_one_line(b, y);
    lemma_not_laid_out(x);
    lemma_not_laid_out(y);
    assert(block_texts(a.text)[0] == x && block_texts(b.text)[0] == y);
    assert(!has_laid_out_line(a.text) && !has_laid_out_line(b.text));
    assert(merges(a, b, src));
    let v = seq![a, b];
    assert(v[0] == a && v[1] == b);
    assert(run_end(v, 1, src) == 1);
    assert(run_end(v, 0, src) == 1);
    let one = merged_run(v, 0, 1, src);
    assert(merged_from(v, 2, src) =~= Seq::<CommentText>::empty());
    assert(merged_from(v, 0, src) =~= seq![one]);
    let s = span(src, a.start_byte, b.end_byte);
    lemma_no_crlf(s);
    assert(dominant_ending(s) == "\n"@);
    assert(v.subrange(0, 2) =~= v);
    lemma_two_texts(a, b, x, y);
    lemma_merged_two(a, b, x, y, s);
}

proof fn lemma_two_texts(a: CommentText, b: CommentText, x: Seq<char>, y: Seq<char>)
    requires
        is_one_line(a, x) && is_one_line(b, y),
    ensures
        less_blank_edges(run_texts(seq![a, b], 2)) == seq![x, y],
{
    lemma_one_line(a, x);
    lemma_one_line(b, y);
    let v = seq![a, b];
    let none = Seq::<Seq<char>>::empty();
    assert(run_texts(v, 0) == none);
    assert(run_texts(v, 1) =~= seq![x]) by {
        let own = block_texts(v[0].text);
        assert(own == seq![x]);
        assert(Seq::new(own.len(), |i: int| trimmed(own[i])) =~= seq![x]);
        assert(none + seq![x] =~= seq![x]);
    }
    assert(run_texts(v, 2) =~= seq![x, y]) by {
        let own = block_texts(v[1].text);
        assert(own == seq![y]);
        assert(Seq::new(own.len(), |i: int| trimmed(own[i])) =~= seq![y]);
        assert(seq![x] + seq![y] =~= seq![x, y]);
    }
}

proof fn lemma_merged_two(a: CommentText, b: CommentText, x: Seq<char>, y: Seq<char>, s: Seq<char>)
    requires
        less_blank_edges(run_texts(seq![a, b], 2)) == seq![x, y],
        dominant_ending(s) == "\n"@,
        x.len() > 0 && y.len() > 0,
    ensures
        merged_block(seq![a, b], s) == if a.at_file_start {
            "/*"@ + "\n"@ + (" * "@ + x) + "\n"@ + (" * "@ + y) + "\n"@ + " */"@
        } else {
            ("/* "@ + x) + "\n"@ + (" * "@ + y) + "\n"@ + " */"@
        },
{
    let lines = seq![x, y];
    let nl = "\n"@;
    assert(seq![a, b].len() == 2);
    if a.at_file_start {
        let rows = (seq!["/*"@] + crate::merge::star_lines(lines)).push(" */"@);
        assert(rows =~= seq!["/*"@, " * "@ + x, " * "@ + y, " */"@]);
        lemma_joined_four("/*"@, " * "@ + x, " * "@ + y, " */"@, nl);
    } else {
        let rows = (seq!["/* "@ + x] + crate::merge::star_lines(lines.skip(1))).push(" */"@);
        assert(rows =~= seq!["/* "@ + x, " * "@ + y, " */"@]);
        lemma_joined_three("/* "@ + x, " * "@ + y, " */"@, nl);
    }
}

proof fn lemma_joined_three(p: Seq<char>, q: Seq<char>, r: Seq<char>, sep: Seq<char>)
    ensures
        joined(seq![p, q, r], sep) == p + sep + q + sep + r,
{
    assert(seq![p, q, r].drop_last() =~= seq![p, q]);
    assert(seq![p, q].drop_last() =~= seq![p]);
    assert(joined(seq![p], sep) == p);
    assert(joined(seq![p, q], sep) == p + sep + q);
}

proof fn lemma_joined_four(p: Seq<char>, q: Seq<char>, r: Seq<char>, t: Seq<char>, sep: Seq<char>)
    ensures
        joined(seq![p, q, r, t], sep) == p + sep + q + sep + r + sep + t,
{
    assert(seq![p, q, r, t].drop_last() =~= seq![p, q, r]);
    lemma_joined_three(p, q, r, sep);
}

/// A block with a row of a table, a fence or a command that shows text keeps to itself.
pub proof fn law_laid_out_blocks_stay_apart(
    a: CommentText,
    b: CommentText,
    src: Seq<char>,
    x: Seq<char>,
    i: int,
    j: int,
)
    requires
        is_one_line(a, x) || is_one_line(b, x),
        'a' <= x.last() <= 'z',
        ({
            ||| 0 <= i < j < x.len() && x[i] == '|' && x[j] == '|'
            ||| x.len() > 3 && x[0] == '~' && x[1] == '~' && x[2] == '~'
            ||| x.len() > 3 && x[0] == '`' && x[1] == '`' && x[2] == '`' && (forall|k: int|
                3 <= k < x.len() ==> #[trigger] x[k] != '`')
            ||| x == "@code"@ || x == "\\code"@ || x == "@verbatim"@ || x == "\\verbatim"@
        }),
    ensures
        !merges(a, b, src),
{
    let c = if is_one_line(a, x) {
        a
    } else {
        b
    };
    lemma_one_line(c, x);
    assert(laid_out(x)) by {
        assert(!crate::textline::horizontal_rule(x)) by {
            assert(!in_class(x[x.len() - 1], CharClass::One('-')));
            assert(!in_class(x[x.len() - 1], CharClass::Rule));
            if crate::textline::horizontal_rule(x) {
                assert(in_class(x[x.len() - 1], CharClass::One(x[0])));
            }
        }
        if 0 <= i < j < x.len() && x[i] == '|' && x[j] == '|' {
            crate::shape_laws::lemma_counted_two(x, CharClass::One('|'), i, j);
        } else if x.len() > 3 && (x[0] == '~' || x[0] == '`') {
            lemma_lead_len(x, CharClass::Blank, 0);
            assert(crate::text::after_lead(x, CharClass::Blank) =~= x);
            let k = CharClass::One(x[0]);
            let n = lead_len(x, k) as int;
            crate::text::lemma_lead_len_facts(x, k);
            assert(n >= 3) by {
                reveal_strlit("@code");
                reveal_strlit("\\code");
                reveal_strlit("@verbatim");
                reveal_strlit("\\verbatim");
                assert("@code"@[0] == '@' && "\\code"@[0] == '\\');
                assert("@verbatim"@[0] == '@' && "\\verbatim"@[0] == '\\');
                assert(x[1] == x[0] && x[2] == x[0]);
                if n < 3 {
                    assert(!in_class(x[n], k));
                    assert(n == 0 || n == 1 || n == 2);
                }
            }
            if x[0] == '`' {
                let rest = x.skip(n);
                if rest.contains('`') {
                    let q = choose|q: int| 0 <= q < rest.len() && rest[q] == '`';
                    assert(x[n + q] == '`');
                }
            }
        }
    }
    assert(block_texts(c.text)[0] == x);
    assert(has_laid_out_line(c.text));
}

/// A rule keeps no block to itself: it is decoration.
pub proof fn law_rules_do_not_keep_blocks_apart(x: Seq<char>)
    requires
        crate::decoration_laws::is_rule(trimmed(x)),
    ensures
        !laid_out(x),
{
    let t = trimmed(x);
    crate::ordinary_prose::lemma_trimmed_at(x);
    crate::directive_laws::lemma_trimmed_is(Seq::empty(), t, Seq::empty());
    assert(Seq::<char>::empty() + t + Seq::<char>::empty() =~= t);
    assert forall|k: int| 0 <= k < t.len() implies in_class(#[trigger] t[k], CharClass::One(t[0])) by {
        assert(t[k] == t[0]);
    }
    assert(in_class(t[0], CharClass::Rule));
}

/// The text lines of a block on several lines: behind the opener, behind the star of a line in
/// between, and in front of the closer.
pub proof fn law_lines_of_blocks_hold_their_text(ws: Seq<char>, x: Seq<char>)
    requires
        all_blank(ws),
        x.len() > 0,
        !is_white(x[0]) && x[0] != '*' && x[0] != '/' && !is_white(x.last()),
        x.last() != '/',
    ensures
        inner_line_text(seq!['/', '*', ' '] + x, true, false) == x,
        inner_line_text(ws + (seq!['*', ' '] + x), false, false) == x,
        inner_line_text(ws + (seq!['*', '*', ' '] + x), false, false) == x,
        inner_line_text(ws + x, false, false) == x,
        inner_line_text(ws + (seq!['*', ' '] + x + seq![' ', '*', '/']), false, true) == x,
        inner_line_text(ws + seq!['*', '/'], false, true).len() == 0,
{
    lemma_opener_line(x);
    lemma_lines_between(ws, x);
    lemma_closer_line(ws, x);
    lemma_bare_closer(ws);
}

proof fn lemma_opener_line(x: Seq<char>)
    requires
        x.len() > 0,
        !is_white(x[0]) && x[0] != '*' && !is_white(x.last()),
    ensures
        inner_line_text(seq!['/', '*', ' '] + x, true, false) == x,
{
    reveal_strlit("/*");
    lemma_text_stays(x);
    let a = seq!['/', '*', ' '] + x;
    lemma_lead_len(a, CharClass::Blank, 0);
    assert(after_lead(a, CharClass::Blank) =~= a);
    let rest = seq![' '] + x;
    assert(a =~= "/*"@ + rest);
    lemma_prefixed("/*"@, rest);
    assert(rest[1] == x[0]);
    lemma_lead_len(rest, CharClass::White, 1);
    assert(trimmed_start(rest) =~= x);
}

proof fn lemma_lines_between(ws: Seq<char>, x: Seq<char>)
    requires
        all_blank(ws),
        x.len() > 0,
        !is_white(x[0]) && x[0] != '*' && !is_white(x.last()),
    ensures
        inner_line_text(ws + (seq!['*', ' '] + x), false, false) == x,
        inner_line_text(ws + (seq!['*', '*', ' '] + x), false, false) == x,
        inner_line_text(ws + x, false, false) == x,
{
    lemma_text_stays(x);
    let b = seq!['*', ' '] + x;
    let c = seq!['*', '*', ' '] + x;
    lemma_blanks(ws, b);
    lemma_blanks(ws, c);
    lemma_blanks(ws, x);
    lemma_star_off(b, x, 1);
    lemma_star_off(c, x, 2);
}

proof fn lemma_closer_line(ws: Seq<char>, x: Seq<char>)
    requires
        all_blank(ws),
        x.len() > 0,
        !is_white(x[0]) && x[0] != '*' && !is_white(x.last()),
    ensures
        inner_line_text(ws + (seq!['*', ' '] + x + seq![' ', '*', '/']), false, true) == x,
{
    reveal_strlit("*/");
    lemma_text_stays(x);
    let b = seq!['*', ' '] + x;
    let d = b + seq![' ', '*', '/'];
    lemma_blanks(ws, d);
    assert(d.subrange(d.len() - 2, d.len() as int) =~= "*/"@);
    let kept = d.take(d.len() - 2);
    assert(kept =~= b + seq![' ']);
    assert(b.last() == x.last());
    crate::text::lemma_trail_len(kept, CharClass::White, 1);
    assert(trimmed_end(kept) =~= b);
    lemma_star_off(b, x, 1);
}

proof fn lemma_bare_closer(ws: Seq<char>)
    requires
        all_blank(ws),
    ensures
        inner_line_text(ws + seq!['*', '/'], false, true).len() == 0,
{
    reveal_strlit("*/");
    reveal_strlit("*");
    reveal_strlit("**");
    let none = Seq::<char>::empty();
    let e = seq!['*', '/'];
    lemma_blanks(ws, e);
    assert(e.subrange(0, 2) =~= "*/"@);
    assert(e.take(0) =~= none);
    crate::text::lemma_trail_len(none, CharClass::White, 0);
    assert(trimmed_end(none) =~= none);
    lemma_lead_len(none, CharClass::Blank, 0);
    assert(after_lead(none, CharClass::Blank) =~= none);
}

/// Text that starts and ends in itself is not shortened.
proof fn lemma_text_stays(x: Seq<char>)
    requires
        x.len() > 0,
        !is_white(x[0]) && x[0] != '*' && !is_white(x.last()),
    ensures
        after_lead(x, CharClass::Blank) == x,
        crate::merge::less_star_marker(x) == x,
        trimmed_end(x) == x,
{
    reveal_strlit("*");
    reveal_strlit("**");
    lemma_lead_len(x, CharClass::Blank, 0);
    assert(after_lead(x, CharClass::Blank) =~= x);
    crate::text::lemma_trail_len(x, CharClass::White, 0);
    assert(trimmed_end(x) =~= x);
    if crate::text::has_prefix(x, "*"@) {
        assert(x.subrange(0, 1)[0] == x[0]);
    }
    if crate::text::has_prefix(x, "**"@) {
        assert(x.subrange(0, 2)[0] == x[0]);
    }
}

/// One star or two with a space behind them are taken off.
proof fn lemma_star_off(s: Seq<char>, x: Seq<char>, n: int)
    requires
        n == 1 && s == seq!['*', ' '] + x || n == 2 && s == seq!['*', '*', ' '] + x,
        x.len() > 0,
        !is_white(x[0]) && x[0] != '*' && !is_white(x.last()),
    ensures
        after_lead(s, CharClass::Blank) == s,
        crate::merge::less_star_marker(s) == x,
{
    reveal_strlit("*");
    reveal_strlit("**");
    lemma_lead_len(s, CharClass::Blank, 0);
    assert(after_lead(s, CharClass::Blank) =~= s);
    let one = s.skip(1);
    let two = s.skip(2);
    assert(one[0] == s[1]);
    assert(two[0] == s[2]);
    if n == 1 {
        assert(s.subrange(0, 1) =~= "*"@);
        if crate::text::has_prefix(s, "**"@) {
            assert(s.subrange(0, 2)[1] == s[1]);
        }
        assert(one.skip(1) =~= x);
    } else {
        assert(s.subrange(0, 2) =~= "**"@);
        assert(two.skip(1) =~= x);
    }
}

} // verus!
