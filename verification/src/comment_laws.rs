//! What a comment knows of its place, and what becomes of its closer.

use crate::bytes::{line_start, span};
use crate::comment::{comment_at, file_start_prefix, pinned};
use crate::directive::bare_cr_at;
use crate::language::Language;
use crate::marker_laws::{all_blank, lemma_markers, opens_with};
use crate::normalize::{closer_split, last_line};
use crate::planner::{alone_on_line, moved_span, past_blanks, well_formed_block};
use crate::text::{
    after_lead, any_in, has_prefix, has_suffix, has_text, in_class, is_white, lead_run,
    lemma_lead_len, lemma_trail_len, lemma_trail_len_facts, sub_at, suffix_rest, trail_len, trimmed,
    trimmed_end, trimmed_start, CharClass,
};
use vstd::prelude::*;
use vstd::utf8::encode_utf8;

verus! {

/// A line starts at `at`, and position `i` is on it.
pub open spec fn on_line_from(b: Seq<u8>, at: int, i: int) -> bool {
    &&& 0 <= at <= i <= b.len()
    &&& at == 0 || b[at - 1] == 10u8
    &&& forall|k: int| at <= k < i ==> #[trigger] b[k] != 10u8
}

pub proof fn lemma_line_from(b: Seq<u8>, at: int, i: int)
    requires
        on_line_from(b, at, i),
    ensures
        line_start(b, i) == at,
    decreases i,
{
    if i > at {
        assert(b[i - 1] != 10u8);
        lemma_line_from(b, at, i - 1);
    }
}

/// A comment knows its text and its column. It trails code where anything but white space stands
/// in front of it on its line; otherwise that white space is its indentation.
pub proof fn law_comments_know_their_line(
    src: Seq<char>,
    start: int,
    end: int,
    at: int,
    lang: Language,
    relocate_before: Option<usize>,
)
    requires
        on_line_from(encode_utf8(src), at, start),
    ensures
        ({
            let c = comment_at(src, start, end, lang, relocate_before, None);
            let front = span(src, at, start);
            let code = exists|k: int| 0 <= k < front.len() && !is_white(#[trigger] front[k]);
            &&& c.start_byte == start && c.end_byte == end
            &&& c.text == span(src, start, end)
            &&& c.start_col_byte == start - at
            &&& c.is_trailing == code
            &&& c.line_indent_bytes == if code {
                Seq::<char>::empty()
            } else {
                front
            }
        }),
{
    lemma_line_from(encode_utf8(src), at, start);
    let front = span(src, at, start);
    if exists|k: int| 0 <= k < front.len() && !is_white(#[trigger] front[k]) {
        let k = choose|k: int| 0 <= k < front.len() && !is_white(#[trigger] front[k]);
        assert(in_class(front[k], CharClass::Solid));
        assert(any_in(front, CharClass::Solid));
    } else if any_in(front, CharClass::Solid) {
        let k = choose|k: int| 0 <= k < front.len() && in_class(#[trigger] front[k], CharClass::Solid);
        assert(!is_white(front[k]));
    }
}

pub open spec fn all_white(s: Seq<char>) -> bool {
    forall|k: int| 0 <= k < s.len() ==> is_white(#[trigger] s[k])
}

proof fn lemma_mark(mark: Seq<char>, rest: Seq<char>)
    requires
        mark.len() == 0 || mark == seq!['\u{feff}'],
        rest.len() > 0 ==> rest[0] != '\u{feff}',
    ensures
        after_lead(mark + rest, CharClass::One('\u{feff}')) == rest,
{
    let s = mark + rest;
    let n = mark.len() as int;
    assert forall|k: int| 0 <= k < n implies in_class(
        #[trigger] s[k],
        CharClass::One('\u{feff}'),
    ) by {
        assert(s[k] == mark[k]);
    }
    if rest.len() > 0 {
        assert(s[n] == rest[0]);
    }
    lemma_lead_len(s, CharClass::One('\u{feff}'), n);
    assert(s.skip(n) =~= rest);
}

/// A comment stands at the start of the file when only a byte order mark and white space are in
/// front of it, or these and one block with a licence tag.
pub proof fn law_what_may_stand_at_the_start(
    mark: Seq<char>,
    a: Seq<char>,
    inside: Seq<char>,
    b: Seq<char>,
    i: int,
)
    requires
        mark.len() == 0 || mark == seq!['\u{feff}'],
        all_white(a) && all_white(b),
        sub_at(inside, "SPDX-License-Identifier"@, i),
        !has_text(inside, "*/"@),
    ensures
        file_start_prefix(mark + a),
        file_start_prefix(mark + (a + (seq!['/', '*'] + inside + seq!['*', '/']) + b)),
{
    reveal_strlit("/*");
    reveal_strlit("*/");
    reveal_strlit("SPDX-License-Identifier");
    let t = seq!['/', '*'] + inside + seq!['*', '/'];
    let rest = a + t + b;
    lemma_mark(mark, a);
    assert(rest[0] != '\u{feff}') by {
        if a.len() > 0 {
            assert(rest[0] == a[0]);
        } else {
            assert(rest[0] == '/');
        }
    }
    lemma_mark(mark, rest);
    crate::directive_laws::lemma_trimmed_is(a, t, b);
    assert(t.subrange(0, 2) =~= "/*"@);
    assert(t.subrange(t.len() - 2, t.len() as int) =~= "*/"@);
    assert(t.subrange(2, t.len() - 2) =~= inside);
    let p = "SPDX-License-Identifier"@;
    assert(t.subrange(i + 2, i + 2 + p.len()) =~= inside.subrange(i, i + p.len()));
    assert(sub_at(t, p, i + 2));
    assert forall|k: int| 0 <= k < a.len() implies in_class(#[trigger] a[k], CharClass::White) by {}
    lemma_lead_len(a, CharClass::White, a.len() as int);
    assert(trimmed_start(a) =~= Seq::<char>::empty());
}

/// Behind code, or behind a comment without a licence tag, no comment stands at the start of the
/// file.
pub proof fn law_code_is_no_start(before: Seq<char>)
    requires
        trimmed(before).len() > 0,
        trimmed(before)[0] != '/' && trimmed(before)[0] != '\u{feff}' || !has_text(
            trimmed(before),
            "SPDX-License-Identifier"@,
        ),
        before[0] != '\u{feff}',
    ensures
        !file_start_prefix(before),
{
    reveal_strlit("/*");
    lemma_lead_len(before, CharClass::One('\u{feff}'), 0);
    assert(after_lead(before, CharClass::One('\u{feff}')) =~= before);
    let t = trimmed(before);
    if has_prefix(t, "/*"@) {
        assert(t.subrange(0, 2)[0] == t[0]);
    }
}

/// Comments whose text is not what the lines show are left alone: a block in a block in Rust,
/// and any comment with a carriage return that ends no line.
pub proof fn law_unusual_comments_stay(
    src: Seq<char>,
    start: int,
    end: int,
    lang: Language,
    i: int,
)
    requires
        ({
            let b = encode_utf8(src);
            let text = span(src, start, end);
            ||| {
                &&& lang == Language::Rust
                &&& text.len() >= 4 && opens_with(text, '/', '*') && has_suffix(text, "*/"@)
                &&& 2 <= i && i + 4 <= text.len()
                &&& text[i] == '/' && text[i + 1] == '*' || text[i] == '*' && text[i + 1] == '/'
            }
            ||| start <= i < end && b[i] == 13 && (i + 1 >= b.len() || b[i + 1] != 10)
        }),
    ensures
        pinned(src, start, end, lang),
{
    let b = encode_utf8(src);
    let text = span(src, start, end);
    reveal_strlit("/*");
    reveal_strlit("*/");
    lemma_markers(text);
    if start <= i < end && b[i] == 13 && (i + 1 >= b.len() || b[i + 1] != 10) {
        assert(bare_cr_at(b, i));
    } else {
        let inside = text.subrange(2, text.len() - 2);
        if text[i] == '/' {
            assert(inside.subrange(i - 2, i) =~= "/*"@);
            assert(sub_at(inside, "/*"@, i - 2));
        } else {
            assert(inside.subrange(i - 2, i) =~= "*/"@);
            assert(sub_at(inside, "*/"@, i - 2));
        }
    }
}

/// A closer that text precedes on the last line of a block goes to a line of its own, behind the
/// given indentation or that of its line, with the line break that stands above it.
#[verifier::spinoff_prover]
#[verifier::rlimit(40)]
pub proof fn law_glued_closers_get_their_line(
    above: Seq<char>,
    nl: Seq<char>,
    lead: Seq<char>,
    text: Seq<char>,
    pad: Seq<char>,
    indent: Option<Seq<char>>,
)
    requires
        nl == seq!['\n'] && (above.len() == 0 || above.last() != '\r') || nl == seq!['\r', '\n'],
        all_blank(lead) && all_blank(pad),
        text.len() > 0 && !is_white(text[0]) && text[0] != '*' && !is_white(text.last()),
        !text.contains('\n'),
    ensures
        closer_split(above + nl + (lead + text + pad + seq!['*', '/']), indent) == Some(
            above + nl + (lead + text) + nl + (match indent {
                Some(x) => x,
                None => lead,
            }) + seq!['*', '/'],
        ),
{
    let last = lead + text + pad + seq!['*', '/'];
    let upto = above + nl;
    let all = upto + last;
    reveal_strlit("*/");
    reveal_strlit("\r\n");
    reveal_strlit("\n");
    let n = last.len() as int;
    assert forall|k: int| all.len() - n <= k < all.len() implies in_class(
        #[trigger] all[k],
        CharClass::NotOne('\n'),
    ) by {
        let q = k - upto.len();
        assert(all[k] == last[q]);
        if q < lead.len() {
            assert(last[q] == lead[q]);
        } else if q < lead.len() + text.len() {
            assert(last[q] == text[q - lead.len()]);
            assert(text.contains(text[q - lead.len()]));
        } else if q < lead.len() + text.len() + pad.len() {
            assert(last[q] == pad[q - lead.len() - text.len()]);
        }
    }
    assert(all[all.len() - n - 1] == upto.last());
    assert(upto.last() == '\n');
    lemma_trail_len(all, CharClass::NotOne('\n'), n);
    assert(all.take(all.len() - n) =~= upto);
    assert(all.skip(all.len() - n) =~= last);
    assert(last_line(all) == Some((upto, last)));
    // What stands in front of the closer.
    lemma_trail_len(last, CharClass::White, 0);
    assert(trimmed_end(last) =~= last);
    assert(last.subrange(n - 2, n) =~= "*/"@);
    let head = last.take(n - 2);
    assert(head =~= (lead + text) + pad);
    assert forall|k: int| 0 <= k < pad.len() implies in_class(#[trigger] pad[k], CharClass::White) by {}
    crate::spacing_laws::lemma_end_with(lead + text, pad);
    let before = lead + text;
    assert(before.last() == text.last());
    lemma_trail_len(before, CharClass::White, 0);
    assert(trimmed_end(before) =~= before);
    // It is text.
    assert forall|k: int| 0 <= k < lead.len() implies in_class(
        #[trigger] before[k],
        CharClass::White,
    ) by {
        assert(before[k] == lead[k]);
    }
    assert(before[lead.len() as int] == text[0]);
    lemma_lead_len(before, CharClass::White, lead.len() as int);
    assert(trimmed_start(before) =~= text);
    lemma_lead_len(text, CharClass::One('*'), 0);
    assert(after_lead(text, CharClass::One('*')) =~= text);
    assert(trimmed(text).len() > 0) by {
        crate::pieces::lemma_solid_inside(text, 0);
        crate::pieces::lemma_has_words(text);
    }
    // The break and the indentation.
    assert(has_suffix(upto, "\r\n"@) == (nl.len() == 2)) by {
        if nl.len() == 2 {
            assert(upto.subrange(upto.len() - 2, upto.len() as int) =~= "\r\n"@);
        } else if has_suffix(upto, "\r\n"@) {
            assert(upto.subrange(upto.len() - 2, upto.len() as int)[0] == upto[upto.len() - 2]);
            assert(upto[upto.len() - 2] == above.last());
        }
    }
    assert("\r\n"@ =~= seq!['\r', '\n']);
    assert("\n"@ =~= seq!['\n']);
    assert("*/"@ =~= seq!['*', '/']);
    assert forall|k: int| 0 <= k < lead.len() implies in_class(
        #[trigger] last[k],
        CharClass::Blank,
    ) by {
        assert(last[k] == lead[k]);
    }
    assert(last[lead.len() as int] == text[0]);
    lemma_lead_len(last, CharClass::Blank, lead.len() as int);
    assert(lead_run(last, CharClass::Blank) =~= lead);
}

/// A closer stays where it is on the only line of a comment, and where nothing but blanks and a
/// run of stars precedes it.
#[verifier::spinoff_prover]
#[verifier::rlimit(40)]
pub proof fn law_other_closers_stay(
    above: Seq<char>,
    lead: Seq<char>,
    n: nat,
    text: Seq<char>,
    indent: Option<Seq<char>>,
)
    requires
        all_blank(lead),
        n >= 1,
        !text.contains('\n'),
    ensures
        closer_split(text, indent) is None,
        closer_split(above + seq!['\n'] + (lead + Seq::new(n, |k: int| '*') + seq!['/']), indent)
            is None,
{
    reveal_strlit("*/");
    lemma_trail_len_facts(text, CharClass::NotOne('\n'));
    let m = trail_len(text, CharClass::NotOne('\n')) as int;
    if m < text.len() {
        assert(text[text.len() - m - 1] == '\n');
    }
    let stars = Seq::new(n, |k: int| '*');
    let last = lead + stars + seq!['/'];
    let upto = above + seq!['\n'];
    let all = upto + last;
    let w = last.len() as int;
    assert forall|k: int| all.len() - w <= k < all.len() implies in_class(
        #[trigger] all[k],
        CharClass::NotOne('\n'),
    ) by {
        let q = k - upto.len();
        assert(all[k] == last[q]);
        if q < lead.len() {
            assert(last[q] == lead[q]);
        } else if q < lead.len() + n {
            assert(last[q] == stars[q - lead.len()]);
        }
    }
    assert(all[all.len() - w - 1] == '\n');
    lemma_trail_len(all, CharClass::NotOne('\n'), w);
    assert(all.skip(all.len() - w) =~= last);
    lemma_trail_len(last, CharClass::White, 0);
    assert(trimmed_end(last) =~= last);
    let head = last.take(w - 2);
    let fewer = Seq::new((n - 1) as nat, |k: int| '*');
    assert(head =~= lead + fewer);
    assert forall|k: int| 0 <= k < lead.len() implies in_class(
        #[trigger] head[k],
        CharClass::White,
    ) by {
        assert(head[k] == lead[k]);
    }
    lemma_lead_len(head, CharClass::White, lead.len() as int);
    assert(trimmed_start(head) =~= fewer);
    let before = trimmed_end(head);
    let none = Seq::<char>::empty();
    if n > 1 {
        assert(head.last() == '*');
        lemma_trail_len(head, CharClass::White, 0);
        assert(before =~= head);
        assert forall|k: int| 0 <= k < fewer.len() implies in_class(
            #[trigger] fewer[k],
            CharClass::One('*'),
        ) by {}
        lemma_lead_len(fewer, CharClass::One('*'), fewer.len() as int);
        assert(after_lead(fewer, CharClass::One('*')) =~= none);
    } else {
        assert(head =~= lead);
        lemma_trail_len(head, CharClass::White, head.len() as int);
        assert(before =~= none);
        lemma_lead_len(none, CharClass::White, 0);
        assert(trimmed_start(none) =~= none);
        lemma_lead_len(none, CharClass::One('*'), 0);
        assert(after_lead(none, CharClass::One('*')) =~= none);
    }
    lemma_lead_len(none, CharClass::White, 0);
    lemma_trail_len(none, CharClass::White, 0);
    assert(trimmed(none) =~= none);
    if suffix_rest(last, "*/"@) is Some {
        assert(suffix_rest(last, "*/"@)->0 == head);
    }
}

/// A block is well formed when it is an opener, text without a closer, and a closer.
pub proof fn law_well_formed_blocks(inside: Seq<char>, pad: Seq<char>)
    requires
        all_white(pad),
    ensures
        well_formed_block(seq!['/', '*'] + inside + seq!['*', '/'] + pad) == !has_text(
            inside,
            "*/"@,
        ),
        !well_formed_block(seq!['/', '*', '/']),
{
    reveal_strlit("/*");
    reveal_strlit("*/");
    let t = seq!['/', '*'] + inside + seq!['*', '/'];
    assert forall|k: int| 0 <= k < pad.len() implies in_class(#[trigger] pad[k], CharClass::White) by {}
    crate::spacing_laws::lemma_end_with(t, pad);
    assert(t.last() == '/');
    lemma_trail_len(t, CharClass::White, 0);
    assert(trimmed_end(t) =~= t);
    assert(t.subrange(0, 2) =~= "/*"@);
    assert(t.subrange(t.len() - 2, t.len() as int) =~= "*/"@);
    assert(t.subrange(2, t.len() - 2) =~= inside);
    let u = seq!['/', '*', '/'];
    lemma_trail_len_facts(u, CharClass::White);
}

/// A comment that moves away from a line of its own takes the whole line with it.
pub proof fn law_moved_comments_take_their_line(
    b: Seq<u8>,
    at: int,
    start: int,
    end: int,
    after: int,
    backward: bool,
)
    requires
        on_line_from(b, at, start),
        start <= end <= after < b.len(),
        forall|k: int| at <= k < start ==> #[trigger] b[k] == 32 || b[k] == 9,
        forall|k: int| end <= k < after ==> #[trigger] b[k] == 32 || b[k] == 9,
        b[after] == 10 || b[after] == 13 && after + 1 < b.len() && b[after + 1] == 10,
    ensures
        moved_span(b, start, end, backward) == (
            at,
            if b[after] == 10 {
                after + 1
            } else {
                after + 2
            },
        ),
{
    lemma_line_from(b, at, start);
    lemma_blanks_end(b, end, after);
    assert(alone_on_line(b, start, end)) by {
        assert forall|i: int| at <= i < start implies crate::planner::is_blank(#[trigger] b[i]) by {}
    }
}

proof fn lemma_blanks_end(b: Seq<u8>, i: int, after: int)
    requires
        0 <= i <= after < b.len(),
        forall|k: int| i <= k < after ==> #[trigger] b[k] == 32 || b[k] == 9,
        b[after] != 32 && b[after] != 9,
    ensures
        past_blanks(b, i) == after,
    decreases after - i,
{
    if i < after {
        assert(b[i] == 32 || b[i] == 9);
        lemma_blanks_end(b, i + 1, after);
    }
}

/// A comment that moves away from code takes the blanks on one side of it with it, up to a byte
/// that is none.
pub proof fn law_moved_comments_leave_code(
    b: Seq<u8>,
    at: int,
    start: int,
    end: int,
    after: int,
    k: int,
)
    requires
        on_line_from(b, at, start),
        start <= end <= after < b.len(),
        at <= k < start && b[k] != 32 && b[k] != 9,
        forall|q: int| end <= q < after ==> #[trigger] b[q] == 32 || b[q] == 9,
        b[after] != 32 && b[after] != 9,
    ensures
        moved_span(b, start, end, false) == (start, after),
        moved_span(b, start, end, true).1 == end,
        k < moved_span(b, start, end, true).0 <= start,
{
    lemma_line_from(b, at, start);
    lemma_blanks_end(b, end, after);
    assert(!alone_on_line(b, start, end)) by {
        assert(!crate::planner::is_blank(b[k]));
    }
    lemma_before(b, start, at, k);
}

proof fn lemma_before(b: Seq<u8>, i: int, low: int, k: int)
    requires
        0 <= low <= k < i <= b.len(),
        b[k] != 32 && b[k] != 9,
    ensures
        k < crate::planner::before_blanks(b, i, low) <= i,
    decreases i,
{
    if crate::planner::is_blank(b[i - 1]) {
        assert(i - 1 != k);
        lemma_before(b, i - 1, low, k);
    }
}

} // verus!
