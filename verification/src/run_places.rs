//! What stands around a comment in the source that a run leaves.

use crate::blank_lines::{
    ends_alike, hash_known, lemma_lines_behind, lemma_not_needed_again, line_of,
};
use crate::bytes::{
    lemma_encode_concat, lemma_encode_len, lemma_source_ends, lemma_span_bytes, line_start, span,
    span_ok,
};
use crate::classify::style_of;
use crate::comment::CommentText;
use crate::final_form::{emitted, is_no_page};
use crate::language::Language;
use crate::lines_before::{
    lemma_line_starts, lemma_lines_are, lemma_lines_of, open_line, whole_lines,
};
use crate::normalize::closer_split;
use crate::placement::{
    ahead_of, end_of, gets_blank, lemma_rewritten_is, lemma_span_empty, lemma_span_join,
    lemma_span_middle, lie_apart, new_lead, new_text, new_upto,
};
use crate::plan_laws::apart;
use crate::planner::{blank_lead, needs_blank, planned};
use crate::rewrite::{final_break, rewritten};
use crate::source_laws::is_replaced;
use crate::text::{
    all_in, in_class, is_white, lead_len, leads_with, lemma_lead_len, lemma_lead_len_facts,
    lemma_trail_len_facts, trail_len, trimmed, trimmed_start, CharClass,
};
use vstd::prelude::*;
use vstd::utf8::{encode_utf8, encode_utf8_decode_utf8};

verus! {

/// A comment's own stretch of the source.
pub open spec fn own_text(src: Seq<char>, c: CommentText) -> Seq<char> {
    span(src, c.start_byte, c.end_byte)
}

/// The comment stands in the source as comments do: it starts with no white space
/// and no brace, ends in a line feed or in no white space (in assembly, as a block
/// does, before the run and after it), and only white space
/// stands in front of it on its line unless it shares that line with code. What is
/// emitted for it ends in no line break.
pub open spec fn well_set(
    src: Seq<char>,
    comments: Seq<CommentText>,
    i: int,
    lang: Language,
    limit: usize,
    tab_width: usize,
) -> bool {
    let c = comments[i];
    let own = own_text(src, c);
    let text = emitted(c, lang, limit, tab_width);
    let v = span(src, 0, end_of(comments, i));
    let x = span(src, end_of(comments, i), c.start_byte);
    let zs = span(src, c.end_byte, encode_utf8(src).len() as int);
    &&& c.placed(src)
    &&& c.param_shift is None
    &&& is_no_page(c, lang, limit)
    &&& own.len() > 0
    &&& !is_white(own[0])
    &&& own[0] != '{'
    &&& own.last() == '\n' || !is_white(own.last())
    &&& !c.is_trailing ==> all_in(open_line(span(src, 0, c.start_byte)), CharClass::White)
    &&& is_replaced(c, lang, limit, tab_width) ==> text.last() != '\n' && text.last() != '\r'
    &&& hash_known(v, x, own, zs, lang)
    &&& lang == Language::Asm ==> own.last() == '/' && new_text(
        src,
        c,
        lang,
        limit,
        tab_width,
    ).last() == '/'
}

/// The comments of a source, none of which moves.
pub open spec fn comments_set(
    src: Seq<char>,
    comments: Seq<CommentText>,
    lang: Language,
    limit: usize,
    tab_width: usize,
) -> bool {
    &&& apart(comments)
    &&& forall|i: int|
        0 <= i < comments.len() ==> #[trigger] well_set(src, comments, i, lang, limit, tab_width)
}

/// The source up to a place, and what lies ahead of a comment.
pub proof fn lemma_in_front(
    src: Seq<char>,
    comments: Seq<CommentText>,
    i: int,
    lang: Language,
    limit: usize,
    tab_width: usize,
)
    requires
        comments_set(src, comments, lang, limit, tab_width),
        0 <= i < comments.len(),
    ensures
        ({
            let c = comments[i];
            let len = encode_utf8(src).len() as int;
            let v = span(src, 0, end_of(comments, i));
            let x = span(src, end_of(comments, i), c.start_byte);
            let own = own_text(src, c);
            let zs = span(src, c.end_byte, len);
            &&& span_ok(src, 0, end_of(comments, i))
            &&& span_ok(src, end_of(comments, i), c.start_byte)
            &&& span_ok(src, c.end_byte, len)
            &&& v + x == span(src, 0, c.start_byte)
            &&& v + x + own + zs == src
            &&& encode_utf8(v).len() == end_of(comments, i)
            &&& encode_utf8(v + x).len() == c.start_byte
            &&& encode_utf8(v + x + own).len() == c.end_byte
            &&& i > 0 ==> v.len() > 0 && v.last() == own_text(src, comments[i - 1]).last()
            &&& i == 0 ==> v.len() == 0
        }),
{
    let c = comments[i];
    let len = encode_utf8(src).len() as int;
    let old = end_of(comments, i);
    lemma_source_ends(src);
    assert(well_set(src, comments, i, lang, limit, tab_width));
    if i > 0 {
        assert(well_set(src, comments, i - 1, lang, limit, tab_width));
        let o = comments[i - 1];
        assert(o.end_byte <= c.start_byte);
        lemma_span_join(src, 0, o.start_byte, o.end_byte);
        let own = own_text(src, o);
        assert((span(src, 0, o.start_byte) + own).last() == own.last());
    } else {
        lemma_span_empty(src, 0);
    }
    lemma_span_join(src, 0, old, c.start_byte);
    lemma_span_join(src, 0, c.start_byte, c.end_byte);
    lemma_span_join(src, 0, c.end_byte, len);
    lemma_span_bytes(src, 0, old);
    lemma_span_bytes(src, 0, c.start_byte);
    lemma_span_bytes(src, 0, c.end_byte);
    encode_utf8_decode_utf8(src);
    assert(encode_utf8(src).subrange(0, len) =~= encode_utf8(src));
}

/// The comment ahead ends on a line above, or the lead has a line of its own.
proof fn lemma_lead_line(
    src: Seq<char>,
    comments: Seq<CommentText>,
    i: int,
    lang: Language,
    limit: usize,
    tab_width: usize,
)
    requires
        comments_set(src, comments, lang, limit, tab_width),
        0 <= i < comments.len(),
        !comments[i].is_trailing,
    ensures
        ({
            let v = span(src, 0, end_of(comments, i));
            let x = span(src, end_of(comments, i), comments[i].start_byte);
            v.len() > 0 && v.last() != '\n' ==> whole_lines(x).len() > 0
        }),
{
    let v = span(src, 0, end_of(comments, i));
    let x = span(src, end_of(comments, i), comments[i].start_byte);
    lemma_in_front(src, comments, i, lang, limit, tab_width);
    assert(well_set(src, comments, i, lang, limit, tab_width));
    if v.len() > 0 && v.last() != '\n' && whole_lines(x).len() == 0 {
        lemma_lines_behind(v, x);
        lemma_lines_of(v);
        let w = open_line(v);
        let all = open_line(v) + x;
        assert(w.last() == v.last());
        assert(all[w.len() - 1] == v.last());
        assert(in_class(all[w.len() - 1], CharClass::White));
        assert(well_set(src, comments, i - 1, lang, limit, tab_width));
    }
}

/// A blank line goes in behind the comment ahead.
pub proof fn lemma_lie_apart(
    src: Seq<char>,
    comments: Seq<CommentText>,
    lang: Language,
    limit: usize,
    tab_width: usize,
)
    requires
        comments_set(src, comments, lang, limit, tab_width),
    ensures
        lie_apart(src, comments, lang, limit, tab_width),
{
    assert forall|i: int| 0 <= i < comments.len() implies (#[trigger] comments[i]).placed(src)
        && comments[i].param_shift is None && is_no_page(comments[i], lang, limit) by {
        assert(well_set(src, comments, i, lang, limit, tab_width));
    }
    assert forall|i: int|
        0 <= i < comments.len() && #[trigger] gets_blank(
            src,
            comments,
            i,
            lang,
            limit,
            tab_width,
        ) implies end_of(comments, i) <= line_start(
        encode_utf8(src),
        comments[i].start_byte,
    ) by {
        lemma_blank_place(src, comments, i, lang, limit, tab_width);
    }
}

/// Where the line of a comment starts that does not share it.
pub proof fn lemma_blank_place(
    src: Seq<char>,
    comments: Seq<CommentText>,
    i: int,
    lang: Language,
    limit: usize,
    tab_width: usize,
)
    requires
        comments_set(src, comments, lang, limit, tab_width),
        0 <= i < comments.len(),
        !comments[i].is_trailing,
    ensures
        ({
            let c = comments[i];
            let v = span(src, 0, end_of(comments, i));
            let x = span(src, end_of(comments, i), c.start_byte);
            let at = line_start(encode_utf8(src), c.start_byte);
            &&& at == encode_utf8(whole_lines(v + x)).len()
            &&& end_of(comments, i) <= at <= c.start_byte
            &&& span_ok(src, at, c.start_byte)
            &&& span_ok(src, end_of(comments, i), at)
            &&& v + span(src, end_of(comments, i), at) == whole_lines(v + x)
            &&& span(src, at, c.start_byte) == open_line(v + x)
        }),
{
    let c = comments[i];
    let v = span(src, 0, end_of(comments, i));
    let x = span(src, end_of(comments, i), c.start_byte);
    let own = own_text(src, c);
    let zs = span(src, c.end_byte, encode_utf8(src).len() as int);
    lemma_in_front(src, comments, i, lang, limit, tab_width);
    lemma_lead_line(src, comments, i, lang, limit, tab_width);
    let a = v + x;
    assert(a + (own + zs) =~= src);
    lemma_line_starts(a, own + zs);
    lemma_lines_of(a);
    lemma_lines_of(v);
    lemma_lines_of(x);
    lemma_lines_behind(v, x);
    let h = whole_lines(a);
    let w = open_line(a);
    let front = if whole_lines(x).len() > 0 {
        whole_lines(x)
    } else {
        Seq::empty()
    };
    assert(h == v + front) by {
        if whole_lines(x).len() == 0 {
            assert(open_line(v).len() == 0);
            assert(v + front =~= v);
            assert(whole_lines(v) =~= v);
        }
    }
    lemma_encode_concat(v, front);
    lemma_span_middle(v, front, w + (own + zs));
    assert(v + front + (w + (own + zs)) =~= src);
    lemma_span_middle(h, w, own + zs);
    assert(h + w + (own + zs) =~= src);
}

/// The new text of a comment ends as its own does.
proof fn lemma_text_ends(
    src: Seq<char>,
    comments: Seq<CommentText>,
    i: int,
    lang: Language,
    limit: usize,
    tab_width: usize,
)
    requires
        comments_set(src, comments, lang, limit, tab_width),
        0 <= i < comments.len(),
    ensures
        ({
            let own = own_text(src, comments[i]);
            let text = new_text(src, comments[i], lang, limit, tab_width);
            text.len() > 0 && (text.last() == '\n') == (own.last() == '\n')
        }),
{
    let c = comments[i];
    let own = own_text(src, c);
    let text = new_text(src, c, lang, limit, tab_width);
    let brk = final_break(own);
    assert(well_set(src, comments, i, lang, limit, tab_width));
    lemma_trail_len_facts(own, CharClass::Two('\r', '\n'));
    let n = trail_len(own, CharClass::Two('\r', '\n')) as int;
    assert((own.last() == '\n') == (brk.len() > 0)) by {
        if brk.len() > 0 {
            assert(in_class(own[own.len() - 1], CharClass::Two('\r', '\n')));
        } else {
            assert(!in_class(own[own.len() - 1], CharClass::Two('\r', '\n')));
        }
    }
    if brk.len() > 0 {
        assert(brk.last() == own.last());
    }
    if text != own && !is_replaced(c, lang, limit, tab_width) {
        reveal_strlit("*/");
        let split = closer_split(
            c.text,
            crate::planner::closer_indent(src, c, lang)->0,
        )->0;
        assert(split.last() == '/');
        assert(text == split + brk);
    }
}

/// What stands ahead of a comment ends alike before and after a run.
proof fn lemma_ahead_alike(
    src: Seq<char>,
    comments: Seq<CommentText>,
    i: int,
    lang: Language,
    limit: usize,
    tab_width: usize,
)
    requires
        comments_set(src, comments, lang, limit, tab_width),
        0 <= i < comments.len(),
    ensures
        ends_alike(
            new_upto(src, comments, i, lang, limit, tab_width),
            span(src, 0, end_of(comments, i)),
        ),
{
    lemma_in_front(src, comments, i, lang, limit, tab_width);
    if i > 0 {
        lemma_text_ends(src, comments, i - 1, lang, limit, tab_width);
    }
}

/// What a run leaves behind the first `n` comments.
pub open spec fn new_rest(
    src: Seq<char>,
    comments: Seq<CommentText>,
    n: int,
    lang: Language,
    limit: usize,
    tab_width: usize,
) -> Seq<char>
    decreases comments.len() - n,
{
    if n >= comments.len() {
        span(src, end_of(comments, comments.len() as int), encode_utf8(src).len() as int)
    } else {
        new_lead(src, comments, n, lang, limit, tab_width) + new_text(
            src,
            comments[n],
            lang,
            limit,
            tab_width,
        ) + new_rest(src, comments, n + 1, lang, limit, tab_width)
    }
}

pub proof fn lemma_split_out(
    src: Seq<char>,
    comments: Seq<CommentText>,
    n: int,
    lang: Language,
    limit: usize,
    tab_width: usize,
)
    requires
        0 <= n <= comments.len(),
    ensures
        new_upto(src, comments, n, lang, limit, tab_width) + new_rest(
            src,
            comments,
            n,
            lang,
            limit,
            tab_width,
        ) == new_upto(src, comments, comments.len() as int, lang, limit, tab_width) + span(
            src,
            end_of(comments, comments.len() as int),
            encode_utf8(src).len() as int,
        ),
    decreases comments.len() - n,
{
    if n < comments.len() {
        lemma_split_out(src, comments, n + 1, lang, limit, tab_width);
        let a = new_upto(src, comments, n, lang, limit, tab_width);
        let b = new_lead(src, comments, n, lang, limit, tab_width);
        let c = new_text(src, comments[n], lang, limit, tab_width);
        let d = new_rest(src, comments, n + 1, lang, limit, tab_width);
        assert(a + (b + c + d) =~= a + b + c + d);
    }
}

/// What stands in front of comment `i` in the source that a run leaves.
pub open spec fn new_front(
    src: Seq<char>,
    comments: Seq<CommentText>,
    i: int,
    lang: Language,
    limit: usize,
    tab_width: usize,
) -> Seq<char> {
    new_upto(src, comments, i, lang, limit, tab_width) + new_lead(
        src,
        comments,
        i,
        lang,
        limit,
        tab_width,
    )
}

/// `d` stands where the run put comment `i`.
pub open spec fn is_placed(
    src: Seq<char>,
    comments: Seq<CommentText>,
    i: int,
    d: CommentText,
    lang: Language,
    limit: usize,
    tab_width: usize,
) -> bool {
    let a = new_front(src, comments, i, lang, limit, tab_width);
    let t = new_text(src, comments[i], lang, limit, tab_width);
    d.start_byte == encode_utf8(a).len() && d.end_byte == encode_utf8(a + t).len()
}

/// The source that a run leaves, around comment `i`.
pub proof fn lemma_around(
    src: Seq<char>,
    comments: Seq<CommentText>,
    i: int,
    lang: Language,
    limit: usize,
    tab_width: usize,
)
    requires
        comments_set(src, comments, lang, limit, tab_width),
        0 <= i < comments.len(),
    ensures
        ({
            let out = rewritten(src, planned(src, comments, lang, limit, tab_width));
            let a = new_front(src, comments, i, lang, limit, tab_width);
            let t = new_text(src, comments[i], lang, limit, tab_width);
            let z = new_rest(src, comments, i + 1, lang, limit, tab_width);
            &&& out == a + t + z
            &&& span(out, encode_utf8(a).len() as int, encode_utf8(a + t).len() as int) == t
            &&& span_ok(out, encode_utf8(a).len() as int, encode_utf8(a + t).len() as int)
        }),
{
    let a = new_front(src, comments, i, lang, limit, tab_width);
    let t = new_text(src, comments[i], lang, limit, tab_width);
    let z = new_rest(src, comments, i + 1, lang, limit, tab_width);
    lemma_lie_apart(src, comments, lang, limit, tab_width);
    lemma_rewritten_is(src, comments, lang, limit, tab_width);
    lemma_split_out(src, comments, i + 1, lang, limit, tab_width);
    assert(new_upto(src, comments, i + 1, lang, limit, tab_width) == a + t);
    lemma_span_middle(a, t, z);
    lemma_encode_concat(a, t);
}

/// A text with something in it starts with that, whatever follows.
proof fn lemma_starts_with(p: Seq<char>, r: Seq<char>, s: Seq<char>, c: char)
    requires
        !all_in(p, CharClass::White),
    ensures
        leads_with(trimmed_start(p + r), CharClass::One(c)) == leads_with(
            trimmed_start(p + s),
            CharClass::One(c),
        ),
{
    lemma_lead_len_facts(p, CharClass::White);
    let n = lead_len(p, CharClass::White) as int;
    assert(n < p.len());
    let a = p + r;
    let b = p + s;
    assert forall|i: int| 0 <= i < n implies in_class(#[trigger] a[i], CharClass::White) && in_class(
        b[i],
        CharClass::White,
    ) by {
        assert(a[i] == p[i] && b[i] == p[i]);
        assert(in_class(p[i], CharClass::White));
    }
    assert forall|i: int| 0 <= i < n implies in_class(#[trigger] b[i], CharClass::White) by {
        assert(a[i] == p[i]);
    }
    assert(a[n] == p[n] && b[n] == p[n]);
    lemma_lead_len(a, CharClass::White, n);
    lemma_lead_len(b, CharClass::White, n);
}

proof fn lemma_starts_solid(p: Seq<char>, r: Seq<char>)
    requires
        all_in(p, CharClass::White),
        r.len() > 0,
        !is_white(r[0]),
    ensures
        trimmed_start(p + r) == r,
{
    let a = p + r;
    let n = p.len() as int;
    assert forall|i: int| 0 <= i < n implies in_class(#[trigger] a[i], CharClass::White) by {
        assert(a[i] == p[i]);
    }
    assert(a[n] == r[0]);
    lemma_lead_len(a, CharClass::White, n);
    assert(trimmed_start(a) =~= r);
}

/// A brace that follows a comment still follows it.
#[verifier::spinoff_prover]
proof fn lemma_brace_stays(
    src: Seq<char>,
    comments: Seq<CommentText>,
    i: int,
    lang: Language,
    limit: usize,
    tab_width: usize,
)
    requires
        comments_set(src, comments, lang, limit, tab_width),
        0 <= i < comments.len(),
        leads_with(
            trimmed_start(span(src, comments[i].end_byte, encode_utf8(src).len() as int)),
            CharClass::One('{'),
        ),
    ensures
        leads_with(
            trimmed_start(new_rest(src, comments, i + 1, lang, limit, tab_width)),
            CharClass::One('{'),
        ),
{
    let len = encode_utf8(src).len() as int;
    let c = comments[i];
    let z = new_rest(src, comments, i + 1, lang, limit, tab_width);
    if i + 1 < comments.len() {
        let e = comments[i + 1];
        lemma_in_front(src, comments, i + 1, lang, limit, tab_width);
        assert(well_set(src, comments, i + 1, lang, limit, tab_width));
        let b = span(src, c.end_byte, e.start_byte);
        let own = own_text(src, e);
        let zs = span(src, e.end_byte, len);
        lemma_span_join(src, c.end_byte, e.start_byte, e.end_byte);
        lemma_span_join(src, c.end_byte, e.end_byte, len);
        let t = new_text(src, e, lang, limit, tab_width);
        let more = new_rest(src, comments, i + 2, lang, limit, tab_width);
        assert(b + own + zs =~= b + (own + zs));
        if all_in(b, CharClass::White) {
            lemma_starts_solid(b, own + zs);
        } else if gets_blank(src, comments, i + 1, lang, limit, tab_width) {
            lemma_blank_place(src, comments, i + 1, lang, limit, tab_width);
            let at = line_start(encode_utf8(src), e.start_byte);
            let front = span(src, c.end_byte, at);
            let lead = span(src, at, e.start_byte);
            lemma_span_join(src, c.end_byte, at, e.start_byte);
            assert(!all_in(front, CharClass::White)) by {
                if all_in(front, CharClass::White) {
                    assert forall|k: int| 0 <= k < b.len() implies in_class(
                        #[trigger] b[k],
                        CharClass::White,
                    ) by {
                        if k < front.len() {
                            assert(b[k] == front[k]);
                            assert(in_class(front[k], CharClass::White));
                        } else {
                            assert(b[k] == lead[k - front.len()]);
                            assert(in_class(lead[k - front.len()], CharClass::White));
                        }
                    }
                }
            }
            let tail = blank_lead(src, e) + t + more;
            assert(z =~= front + tail);
            assert(b + (own + zs) =~= front + (lead + (own + zs)));
            lemma_starts_with(front, lead + (own + zs), tail, '{');
        } else {
            assert(z =~= b + (t + more));
            lemma_starts_with(b, own + zs, t + more, '{');
        }
    }
}

/// The line above is blank where a blank line went in.
pub proof fn lemma_blank_went_in(
    src: Seq<char>,
    comments: Seq<CommentText>,
    i: int,
    lang: Language,
    limit: usize,
    tab_width: usize,
)
    requires
        comments_set(src, comments, lang, limit, tab_width),
        0 <= i < comments.len(),
        gets_blank(src, comments, i, lang, limit, tab_width),
    ensures
        ({
            let a = new_front(src, comments, i, lang, limit, tab_width);
            &&& whole_lines(a).len() > 0
            &&& trimmed(line_of(a) + seq!['\n']).len() == 0
            &&& open_line(a) == open_line(span(src, 0, comments[i].start_byte))
        }),
{
    reveal_strlit("\n");
    reveal_strlit("\r\n");
    let c = comments[i];
    let bytes = encode_utf8(src);
    let at = line_start(bytes, c.start_byte);
    let old = end_of(comments, i);
    let v = span(src, 0, old);
    let x = span(src, old, c.start_byte);
    let u = new_upto(src, comments, i, lang, limit, tab_width);
    let a = new_front(src, comments, i, lang, limit, tab_width);
    lemma_blank_place(src, comments, i, lang, limit, tab_width);
    lemma_in_front(src, comments, i, lang, limit, tab_width);
    lemma_ahead_alike(src, comments, i, lang, limit, tab_width);
    lemma_lines_of(v + x);
    let front = span(src, old, at);
    let h = whole_lines(v + x);
    let w = open_line(v + x);
    let y = u + front;
    assert(at > 0);
    assert(h.len() > 0) by {
        if h.len() == 0 {
            assert(encode_utf8(h).len() == 0);
        }
    }
    assert(y.len() > 0 && y.last() == '\n') by {
        assert((v + front).last() == '\n');
        if front.len() > 0 {
            assert(y.last() == front.last());
        } else {
            assert(v + front =~= v);
            assert(y =~= u);
        }
    }
    let nl = if at >= 2 && bytes[at - 2] == 13 {
        "\r\n"@
    } else {
        "\n"@
    };
    assert(a =~= (y + nl) + w);
    assert((y + nl).last() == '\n');
    lemma_lines_are(y + nl, w);
    let cr = nl.drop_last();
    assert((y + nl).drop_last() =~= y + cr);
    assert(all_in(cr, CharClass::NotOne('\n')));
    lemma_lines_are(y, cr);
    let line = cr + seq!['\n'];
    assert(all_in(line, CharClass::White));
    lemma_lead_len(line, CharClass::White, line.len() as int);
    assert(trimmed_start(line).len() == 0);
    lemma_trail_len_facts(trimmed_start(line), CharClass::White);
}

/// No blank line is missing above a comment in the source that a run leaves.
#[verifier::spinoff_prover]
pub proof fn lemma_no_blank_missing(
    src: Seq<char>,
    comments: Seq<CommentText>,
    found: Seq<CommentText>,
    i: int,
    lang: Language,
    limit: usize,
    tab_width: usize,
)
    requires
        comments_set(src, comments, lang, limit, tab_width),
        found.len() == comments.len(),
        0 <= i < comments.len(),
        is_replaced(comments[i], lang, limit, tab_width),
        found[i].is_trailing == comments[i].is_trailing,
        is_placed(src, comments, i, found[i], lang, limit, tab_width),
        i > 0 ==> is_placed(src, comments, i - 1, found[i - 1], lang, limit, tab_width),
    ensures
        ({
            let c = comments[i];
            let out = rewritten(src, planned(src, comments, lang, limit, tab_width));
            !needs_blank(
                out,
                found[i],
                style_of(c.text),
                emitted(c, lang, limit, tab_width).contains('\n'),
                ahead_of(found, i),
                lang,
            )
        }),
{
    let c = comments[i];
    let d = found[i];
    let len = encode_utf8(src).len() as int;
    let out = rewritten(src, planned(src, comments, lang, limit, tab_width));
    let a = new_front(src, comments, i, lang, limit, tab_width);
    let t = new_text(src, c, lang, limit, tab_width);
    let z = new_rest(src, comments, i + 1, lang, limit, tab_width);
    let multiline = emitted(c, lang, limit, tab_width).contains('\n');
    lemma_around(src, comments, i, lang, limit, tab_width);
    lemma_in_front(src, comments, i, lang, limit, tab_width);
    assert(well_set(src, comments, i, lang, limit, tab_width));
    if gets_blank(src, comments, i, lang, limit, tab_width) {
        lemma_blank_went_in(src, comments, i, lang, limit, tab_width);
        crate::blank_lines::lemma_flush(
            a,
            t,
            z,
            d,
            style_of(c.text),
            multiline,
            ahead_of(found, i),
            lang,
        );
    } else {
        let u = new_upto(src, comments, i, lang, limit, tab_width);
        let v = span(src, 0, end_of(comments, i));
        let x = span(src, end_of(comments, i), c.start_byte);
        let own = own_text(src, c);
        let zs = span(src, c.end_byte, len);
        lemma_ahead_alike(src, comments, i, lang, limit, tab_width);
        if !c.is_trailing {
            lemma_lead_line(src, comments, i, lang, limit, tab_width);
        }
        if i > 0 {
            assert(well_set(src, comments, i - 1, lang, limit, tab_width));
            lemma_text_ends(src, comments, i - 1, lang, limit, tab_width);
            lemma_in_front(src, comments, i, lang, limit, tab_width);
            assert(u.last() == new_text(src, comments[i - 1], lang, limit, tab_width).last());
            let b = new_front(src, comments, i - 1, lang, limit, tab_width);
            let s = new_text(src, comments[i - 1], lang, limit, tab_width);
            lemma_encode_concat(b, s);
            lemma_encode_len(s);
            let o = comments[i - 1];
            lemma_span_bytes(src, o.start_byte, o.end_byte);
            lemma_encode_len(own_text(src, o));
        }
        if leads_with(trimmed_start(zs), CharClass::One('{')) {
            lemma_brace_stays(src, comments, i, lang, limit, tab_width);
        }
        lemma_not_needed_again(
            v,
            u,
            x,
            own,
            t,
            zs,
            z,
            c,
            d,
            style_of(c.text),
            multiline,
            ahead_of(comments, i),
            ahead_of(found, i),
            lang,
        );
    }
}

} // verus!
