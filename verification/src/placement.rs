//! Where comments stand in the source that a run leaves.

use crate::bytes::{
    lemma_encode_concat, lemma_line_start, lemma_line_start_boundary, lemma_source_ends,
    lemma_span_bytes, line_start, span, span_ok,
};
use crate::classify::{kind_of, style_of};
use crate::comment::CommentText;
use crate::final_form::{emitted, is_no_page};
use crate::language::Language;
use crate::normalize::closer_split;
use crate::plan_laws::apart;
use crate::planner::{
    blank_lead, closer_indent, closer_splices, comment_splices, in_place_splices, needs_blank,
    planned, planned_upto,
};
use crate::reflow::is_block;
use crate::rewrite::{final_break, not_after, ordered, resume_at, rewritten, rewritten_upto, Splice};
use crate::source_laws::is_replaced;
use vstd::prelude::*;
use vstd::utf8::{encode_utf8, encode_utf8_decode_utf8};

verus! {

/// Two stretches of a source that meet are one.
pub proof fn lemma_span_join(src: Seq<char>, a: int, b: int, c: int)
    requires
        span_ok(src, a, b),
        span_ok(src, b, c),
    ensures
        span(src, a, b) + span(src, b, c) == span(src, a, c),
{
    let bytes = encode_utf8(src);
    lemma_span_bytes(src, a, b);
    lemma_span_bytes(src, b, c);
    lemma_span_bytes(src, a, c);
    let both = span(src, a, b) + span(src, b, c);
    lemma_encode_concat(span(src, a, b), span(src, b, c));
    assert(bytes.subrange(a, b) + bytes.subrange(b, c) =~= bytes.subrange(a, c));
    encode_utf8_decode_utf8(both);
    encode_utf8_decode_utf8(span(src, a, c));
}

pub proof fn lemma_span_empty(src: Seq<char>, a: int)
    requires
        0 <= a <= encode_utf8(src).len(),
    ensures
        span(src, a, a).len() == 0,
{
    assert(encode_utf8(src).subrange(a, a) =~= encode_utf8(Seq::<char>::empty()));
    encode_utf8_decode_utf8(Seq::<char>::empty());
}

/// A text between two others is found where they leave it.
pub proof fn lemma_span_middle(a: Seq<char>, b: Seq<char>, c: Seq<char>)
    ensures
        ({
            let n = encode_utf8(a).len() as int;
            let m = n + encode_utf8(b).len();
            span(a + b + c, n, m) == b && span_ok(a + b + c, n, m)
        }),
{
    let n = encode_utf8(a).len() as int;
    let m = n + encode_utf8(b).len();
    lemma_encode_concat(a, b);
    lemma_encode_concat(a + b, c);
    let bytes = encode_utf8(a + b + c);
    assert(bytes.subrange(n, m) =~= encode_utf8(b));
    encode_utf8_decode_utf8(b);
    crate::bytes::lemma_boundary_between(a, b + c);
    assert(a + (b + c) =~= a + b + c);
    crate::bytes::lemma_boundary_between(a + b, c);
}

/// The comment that stands ahead of comment `i`.
pub open spec fn ahead_of(comments: Seq<CommentText>, i: int) -> Option<CommentText> {
    if i > 0 {
        Some(comments[i - 1])
    } else {
        None
    }
}

/// Where the source goes on behind the first `n` comments.
pub open spec fn end_of(comments: Seq<CommentText>, n: int) -> int {
    if n > 0 {
        comments[n - 1].end_byte
    } else {
        0
    }
}

/// A blank line goes in above comment `i`.
pub open spec fn gets_blank(
    src: Seq<char>,
    comments: Seq<CommentText>,
    i: int,
    lang: Language,
    limit: usize,
    tab_width: usize,
) -> bool {
    let c = comments[i];
    is_replaced(c, lang, limit, tab_width) && needs_blank(
        src,
        c,
        style_of(c.text),
        emitted(c, lang, limit, tab_width).contains('\n'),
        ahead_of(comments, i),
        lang,
    )
}

/// The source text that stands in the place of a comment after a run.
pub open spec fn new_text(
    src: Seq<char>,
    c: CommentText,
    lang: Language,
    limit: usize,
    tab_width: usize,
) -> Seq<char> {
    let own = span(src, c.start_byte, c.end_byte);
    if is_replaced(c, lang, limit, tab_width) {
        emitted(c, lang, limit, tab_width) + final_break(own)
    } else if c.left_alone(kind_of(c.text, lang), lang, limit) && is_block(style_of(c.text))
        && closer_indent(src, c, lang) is Some && closer_split(
        c.text,
        closer_indent(src, c, lang)->0,
    ) is Some && (closer_split(c.text, closer_indent(src, c, lang)->0)->0).len() > 0 {
        closer_split(c.text, closer_indent(src, c, lang)->0)->0 + final_break(own)
    } else {
        own
    }
}

/// What goes in front of the text of comment `i`: what stood there, and the blank
/// line where it gets one.
pub open spec fn new_lead(
    src: Seq<char>,
    comments: Seq<CommentText>,
    i: int,
    lang: Language,
    limit: usize,
    tab_width: usize,
) -> Seq<char> {
    let c = comments[i];
    let at = line_start(encode_utf8(src), c.start_byte);
    if gets_blank(src, comments, i, lang, limit, tab_width) {
        span(src, end_of(comments, i), at) + blank_lead(src, c)
    } else {
        span(src, end_of(comments, i), c.start_byte)
    }
}

/// The rewritten source up to the end of the first `n` comments.
pub open spec fn new_upto(
    src: Seq<char>,
    comments: Seq<CommentText>,
    n: int,
    lang: Language,
    limit: usize,
    tab_width: usize,
) -> Seq<char>
    decreases n,
{
    if n <= 0 {
        Seq::empty()
    } else {
        new_upto(src, comments, n - 1, lang, limit, tab_width) + new_lead(
            src,
            comments,
            n - 1,
            lang,
            limit,
            tab_width,
        ) + new_text(src, comments[n - 1], lang, limit, tab_width)
    }
}

/// The comments lie apart in the source, none of them moves, and a blank line goes
/// in between them only.
pub open spec fn lie_apart(
    src: Seq<char>,
    comments: Seq<CommentText>,
    lang: Language,
    limit: usize,
    tab_width: usize,
) -> bool {
    &&& apart(comments)
    &&& forall|i: int|
        0 <= i < comments.len() ==> (#[trigger] comments[i]).placed(src)
            && comments[i].param_shift is None && is_no_page(comments[i], lang, limit)
    &&& forall|i: int|
        0 <= i < comments.len() && #[trigger] gets_blank(src, comments, i, lang, limit, tab_width)
            ==> end_of(comments, i) <= line_start(encode_utf8(src), comments[i].start_byte)
}

/// What a run does to one comment that does not move.
proof fn lemma_one_edit(
    src: Seq<char>,
    comments: Seq<CommentText>,
    i: int,
    lang: Language,
    limit: usize,
    tab_width: usize,
)
    requires
        lie_apart(src, comments, lang, limit, tab_width),
        0 <= i < comments.len(),
    ensures
        ({
            let c = comments[i];
            let own = span(src, c.start_byte, c.end_byte);
            let text = new_text(src, c, lang, limit, tab_width);
            let at = line_start(encode_utf8(src), c.start_byte);
            comment_splices(src, c, ahead_of(comments, i), lang, limit, tab_width) == if gets_blank(
                src,
                comments,
                i,
                lang,
                limit,
                tab_width,
            ) {
                seq![Splice { start: at, end: c.end_byte, text: blank_lead(src, c) + text }]
            } else if text == own {
                Seq::empty()
            } else {
                seq![Splice { start: c.start_byte, end: c.end_byte, text }]
            }
        }),
{
    reveal(comment_splices);
    reveal(closer_splices);
    reveal(in_place_splices);
    let c = comments[i];
    assert(!c.normalized(kind_of(c.text, lang), lang, limit).manpage) by {
        reveal(is_no_page);
        reveal(CommentText::normalized);
    }
}

/// Splices that are in order stay so.
proof fn lemma_in_order(v: Seq<Splice>, n: int)
    requires
        0 <= n <= v.len(),
        forall|k: int| 0 < k < v.len() ==> not_after(v[k - 1], #[trigger] v[k]),
    ensures
        ordered(v, n) == v.take(n),
    decreases n,
{
    if n > 0 {
        lemma_in_order(v, n - 1);
        if n > 1 {
            assert(not_after(v[n - 2], v[n - 1]));
            assert(v.take(n - 1).last() == v[n - 2]);
        }
        assert(v.take(n - 1).push(v[n - 1]) =~= v.take(n));
    } else {
        assert(v.take(0) =~= Seq::empty());
    }
}

/// The front of a rewriting depends on the first splices alone.
proof fn lemma_rewritten_front(src: Seq<char>, v: Seq<Splice>, e: Splice, n: int)
    requires
        0 <= n <= v.len(),
    ensures
        rewritten_upto(src, v.push(e), n) == rewritten_upto(src, v, n),
        resume_at(v.push(e), n) == resume_at(v, n),
    decreases n,
{
    if n > 0 {
        lemma_rewritten_front(src, v, e, n - 1);
        assert(v.push(e)[n - 1] == v[n - 1]);
    }
}

/// What the first `n` comments are rewritten to.
#[verifier::spinoff_prover]
proof fn lemma_new_upto(
    src: Seq<char>,
    comments: Seq<CommentText>,
    n: int,
    lang: Language,
    limit: usize,
    tab_width: usize,
)
    requires
        lie_apart(src, comments, lang, limit, tab_width),
        0 <= n <= comments.len(),
    ensures
        ({
            let v = planned_upto(src, comments, n, lang, limit, tab_width);
            let from = resume_at(v, v.len() as int);
            &&& forall|k: int| 0 < k < v.len() ==> not_after(v[k - 1], #[trigger] v[k])
            &&& v.len() > 0 ==> v.last().start <= v.last().end == from
            &&& span_ok(src, from, end_of(comments, n))
            &&& rewritten_upto(src, v, v.len() as int) + span(src, from, end_of(comments, n))
                == new_upto(src, comments, n, lang, limit, tab_width)
        }),
    decreases n,
{
    lemma_source_ends(src);
    let v = planned_upto(src, comments, n, lang, limit, tab_width);
    if n == 0 {
        lemma_span_empty(src, 0);
        assert(Seq::<char>::empty() + span(src, 0, 0) =~= Seq::<char>::empty());
    } else {
        lemma_new_upto(src, comments, n - 1, lang, limit, tab_width);
        lemma_one_edit(src, comments, n - 1, lang, limit, tab_width);
        let w = planned_upto(src, comments, n - 1, lang, limit, tab_width);
        let m = w.len() as int;
        let c = comments[n - 1];
        let from = resume_at(w, m);
        let old = end_of(comments, n - 1);
        assert(c.placed(src));
        if n > 1 {
            assert(comments[n - 2].end_byte <= c.start_byte);
        }
        let at = line_start(encode_utf8(src), c.start_byte);
        lemma_line_start(encode_utf8(src), c.start_byte);
        lemma_line_start_boundary(src, c.start_byte);
        let edit = comment_splices(src, c, ahead_of(comments, n - 1), lang, limit, tab_width);
        assert(v == w + edit);
        let text = new_text(src, c, lang, limit, tab_width);
        let lead = new_lead(src, comments, n - 1, lang, limit, tab_width);
        if edit.len() == 0 {
            assert(v =~= w);
            lemma_kept_step(src, w, old, c.start_byte, c.end_byte);
        } else {
            let e = edit[0];
            assert(v =~= w.push(e));
            lemma_edit_step(src, w, e, old);
            assert forall|k: int| 0 < k < v.len() implies not_after(v[k - 1], #[trigger] v[k]) by {
                if k < m {
                    assert(v[k] == w[k] && v[k - 1] == w[k - 1]);
                }
            }
            let done = new_upto(src, comments, n - 1, lang, limit, tab_width);
            if gets_blank(src, comments, n - 1, lang, limit, tab_width) {
                assert(done + span(src, old, at) + (blank_lead(src, c) + text) =~= done + (span(
                    src,
                    old,
                    at,
                ) + blank_lead(src, c)) + text);
            }
        }
    }
}

/// A comment that keeps its text goes on with what stood ahead of it.
proof fn lemma_kept_step(src: Seq<char>, w: Seq<Splice>, old: int, a: int, b: int)
    requires
        span_ok(src, resume_at(w, w.len() as int), old),
        span_ok(src, old, a),
        span_ok(src, a, b),
    ensures
        ({
            let m = w.len() as int;
            let from = resume_at(w, m);
            let before = rewritten_upto(src, w, m);
            before + span(src, from, b) == before + span(src, from, old) + span(src, old, a) + span(
                src,
                a,
                b,
            )
        }),
{
    let from = resume_at(w, w.len() as int);
    let before = rewritten_upto(src, w, w.len() as int);
    lemma_span_join(src, from, old, a);
    lemma_span_join(src, from, a, b);
    let x = span(src, from, old);
    let y = span(src, old, a);
    let z = span(src, a, b);
    assert(before + (x + y + z) =~= before + x + y + z);
}

/// A splice goes in behind what stood ahead of it.
proof fn lemma_edit_step(src: Seq<char>, w: Seq<Splice>, e: Splice, old: int)
    requires
        span_ok(src, resume_at(w, w.len() as int), old),
        span_ok(src, old, e.start),
        span_ok(src, e.end, e.end),
    ensures
        ({
            let m = w.len() as int;
            let v = w.push(e);
            let done = rewritten_upto(src, w, m) + span(src, resume_at(w, m), old);
            &&& resume_at(v, m + 1) == e.end
            &&& rewritten_upto(src, v, m + 1) + span(src, e.end, e.end) == done + span(
                src,
                old,
                e.start,
            ) + e.text
        }),
{
    let m = w.len() as int;
    let v = w.push(e);
    let from = resume_at(w, m);
    lemma_rewritten_front(src, w, e, m);
    lemma_span_join(src, from, old, e.start);
    lemma_span_empty(src, e.end);
    let before = rewritten_upto(src, w, m);
    let x = span(src, from, old);
    let y = span(src, old, e.start);
    assert(rewritten_upto(src, v, m + 1) == before + (x + y) + e.text);
    assert(before + (x + y) + e.text + span(src, e.end, e.end) =~= before + x + y + e.text);
}

/// The source that a run leaves: the comments' new texts, and what lies between
/// them.
pub proof fn lemma_rewritten_is(
    src: Seq<char>,
    comments: Seq<CommentText>,
    lang: Language,
    limit: usize,
    tab_width: usize,
)
    requires
        lie_apart(src, comments, lang, limit, tab_width),
    ensures
        rewritten(src, planned(src, comments, lang, limit, tab_width)) == new_upto(
            src,
            comments,
            comments.len() as int,
            lang,
            limit,
            tab_width,
        ) + span(src, end_of(comments, comments.len() as int), encode_utf8(src).len() as int),
{
    let n = comments.len() as int;
    let len = encode_utf8(src).len() as int;
    let v = planned(src, comments, lang, limit, tab_width);
    lemma_new_upto(src, comments, n, lang, limit, tab_width);
    lemma_in_order(v, v.len() as int);
    assert(v.take(v.len() as int) =~= v);
    lemma_source_ends(src);
    let from = resume_at(v, v.len() as int);
    let old = end_of(comments, n);
    lemma_span_join(src, from, old, len);
    let a = rewritten_upto(src, v, v.len() as int);
    assert(a + (span(src, from, old) + span(src, old, len)) =~= a + span(src, from, old) + span(
        src,
        old,
        len,
    ));
}

} // verus!
