//! A second run over a source in which comments move changes nothing.

use crate::blank_lines::{
    above_of, hash_known, lemma_flush, lemma_not_needed_again, lemma_not_needed_inside, line_of,
};
use crate::bytes::{
    lemma_encode_concat, lemma_line_start, lemma_source_ends, lemma_span_bytes, line_start, span,
    span_ok,
};
use crate::classify::style_of;
use crate::comment::CommentText;
use crate::directive::bare_cr;
use crate::final_form::{emitted, is_page};
use crate::language::Language;
use crate::lines_before::{lemma_lines_are, lemma_lines_of, open_line, whole_lines};
use crate::placement::{
    ahead_of, gets_blank, lemma_span_empty, lemma_span_join, lemma_span_middle, new_text,
};
use crate::planner::{blank_above, blank_lead, closer_indent, found_comments, needs_blank, planned};
use crate::rewrite::{
    applicable, final_break, in_source_order, resume_at, rewritten, rewritten_upto, Splice,
};
use crate::run_places::own_text;
use crate::source_laws::{
    after_run, carried, comment_settles, is_ready, is_replaced,
    law_settled_comments_settle_the_source, lemma_closer_settled, lemma_returns_inside,
};
use crate::text::{
    all_in, leads_with, lemma_lead_len, lemma_trail_len_facts, trimmed, trimmed_start, CharClass,
};
use vstd::prelude::*;
use vstd::utf8::{encode_utf8, encode_utf8_decode_utf8};

verus! {

/// Byte offset `p` lies between edit `k - 1` and edit `k`.
pub open spec fn lies_ahead(src: Seq<char>, o: Seq<Splice>, k: int, p: int) -> bool {
    &&& 0 <= k <= o.len()
    &&& span_ok(src, resume_at(o, k), p)
    &&& span_ok(
        src,
        p,
        if k < o.len() {
            o[k].start
        } else {
            encode_utf8(src).len() as int
        },
    )
}

/// The rewritten source up to such a place.
pub open spec fn up_to(src: Seq<char>, o: Seq<Splice>, k: int, p: int) -> Seq<char> {
    rewritten_upto(src, o, k) + span(src, resume_at(o, k), p)
}

/// The rewritten source from such a place on.
pub open spec fn from_on(src: Seq<char>, o: Seq<Splice>, k: int, p: int) -> Seq<char>
    decreases o.len() - k,
{
    if k >= o.len() {
        span(src, p, encode_utf8(src).len() as int)
    } else {
        span(src, p, o[k].start) + o[k].text + from_on(src, o, k + 1, o[k].end)
    }
}

/// The rewritten source around a place.
proof fn lemma_around_place(src: Seq<char>, v: Seq<Splice>, k: int, p: int)
    requires
        applicable(v, src),
        lies_ahead(src, in_source_order(v), k, p),
    ensures
        rewritten(src, v) == up_to(src, in_source_order(v), k, p) + from_on(
            src,
            in_source_order(v),
            k,
            p,
        ),
    decreases in_source_order(v).len() - k,
{
    let o = in_source_order(v);
    let len = encode_utf8(src).len() as int;
    let from = resume_at(o, k);
    let done = rewritten_upto(src, o, k);
    lemma_source_ends(src);
    if k >= o.len() {
        lemma_span_join(src, from, p, len);
        assert(done + span(src, from, p) + span(src, p, len) =~= done + (span(src, from, p) + span(
            src,
            p,
            len,
        )));
    } else {
        let e = o[k];
        assert(span_ok(src, o[k].start, o[k].end));
        lemma_span_join(src, from, p, e.start);
        lemma_span_empty(src, e.end);
        if k + 1 < o.len() {
            assert(o[k + 1 - 1].end <= o[k + 1].start);
            assert(span_ok(src, o[k + 1].start, o[k + 1].end));
        }
        lemma_around_place(src, v, k + 1, e.end);
        let rest = from_on(src, o, k + 1, e.end);
        let a = span(src, from, p);
        let b = span(src, p, e.start);
        let more = up_to(src, o, k + 1, e.end);
        assert(more =~= done + (a + b) + e.text);
        assert(done + a + (b + e.text + rest) =~= more + rest);
    }
}

/// What goes in front of a manual page where it is put.
pub open spec fn page_lead(src: Seq<char>, c: CommentText) -> Seq<char> {
    if blank_above(encode_utf8(src), c.relocate_before->0 as int) {
        Seq::empty()
    } else {
        c.fallback_ending
    }
}

/// The comment is a manual page that the run moves.
pub open spec fn moves_ahead(c: CommentText, lang: Language, limit: usize, tab_width: usize) -> bool {
    is_page(c, lang, limit) && is_replaced(c, lang, limit, tab_width)
}

/// The place of comment `i` that the run goes by: where it is put, where its blank
/// line goes in, or where it starts.
pub open spec fn place_of(
    src: Seq<char>,
    comments: Seq<CommentText>,
    i: int,
    lang: Language,
    limit: usize,
    tab_width: usize,
) -> int {
    let c = comments[i];
    if moves_ahead(c, lang, limit, tab_width) {
        c.relocate_before->0 as int
    } else if gets_blank(src, comments, i, lang, limit, tab_width) {
        line_start(encode_utf8(src), c.start_byte)
    } else {
        c.start_byte
    }
}

/// What goes in at that place ahead of the comment.
pub open spec fn lead_of(
    src: Seq<char>,
    comments: Seq<CommentText>,
    i: int,
    lang: Language,
    limit: usize,
    tab_width: usize,
) -> Seq<char> {
    let c = comments[i];
    if moves_ahead(c, lang, limit, tab_width) {
        page_lead(src, c)
    } else if gets_blank(src, comments, i, lang, limit, tab_width) {
        blank_lead(src, c)
    } else {
        Seq::empty()
    }
}

/// The text of the comment after the run.
pub open spec fn text_of(
    src: Seq<char>,
    c: CommentText,
    lang: Language,
    limit: usize,
    tab_width: usize,
) -> Seq<char> {
    if moves_ahead(c, lang, limit, tab_width) {
        emitted(c, lang, limit, tab_width)
    } else {
        new_text(src, c, lang, limit, tab_width)
    }
}

/// Edit `k` is the one that comment `i` is put in place by; where it needs none, the
/// comment lies between edit `k - 1` and edit `k`.
pub open spec fn put_by(
    src: Seq<char>,
    comments: Seq<CommentText>,
    o: Seq<Splice>,
    i: int,
    k: int,
    lang: Language,
    limit: usize,
    tab_width: usize,
) -> bool {
    let c = comments[i];
    let at = place_of(src, comments, i, lang, limit, tab_width);
    let lead = lead_of(src, comments, i, lang, limit, tab_width);
    let t = text_of(src, c, lang, limit, tab_width);
    if moves_ahead(c, lang, limit, tab_width) {
        let nl = c.fallback_ending;
        0 <= k < o.len() && o[k] == (Splice { start: at, end: at, text: lead + t + nl + nl })
    } else if gets_blank(src, comments, i, lang, limit, tab_width) || t != own_text(src, c) {
        0 <= k < o.len() && o[k] == (Splice { start: at, end: c.end_byte, text: lead + t })
    } else {
        lies_ahead(src, o, k, c.start_byte) && lies_ahead(src, o, k, c.end_byte)
    }
}

/// What stands in front of the comment in the rewritten source.
pub open spec fn front_of(
    src: Seq<char>,
    comments: Seq<CommentText>,
    o: Seq<Splice>,
    i: int,
    k: int,
    lang: Language,
    limit: usize,
    tab_width: usize,
) -> Seq<char> {
    up_to(src, o, k, place_of(src, comments, i, lang, limit, tab_width)) + lead_of(
        src,
        comments,
        i,
        lang,
        limit,
        tab_width,
    )
}

/// The rewritten source around a comment: its text stands between what is put in
/// front of it and the rest.
proof fn lemma_put(
    src: Seq<char>,
    comments: Seq<CommentText>,
    i: int,
    k: int,
    lang: Language,
    limit: usize,
    tab_width: usize,
) -> (z: Seq<char>)
    requires
        ({
            let v = planned(src, comments, lang, limit, tab_width);
            &&& applicable(v, src)
            &&& 0 <= i < comments.len()
            &&& comments[i].placed(src)
            &&& put_by(src, comments, in_source_order(v), i, k, lang, limit, tab_width)
        }),
    ensures
        ({
            let v = planned(src, comments, lang, limit, tab_width);
            let o = in_source_order(v);
            let f = front_of(src, comments, o, i, k, lang, limit, tab_width);
            let t = text_of(src, comments[i], lang, limit, tab_width);
            rewritten(src, v) == f + t + z
        }),
        !moves_ahead(comments[i], lang, limit, tab_width) ==> z == from_behind(
            src,
            comments,
            in_source_order(planned(src, comments, lang, limit, tab_width)),
            i,
            k,
            lang,
            limit,
            tab_width,
        ),
{
    let v = planned(src, comments, lang, limit, tab_width);
    let o = in_source_order(v);
    let c = comments[i];
    let at = place_of(src, comments, i, lang, limit, tab_width);
    let lead = lead_of(src, comments, i, lang, limit, tab_width);
    let t = text_of(src, c, lang, limit, tab_width);
    let done = rewritten_upto(src, o, k);
    let a = up_to(src, o, k, at);
    if moves_ahead(c, lang, limit, tab_width) || gets_blank(
        src,
        comments,
        i,
        lang,
        limit,
        tab_width,
    ) || t != own_text(src, c) {
        let e = o[k];
        assert(span_ok(src, o[k].start, o[k].end));
        lemma_source_ends(src);
        assert(lies_ahead(src, o, k, at)) by {
            if k > 0 {
                assert(o[k - 1].end <= o[k].start);
                assert(span_ok(src, o[k - 1].start, o[k - 1].end));
            }
        }
        lemma_around_place(src, v, k, at);
        lemma_span_empty(src, at);
        let more = from_on(src, o, k + 1, e.end);
        assert(from_on(src, o, k, at) =~= e.text + more);
        let z = if moves_ahead(c, lang, limit, tab_width) {
            c.fallback_ending + c.fallback_ending + more
        } else {
            more
        };
        assert(a + (e.text + more) =~= a + lead + t + z);
        z
    } else {
        lemma_around_place(src, v, k, c.end_byte);
        let from = resume_at(o, k);
        lemma_span_join(src, from, c.start_byte, c.end_byte);
        let z = from_on(src, o, k, c.end_byte);
        assert(up_to(src, o, k, c.end_byte) =~= up_to(src, o, k, c.start_byte) + own_text(src, c));
        assert(a + lead =~= a);
        z
    }
}

/// What follows a comment that does not move in the rewritten source.
pub open spec fn from_behind(
    src: Seq<char>,
    comments: Seq<CommentText>,
    o: Seq<Splice>,
    i: int,
    k: int,
    lang: Language,
    limit: usize,
    tab_width: usize,
) -> Seq<char> {
    let c = comments[i];
    if gets_blank(src, comments, i, lang, limit, tab_width) || text_of(
        src,
        c,
        lang,
        limit,
        tab_width,
    ) != own_text(src, c) {
        from_on(src, o, k + 1, c.end_byte)
    } else {
        from_on(src, o, k, c.end_byte)
    }
}

/// Text that ends in a line feed, and a line break behind it.
proof fn lemma_blank_line(y: Seq<char>, nl: Seq<char>, w: Seq<char>)
    requires
        y.len() > 0 ==> y.last() == '\n',
        nl == "\n"@ || nl == "\r\n"@,
        all_in(w, CharClass::NotOne('\n')),
    ensures
        trimmed(line_of(y + nl + w) + seq!['\n']).len() == 0,
{
    reveal_strlit("\n");
    reveal_strlit("\r\n");
    assert((y + nl).last() == '\n');
    lemma_lines_are(y + nl, w);
    let cr = nl.drop_last();
    assert((y + nl).drop_last() =~= y + cr);
    assert(all_in(cr, CharClass::NotOne('\n')));
    lemma_lines_are(y, cr);
    lemma_only_white(cr + seq!['\n']);
}

proof fn lemma_only_white(line: Seq<char>)
    requires
        all_in(line, CharClass::White),
    ensures
        trimmed(line).len() == 0,
{
    lemma_lead_len(line, CharClass::White, line.len() as int);
    assert(trimmed_start(line).len() == 0);
    lemma_trail_len_facts(trimmed_start(line), CharClass::White);
}

/// Nothing moves close to comment `i` of the source, which edit `k` puts in place, and
/// which is found again behind the comment `ahead`. Else a page that moves away from the
/// line above leaves code there, and a blank line is missing.
/// - The text ahead of a page or of a blank line that goes in ends its line there.
/// - The line above another comment is one that the run leaves alone, or the comment
///   ahead, which does not move, ends on it and is ahead again.
/// - A brace that follows the comment follows it again.
pub open spec fn stands_clear(
    src: Seq<char>,
    comments: Seq<CommentText>,
    o: Seq<Splice>,
    i: int,
    k: int,
    ahead: Option<CommentText>,
    lang: Language,
    limit: usize,
    tab_width: usize,
) -> bool {
    let c = comments[i];
    let at = place_of(src, comments, i, lang, limit, tab_width);
    let v = span(src, 0, resume_at(o, k));
    let u = rewritten_upto(src, o, k);
    let x = span(src, resume_at(o, k), at);
    let zs = span(src, c.end_byte, encode_utf8(src).len() as int);
    let prev = ahead_of(comments, i);
    if moves_ahead(c, lang, limit, tab_width) {
        &&& at == line_start(encode_utf8(src), at)
        &&& 0 <= at <= encode_utf8(src).len()
        &&& k == 0 || (x.len() > 0 && (page_lead(src, c).len() == 0 ==> whole_lines(
            whole_lines(x).drop_last(),
        ).len() > 0))
    } else if gets_blank(src, comments, i, lang, limit, tab_width) {
        k == 0 || x.len() > 0 || u.last() == '\n'
    } else {
        &&& hash_known(v, x, own_text(src, c), zs, lang)
        &&& lang != Language::Asm
        &&& leads_with(trimmed_start(zs), CharClass::One('{')) ==> leads_with(
            trimmed_start(from_behind(src, comments, o, i, k, lang, limit, tab_width)),
            CharClass::One('{'),
        )
        &&& {
            ||| {
                &&& v.len() == 0 && u.len() == 0 || whole_lines(x).len() > 0 && above_of(x).len()
                    > 0 && v.len() > 0 && u.len() > 0
                &&& crate::blank_lines::ends_above(prev, v + x)
                    ==> crate::blank_lines::ends_above(ahead, u + x)
            }
            ||| {
                &&& crate::blank_lines::ends_alike(u, v)
                &&& v.len() > 0
                &&& !c.is_trailing && v.last() != '\n' ==> whole_lines(x).len() > 0
                &&& prev is Some && prev->0.end_byte == encode_utf8(v).len()
                    && prev->0.start_byte < prev->0.end_byte
                &&& ahead is Some && ahead->0.end_byte == encode_utf8(u).len()
                    && ahead->0.start_byte < ahead->0.end_byte
            }
        }
    }
}

/// No blank line is missing above a comment that the run put in place.
proof fn lemma_none_missing(
    src: Seq<char>,
    comments: Seq<CommentText>,
    i: int,
    k: int,
    d: CommentText,
    ahead: Option<CommentText>,
    lang: Language,
    limit: usize,
    tab_width: usize,
)
    requires
        ({
            let v = planned(src, comments, lang, limit, tab_width);
            let o = in_source_order(v);
            let f = front_of(src, comments, o, i, k, lang, limit, tab_width);
            let t = text_of(src, comments[i], lang, limit, tab_width);
            &&& applicable(v, src)
            &&& 0 <= i < comments.len()
            &&& comments[i].placed(src)
            &&& put_by(src, comments, o, i, k, lang, limit, tab_width)
            &&& stands_clear(src, comments, o, i, k, ahead, lang, limit, tab_width)
            &&& is_replaced(comments[i], lang, limit, tab_width)
            &&& d.start_byte == encode_utf8(f).len()
            &&& d.end_byte == encode_utf8(f + t).len()
            &&& !moves_ahead(comments[i], lang, limit, tab_width) ==> d.is_trailing
                == comments[i].is_trailing
            &&& comments[i].fallback_ending == "\n"@ || comments[i].fallback_ending == "\r\n"@
        }),
    ensures
        !needs_blank(
            rewritten(src, planned(src, comments, lang, limit, tab_width)),
            d,
            style_of(comments[i].text),
            emitted(comments[i], lang, limit, tab_width).contains('\n'),
            ahead,
            lang,
        ),
{
    let v = planned(src, comments, lang, limit, tab_width);
    let o = in_source_order(v);
    let c = comments[i];
    let z = lemma_put(src, comments, i, k, lang, limit, tab_width);
    if moves_ahead(c, lang, limit, tab_width) {
        lemma_page_clear(src, comments, i, k, d, ahead, z, lang, limit, tab_width);
    } else if gets_blank(src, comments, i, lang, limit, tab_width) {
        lemma_blank_clear(src, comments, i, k, d, ahead, z, lang, limit, tab_width);
    } else {
        lemma_place_clear(src, comments, i, k, d, ahead, z, lang, limit, tab_width);
    }
}

/// A stretch up to a line start ends in a line feed.
proof fn lemma_stretch_ends(src: Seq<char>, from: int, at: int)
    requires
        span_ok(src, from, at),
        at > 0 ==> encode_utf8(src)[at - 1] == 10u8,
    ensures
        span(src, from, at).len() > 0 ==> span(src, from, at).last() == '\n',
        from < at ==> span_ok(src, from, at - 1) && span(src, from, at) == span(src, from, at - 1)
            + seq!['\n'],
{
    let b = encode_utf8(src);
    lemma_source_ends(src);
    if from < at {
        crate::bytes::lemma_ascii_boundary(src, at - 1);
        lemma_span_join(src, from, at - 1, at);
        lemma_one_byte(src, at - 1, '\n');
        crate::lines_before::lemma_line_feed_byte();
    } else {
        lemma_span_empty(src, at);
    }
}

/// A stretch of one byte.
proof fn lemma_one_byte(src: Seq<char>, i: int, c: char)
    requires
        0 <= i < encode_utf8(src).len(),
        c == '\n' && encode_utf8(src)[i] == 10u8 || c == '\r' && encode_utf8(src)[i] == 13u8,
    ensures
        span(src, i, i + 1) == seq![c],
{
    let s = seq![c];
    assert(s.drop_first().len() == 0);
    assert(encode_utf8(s.drop_first()).len() == 0);
    assert((13u32 & 0x7fu32) as u8 == 13u8) by (bit_vector);
    crate::lines_before::lemma_line_feed_byte();
    assert(encode_utf8(seq!['\n']) =~= seq![10u8]);
    assert(c == '\r' ==> encode_utf8(s) =~= seq![13u8]);
    assert(encode_utf8(src).subrange(i, i + 1) =~= encode_utf8(s));
    encode_utf8_decode_utf8(s);
}

/// The line in front of a place below a blank line is blank.
proof fn lemma_blank_before(src: Seq<char>, from: int, at: int)
    requires
        span_ok(src, from, at),
        from < at,
        blank_above(encode_utf8(src), at),
        from == 0 || whole_lines(whole_lines(span(src, from, at)).drop_last()).len() > 0,
    ensures
        ({
            let x = span(src, from, at);
            &&& whole_lines(x).len() > 0
            &&& whole_lines(whole_lines(x).drop_last()).len() > 0
            &&& trimmed(line_of(x) + seq!['\n']).len() == 0
        }),
{
    let b = encode_utf8(src);
    let x = span(src, from, at);
    let none = Seq::<char>::empty();
    lemma_source_ends(src);
    lemma_stretch_ends(src, from, at);
    let y = span(src, from, at - 1);
    assert(x + none =~= x);
    lemma_lines_are(x, none);
    assert(x.drop_last() =~= y);
    lemma_lines_of(y);
    if from == at - 1 {
        lemma_span_empty(src, from);
    }
    if b[at - 2] == 10 {
        lemma_stretch_ends(src, from, at - 1);
        assert(y + none =~= y);
        lemma_lines_are(y, none);
        lemma_only_white(none + seq!['\n']);
    } else {
        crate::bytes::lemma_ascii_boundary(src, at - 2);
        let w = span(src, from, at - 2);
        lemma_span_join(src, from, at - 2, at - 1);
        lemma_one_byte(src, at - 2, '\r');
        let cr = seq!['\r'];
        lemma_stretch_ends(src, from, at - 2);
        if from == at - 2 {
            lemma_span_empty(src, from);
        }
        lemma_lines_are(w, cr);
        lemma_only_white(cr + seq!['\n']);
    }
}

/// What stands in front of a place on its line.
proof fn lemma_own_line(src: Seq<char>, p: int)
    requires
        span_ok(src, 0, p),
    ensures
        span(src, line_start(encode_utf8(src), p), p) == open_line(span(src, 0, p)),
{
    let len = encode_utf8(src).len() as int;
    let a = span(src, 0, p);
    let r = span(src, p, len);
    lemma_source_ends(src);
    lemma_span_join(src, 0, p, len);
    encode_utf8_decode_utf8(src);
    assert(encode_utf8(src).subrange(0, len) =~= encode_utf8(src));
    lemma_span_bytes(src, 0, p);
    let h = whole_lines(a);
    let w = open_line(a);
    lemma_lines_of(a);
    crate::lines_before::lemma_line_starts(a, r);
    assert(h + w + r =~= src);
    lemma_span_middle(h, w, r);
    lemma_encode_concat(h, w);
}

/// Above a comment that got a blank line there is one.
#[verifier::spinoff_prover]
proof fn lemma_blank_clear(
    src: Seq<char>,
    comments: Seq<CommentText>,
    i: int,
    k: int,
    d: CommentText,
    ahead: Option<CommentText>,
    z: Seq<char>,
    lang: Language,
    limit: usize,
    tab_width: usize,
)
    requires
        ({
            let v = planned(src, comments, lang, limit, tab_width);
            let o = in_source_order(v);
            let f = front_of(src, comments, o, i, k, lang, limit, tab_width);
            let t = text_of(src, comments[i], lang, limit, tab_width);
            &&& applicable(v, src)
            &&& comments[i].placed(src)
            &&& put_by(src, comments, o, i, k, lang, limit, tab_width)
            &&& stands_clear(src, comments, o, i, k, ahead, lang, limit, tab_width)
            &&& !moves_ahead(comments[i], lang, limit, tab_width)
            &&& gets_blank(src, comments, i, lang, limit, tab_width)
            &&& d.start_byte == encode_utf8(f).len()
            &&& d.end_byte == encode_utf8(f + t).len()
        }),
    ensures
        ({
            let v = planned(src, comments, lang, limit, tab_width);
            let f = front_of(src, comments, in_source_order(v), i, k, lang, limit, tab_width);
            let t = text_of(src, comments[i], lang, limit, tab_width);
            !needs_blank(
                f + t + z,
                d,
                style_of(comments[i].text),
                emitted(comments[i], lang, limit, tab_width).contains('\n'),
                ahead,
                lang,
            )
        }),
{
    reveal_strlit("\n");
    reveal_strlit("\r\n");
    let v = planned(src, comments, lang, limit, tab_width);
    let o = in_source_order(v);
    let c = comments[i];
    let b = encode_utf8(src);
    let at = line_start(b, c.start_byte);
    let a = up_to(src, o, k, at);
    let f = front_of(src, comments, o, i, k, lang, limit, tab_width);
    let t = text_of(src, c, lang, limit, tab_width);
    let none = Seq::<char>::empty();
    let x = span(src, resume_at(o, k), at);
    let w = span(src, at, c.start_byte);
    let nl = if at >= 2 && b[at - 2] == 13 {
        "\r\n"@
    } else {
        "\n"@
    };
    assert(span_ok(src, o[k].start, o[k].end));
    lemma_source_ends(src);
    if k > 0 {
        assert(o[k - 1].end <= o[k].start);
        assert(span_ok(src, o[k - 1].start, o[k - 1].end));
    }
    lemma_line_start(b, c.start_byte);
    lemma_stretch_ends(src, resume_at(o, k), at);
    lemma_own_line(src, c.start_byte);
    lemma_lines_of(span(src, 0, c.start_byte));
    assert(a.len() > 0 ==> a.last() == '\n') by {
        if k == 0 {
            assert(rewritten_upto(src, o, 0) =~= none);
            assert(a =~= x);
        } else if x.len() > 0 {
            assert(a.last() == x.last());
        } else {
            assert(a =~= rewritten_upto(src, o, k));
        }
    }
    assert(f =~= a + nl + w);
    lemma_blank_line(a, nl, w);
    lemma_flush(
        f,
        t,
        z,
        d,
        style_of(c.text),
        emitted(c, lang, limit, tab_width).contains('\n'),
        ahead,
        lang,
    );
}

/// Above a comment that needed no blank line none is needed.
#[verifier::spinoff_prover]
proof fn lemma_place_clear(
    src: Seq<char>,
    comments: Seq<CommentText>,
    i: int,
    k: int,
    d: CommentText,
    ahead: Option<CommentText>,
    z: Seq<char>,
    lang: Language,
    limit: usize,
    tab_width: usize,
)
    requires
        ({
            let v = planned(src, comments, lang, limit, tab_width);
            let o = in_source_order(v);
            let f = front_of(src, comments, o, i, k, lang, limit, tab_width);
            let t = text_of(src, comments[i], lang, limit, tab_width);
            &&& applicable(v, src)
            &&& comments[i].placed(src)
            &&& put_by(src, comments, o, i, k, lang, limit, tab_width)
            &&& stands_clear(src, comments, o, i, k, ahead, lang, limit, tab_width)
            &&& !moves_ahead(comments[i], lang, limit, tab_width)
            &&& !gets_blank(src, comments, i, lang, limit, tab_width)
            &&& is_replaced(comments[i], lang, limit, tab_width)
            &&& d.start_byte == encode_utf8(f).len()
            &&& d.end_byte == encode_utf8(f + t).len()
            &&& d.is_trailing == comments[i].is_trailing
            &&& z == from_behind(src, comments, o, i, k, lang, limit, tab_width)
        }),
    ensures
        ({
            let v = planned(src, comments, lang, limit, tab_width);
            let f = front_of(src, comments, in_source_order(v), i, k, lang, limit, tab_width);
            let t = text_of(src, comments[i], lang, limit, tab_width);
            !needs_blank(
                f + t + z,
                d,
                style_of(comments[i].text),
                emitted(comments[i], lang, limit, tab_width).contains('\n'),
                ahead,
                lang,
            )
        }),
{
    let o = in_source_order(planned(src, comments, lang, limit, tab_width));
    let c = comments[i];
    let len = encode_utf8(src).len() as int;
    let from = resume_at(o, k);
    let f = front_of(src, comments, o, i, k, lang, limit, tab_width);
    let t = text_of(src, c, lang, limit, tab_width);
    let v = span(src, 0, from);
    let u = rewritten_upto(src, o, k);
    let x = span(src, from, c.start_byte);
    let own = own_text(src, c);
    let zs = span(src, c.end_byte, len);
    lemma_source_ends(src);
    assert(span_ok(src, from, c.start_byte)) by {
        if t != own {
            assert(span_ok(src, o[k].start, o[k].end));
            if k > 0 {
                assert(o[k - 1].end <= o[k].start);
                assert(span_ok(src, o[k - 1].start, o[k - 1].end));
            }
        }
    }
    lemma_span_join(src, 0, from, c.start_byte);
    lemma_span_join(src, 0, c.start_byte, c.end_byte);
    lemma_span_join(src, 0, c.end_byte, len);
    lemma_span_bytes(src, 0, from);
    lemma_span_bytes(src, 0, c.start_byte);
    lemma_span_bytes(src, 0, c.end_byte);
    encode_utf8_decode_utf8(src);
    assert(encode_utf8(src).subrange(0, len) =~= encode_utf8(src));
    assert(f =~= u + x);
    let style = style_of(c.text);
    let multiline = emitted(c, lang, limit, tab_width).contains('\n');
    let prev = ahead_of(comments, i);
    if v.len() == 0 && u.len() == 0 || whole_lines(x).len() > 0 && above_of(x).len() > 0 && v.len()
        > 0 && u.len() > 0 && (crate::blank_lines::ends_above(prev, v + x)
        ==> crate::blank_lines::ends_above(ahead, u + x)) {
        lemma_not_needed_inside(
            v,
            u,
            x,
            own,
            t,
            zs,
            z,
            c,
            d,
            style,
            multiline,
            prev,
            ahead,
            lang,
        );
    } else {
        lemma_not_needed_again(
            v,
            u,
            x,
            own,
            t,
            zs,
            z,
            c,
            d,
            style,
            multiline,
            prev,
            ahead,
            lang,
        );
    }
}

/// Above a page that moved there is a blank line, or nothing.
#[verifier::spinoff_prover]
#[verifier::rlimit(60)]
proof fn lemma_page_clear(
    src: Seq<char>,
    comments: Seq<CommentText>,
    i: int,
    k: int,
    d: CommentText,
    ahead: Option<CommentText>,
    z: Seq<char>,
    lang: Language,
    limit: usize,
    tab_width: usize,
)
    requires
        ({
            let v = planned(src, comments, lang, limit, tab_width);
            let o = in_source_order(v);
            let f = front_of(src, comments, o, i, k, lang, limit, tab_width);
            let t = text_of(src, comments[i], lang, limit, tab_width);
            &&& applicable(v, src)
            &&& put_by(src, comments, o, i, k, lang, limit, tab_width)
            &&& stands_clear(src, comments, o, i, k, ahead, lang, limit, tab_width)
            &&& moves_ahead(comments[i], lang, limit, tab_width)
            &&& d.start_byte == encode_utf8(f).len()
            &&& d.end_byte == encode_utf8(f + t).len()
            &&& comments[i].fallback_ending == "\n"@ || comments[i].fallback_ending == "\r\n"@
        }),
    ensures
        ({
            let v = planned(src, comments, lang, limit, tab_width);
            let f = front_of(src, comments, in_source_order(v), i, k, lang, limit, tab_width);
            let t = text_of(src, comments[i], lang, limit, tab_width);
            !needs_blank(
                f + t + z,
                d,
                style_of(comments[i].text),
                emitted(comments[i], lang, limit, tab_width).contains('\n'),
                ahead,
                lang,
            )
        }),
{
    reveal_strlit("\n");
    reveal_strlit("\r\n");
    let v = planned(src, comments, lang, limit, tab_width);
    let o = in_source_order(v);
    let c = comments[i];
    let at = place_of(src, comments, i, lang, limit, tab_width);
    let lead = page_lead(src, c);
    let a = up_to(src, o, k, at);
    let f = a + lead;
    let t = text_of(src, c, lang, limit, tab_width);
    let x = span(src, resume_at(o, k), at);
    let none = Seq::<char>::empty();
    assert(span_ok(src, o[k].start, o[k].end));
    lemma_source_ends(src);
    if k > 0 {
        assert(o[k - 1].end <= o[k].start);
        assert(span_ok(src, o[k - 1].start, o[k - 1].end));
    }
    lemma_line_start(encode_utf8(src), at);
    lemma_stretch_ends(src, resume_at(o, k), at);
    assert(a.len() > 0 ==> a.last() == '\n') by {
        if k == 0 {
            assert(rewritten_upto(src, o, 0) =~= none);
            assert(a =~= x);
        }
    }
    let style = style_of(c.text);
    let multiline = emitted(c, lang, limit, tab_width).contains('\n');
    if lead.len() > 0 {
        assert(f + none =~= f);
        lemma_blank_line(a, lead, none);
        lemma_flush(f, t, z, d, style, multiline, ahead, lang);
    } else {
        assert(f =~= a);
        if at == 0 {
            lemma_span_empty(src, 0);
            assert(k == 0);
            assert(f =~= none);
            assert(encode_utf8(f).len() == 0);
        } else {
            assert(resume_at(o, k) < at) by {
                if resume_at(o, k) == at {
                    lemma_span_empty(src, at);
                }
            }
            lemma_blank_before(src, resume_at(o, k), at);
            crate::blank_lines::lemma_lines_behind(rewritten_upto(src, o, k), x);
            lemma_lines_of(x);
            crate::blank_lines::lemma_above_behind(rewritten_upto(src, o, k), x);
            lemma_flush(f, t, z, d, style, multiline, ahead, lang);
        }
    }
}

/// Comment `j` of the rewritten source is comment `i` of the source as the run left
/// it, and stands where edit `k` put it, if it is not a parameter comment that moved.
pub open spec fn found_put(
    src: Seq<char>,
    comments: Seq<CommentText>,
    found: Seq<CommentText>,
    j: int,
    i: int,
    k: int,
    lang: Language,
    limit: usize,
    tab_width: usize,
) -> bool {
    let o = in_source_order(planned(src, comments, lang, limit, tab_width));
    let c = comments[i];
    let d = found[j];
    let f = front_of(src, comments, o, i, k, lang, limit, tab_width);
    let t = text_of(src, c, lang, limit, tab_width);
    &&& 0 <= i < comments.len()
    &&& carried(src, c, d, lang, limit, tab_width)
    &&& c.param_shift is None ==> {
        &&& put_by(src, comments, o, i, k, lang, limit, tab_width)
        &&& d.start_byte == encode_utf8(f).len()
        &&& d.end_byte == encode_utf8(f + t).len()
        &&& is_replaced(c, lang, limit, tab_width) ==> stands_clear(
            src,
            comments,
            o,
            i,
            k,
            ahead_of(found, j),
            lang,
            limit,
            tab_width,
        )
    }
}

/// A comment of the source can be read again and is more than a line break.
pub open spec fn is_sound(
    src: Seq<char>,
    c: CommentText,
    lang: Language,
    limit: usize,
    tab_width: usize,
) -> bool {
    let own = own_text(src, c);
    &&& is_ready(src, c, lang, limit, tab_width)
    &&& c.placed(src)
    &&& own.len() > 0
    &&& own.last() != '\r'
}

/// A comment that is found where the run put it is settled.
proof fn lemma_settles(
    src: Seq<char>,
    comments: Seq<CommentText>,
    found: Seq<CommentText>,
    was: Seq<CommentText>,
    j: int,
    i: int,
    k: int,
    lang: Language,
    limit: usize,
    tab_width: usize,
)
    requires
        applicable(planned(src, comments, lang, limit, tab_width), src),
        0 <= j < found.len(),
        found.len() == was.len(),
        found_put(src, comments, found, j, i, k, lang, limit, tab_width),
        is_sound(src, comments[i], lang, limit, tab_width),
        was[j] == comments[i],
    ensures
        comment_settles(
            src,
            was,
            rewritten(src, planned(src, comments, lang, limit, tab_width)),
            found,
            j,
            lang,
            limit,
            tab_width,
        ),
{
    let v = planned(src, comments, lang, limit, tab_width);
    let o = in_source_order(v);
    let out = rewritten(src, v);
    let c = comments[i];
    let d = found[j];
    if c.param_shift is None {
        let f = front_of(src, comments, o, i, k, lang, limit, tab_width);
        let t = text_of(src, c, lang, limit, tab_width);
        let z = lemma_put(src, comments, i, k, lang, limit, tab_width);
        lemma_span_middle(f, t, z);
        lemma_encode_concat(f, t);
        if is_replaced(c, lang, limit, tab_width) {
            lemma_text_is(src, c, d, lang, limit, tab_width);
            lemma_none_missing(
                src,
                comments,
                i,
                k,
                d,
                ahead_of(found, j),
                lang,
                limit,
                tab_width,
            );
        } else if d.text == c.text {
            lemma_kept_returns(src, c, d, f, z, lang, limit, tab_width);
        }
    }
}

/// The text that a comment is found with is the one that was put in.
proof fn lemma_text_is(
    src: Seq<char>,
    c: CommentText,
    d: CommentText,
    lang: Language,
    limit: usize,
    tab_width: usize,
)
    requires
        carried(src, c, d, lang, limit, tab_width),
        is_ready(src, c, lang, limit, tab_width),
        is_replaced(c, lang, limit, tab_width),
    ensures
        d.text == text_of(src, c, lang, limit, tab_width),
        !moves_ahead(c, lang, limit, tab_width) ==> d.is_trailing == c.is_trailing,
{
    let text = emitted(c, lang, limit, tab_width);
    if moves_ahead(c, lang, limit, tab_width) {
        assert(final_break(c.text).len() == 0);
        assert(text + final_break(c.text) =~= text);
    }
}

/// The carriage returns of a comment that keeps its text.
proof fn lemma_kept_returns(
    src: Seq<char>,
    c: CommentText,
    d: CommentText,
    f: Seq<char>,
    z: Seq<char>,
    lang: Language,
    limit: usize,
    tab_width: usize,
)
    requires
        is_sound(src, c, lang, limit, tab_width),
        carried(src, c, d, lang, limit, tab_width),
        !is_replaced(c, lang, limit, tab_width),
        c.param_shift is None,
        d.text == c.text,
        d.start_byte == encode_utf8(f).len(),
        d.end_byte == encode_utf8(f + text_of(src, c, lang, limit, tab_width)).len(),
    ensures
        bare_cr(
            encode_utf8(f + text_of(src, c, lang, limit, tab_width) + z),
            d.start_byte,
            d.end_byte,
        ) == bare_cr(encode_utf8(src), c.start_byte, c.end_byte),
{
    let own = own_text(src, c);
    let t = text_of(src, c, lang, limit, tab_width);
    let len = encode_utf8(src).len() as int;
    assert(t == own) by {
        if closer_indent(src, c, lang) is Some {
            lemma_closer_settled(c, closer_indent(src, c, lang)->0);
        }
    }
    let before = span(src, 0, c.start_byte);
    let after = span(src, c.end_byte, len);
    lemma_source_ends(src);
    lemma_span_join(src, 0, c.start_byte, c.end_byte);
    lemma_span_join(src, 0, c.end_byte, len);
    lemma_span_bytes(src, 0, c.start_byte);
    lemma_span_bytes(src, 0, c.end_byte);
    encode_utf8_decode_utf8(src);
    assert(encode_utf8(src).subrange(0, len) =~= encode_utf8(src));
    lemma_returns_inside(f, own, z);
    lemma_returns_inside(before, own, after);
}

/// Comment `j` of the rewritten source is one of the source, where the run put it.
pub open spec fn found_in_place(
    src: Seq<char>,
    comments: Seq<CommentText>,
    found: Seq<CommentText>,
    j: int,
    lang: Language,
    limit: usize,
    tab_width: usize,
) -> bool {
    exists|i: int| #[trigger] found_as(src, comments, found, j, i, lang, limit, tab_width)
}

/// It is comment `i`.
pub open spec fn found_as(
    src: Seq<char>,
    comments: Seq<CommentText>,
    found: Seq<CommentText>,
    j: int,
    i: int,
    lang: Language,
    limit: usize,
    tab_width: usize,
) -> bool {
    exists|k: int| #[trigger] found_put(src, comments, found, j, i, k, lang, limit, tab_width)
}

/// Output is stable: running twice gives what running once gives, whether comments
/// move or not. Each comment can be read again as it is emitted. The parser finds in
/// what the first run leaves the comments of the source, in any order: a parameter
/// comment on one line behind its parameter, a manual page ahead of its function, and
/// every other comment where the run put it, none with a further move. That each
/// stands there with its new text, and that no blank line is missing above it, follows
/// from the splices.
pub proof fn law_second_run_changes_nothing(
    src: Seq<char>,
    lang: Language,
    limit: usize,
    tab_width: usize,
)
    requires
        ({
            let comments = found_comments(src, lang);
            let found = found_comments(after_run(src, lang, limit, tab_width), lang);
            &&& applicable(planned(src, comments, lang, limit, tab_width), src)
            &&& forall|i: int|
                0 <= i < comments.len() ==> is_sound(
                    src,
                    #[trigger] comments[i],
                    lang,
                    limit,
                    tab_width,
                )
            &&& forall|j: int|
                0 <= j < found.len() ==> #[trigger] found_in_place(
                    src,
                    comments,
                    found,
                    j,
                    lang,
                    limit,
                    tab_width,
                )
        }),
    ensures
        ({
            let out = after_run(src, lang, limit, tab_width);
            &&& planned(out, found_comments(out, lang), lang, limit, tab_width).len() == 0
            &&& after_run(out, lang, limit, tab_width) == out
        }),
{
    let out = after_run(src, lang, limit, tab_width);
    let comments = found_comments(src, lang);
    let found = found_comments(out, lang);
    let was = Seq::new(
        found.len(),
        |j: int|
            comments[choose|i: int| #[trigger]
                found_as(src, comments, found, j, i, lang, limit, tab_width)],
    );
    assert forall|j: int| 0 <= j < found.len() implies #[trigger] comment_settles(
        src,
        was,
        out,
        found,
        j,
        lang,
        limit,
        tab_width,
    ) by {
        assert(found_in_place(src, comments, found, j, lang, limit, tab_width));
        let i = choose|i: int| #[trigger]
            found_as(src, comments, found, j, i, lang, limit, tab_width);
        let k = choose|k: int| #[trigger]
            found_put(src, comments, found, j, i, k, lang, limit, tab_width);
        assert(was[j] == comments[i]);
        lemma_settles(src, comments, found, was, j, i, k, lang, limit, tab_width);
    }
    law_settled_comments_settle_the_source(src, was, out, found, lang, limit, tab_width);
}

} // verus!
