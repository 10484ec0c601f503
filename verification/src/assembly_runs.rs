//! A second run over an assembly source changes nothing.

use crate::assembly::pair_at;
use crate::assembly_found::{
    first_block, last_block, lemma_apart_blocks, lemma_comment_facts, lemma_comments_are,
    lemma_comments_lie, scanned,
};
use crate::assembly_scan::{
    block_comment, first_line, gap_reads_alike, is_block_text, kept_from, lemma_blank_not_spliced,
    lemma_block_bytes, lemma_block_ends, lemma_closer_bytes, lemma_closer_is, lemma_gap_again,
    lemma_new_line, lemma_passed, lemma_same_behind, lemma_three, next_kept, passed_over, same_end,
};
use crate::blank_lines::{hash_known, line_of};
use crate::bytes::{
    lemma_ascii_boundary, lemma_encode_concat, lemma_source_ends, lemma_span_bytes, line_start,
    span,
};
use crate::classify::kind_of;
use crate::comment::{file_start_prefix, CommentText};
use crate::directive::spliced;
use crate::final_form::{emitted, is_no_page};
use crate::language::Language;
use crate::lines_before::{
    lemma_line_feed_byte, lemma_line_starts, lemma_lines_of, open_line, whole_lines,
};
use crate::merge::{merged_from, merges, one_break_between, run_end};
use crate::normalize::closer_split;
use crate::parse::{assembly_comments, ending_behind};
use crate::placement::{
    end_of, gets_blank, lemma_rewritten_is, lemma_span_empty, lemma_span_join, lemma_span_middle,
    new_lead, new_text, new_upto,
};
use crate::planner::{blank_lead, closer_indent, planned};
use crate::rewrite::{final_break, rewritten};
use crate::run_places::{
    comments_set, is_placed, lemma_around, lemma_blank_place, lemma_blank_went_in, lemma_in_front,
    lemma_lie_apart, new_front, new_rest, own_text, well_set,
};
use crate::source_laws::{
    after_run, carried, found_again, is_ready, is_replaced, law_second_run_of_comments,
    lemma_returns_inside, stays_readable, text_left,
};
use crate::text::{
    all_in, any_in, has_prefix, has_text, in_class, lead_len, lemma_lead_len_facts, lemma_trail_len,
    sub_at, CharClass,
};
use vstd::prelude::*;
use vstd::utf8::{encode_utf8, encode_utf8_decode_utf8};

verus! {

/// The run changes the text of the comment.
pub open spec fn text_changes(src: Seq<char>, c: CommentText, limit: usize, tab_width: usize) -> bool {
    new_text(src, c, Language::Asm, limit, tab_width) != own_text(src, c)
}

/// What follows the comment on its line opens no other block and does not run on
/// into the next line.
pub open spec fn quiet_behind(src: Seq<char>, c: CommentText) -> bool {
    let rest = first_line(span(src, c.end_byte, encode_utf8(src).len() as int));
    !has_text(rest, "/*"@) && !spliced(rest)
}

/// Comment `i` as it is read in the source that a run leaves.
pub open spec fn read_after(
    src: Seq<char>,
    comments: Seq<CommentText>,
    i: int,
    limit: usize,
    tab_width: usize,
) -> CommentText {
    let out = rewritten(src, planned(src, comments, Language::Asm, limit, tab_width));
    let b = new_blocks(src, comments, 0, limit, tab_width)[i];
    CommentText { fallback_ending: ending_behind(out, b.1), ..block_comment(out, b) }
}

/// The blocks that the scan finds in the source that a run leaves.
pub open spec fn new_blocks(
    src: Seq<char>,
    comments: Seq<CommentText>,
    n: int,
    limit: usize,
    tab_width: usize,
) -> Seq<(int, int)> {
    Seq::new(
        (comments.len() - n) as nat,
        |k: int|
            {
                let a = new_front(src, comments, n + k, Language::Asm, limit, tab_width);
                let t = new_text(src, comments[n + k], Language::Asm, limit, tab_width);
                (encode_utf8(a).len() as int, encode_utf8(a + t).len() as int)
            },
    )
}

/// What is asked of comment `i` of an assembly source.
/// - It is one block that is left alone, or what is emitted for it is one block.
/// - Where its text changes, no other block opens behind it on its line, and that line
///   does not run on. Else what follows can read as part of a directive or of a line
///   comment before the run and not after it.
/// - It is at the start of the file after the run if it was before. A run that joins
///   a block to a licence tag puts the tag at the start.
/// - It does not read as one with the comment ahead of it once a text has changed. The
///   decoration of a short label keeps two blocks apart until it is taken off.
/// - Where the line above it ends a directive that opens a conditional, the directive
///   starts below the comment ahead.
#[verifier::opaque]
pub open spec fn assembly_set(
    src: Seq<char>,
    comments: Seq<CommentText>,
    i: int,
    limit: usize,
    tab_width: usize,
) -> bool {
    let lang = Language::Asm;
    let c = comments[i];
    let out = rewritten(src, planned(src, comments, lang, limit, tab_width));
    &&& is_block_text(new_text(src, c, lang, limit, tab_width))
    &&& c.left_alone(kind_of(c.text, lang), lang, limit) || is_replaced(c, lang, limit, tab_width)
    &&& text_changes(src, c, limit, tab_width) ==> quiet_behind(src, c)
    &&& file_start_prefix(new_front(src, comments, i, lang, limit, tab_width)) == c.at_file_start
    &&& i > 0 && (text_changes(src, comments[i - 1], limit, tab_width) || text_changes(
        src,
        c,
        limit,
        tab_width,
    )) ==> !merges(
        read_after(src, comments, i - 1, limit, tab_width),
        read_after(src, comments, i, limit, tab_width),
        out,
    )
    &&& hash_known(
        span(src, 0, end_of(comments, i)),
        span(src, end_of(comments, i), c.start_byte),
        own_text(src, c),
        span(src, c.end_byte, encode_utf8(src).len() as int),
        lang,
    )
}

/// What is asked of an assembly source and its comments.
pub open spec fn assembly_ready(
    src: Seq<char>,
    comments: Seq<CommentText>,
    limit: usize,
    tab_width: usize,
) -> bool {
    &&& comments == assembly_comments(src)
    &&& forall|i: int|
        0 <= i < comments.len() ==> stays_readable(
            #[trigger] comments[i],
            Language::Asm,
            limit,
            tab_width,
        )
    &&& forall|k: int|
        0 <= k < comments.len() ==> #[trigger] assembly_set(src, comments, k, limit, tab_width)
}

/// What is asked of comment `i`, one by one.
proof fn lemma_asked(
    src: Seq<char>,
    comments: Seq<CommentText>,
    i: int,
    limit: usize,
    tab_width: usize,
)
    requires
        assembly_ready(src, comments, limit, tab_width),
        0 <= i < comments.len(),
    ensures
        ({
            let lang = Language::Asm;
            let c = comments[i];
            &&& is_block_text(new_text(src, c, lang, limit, tab_width))
            &&& c.left_alone(kind_of(c.text, lang), lang, limit) || is_replaced(
                c,
                lang,
                limit,
                tab_width,
            )
            &&& text_changes(src, c, limit, tab_width) ==> quiet_behind(src, c)
            &&& file_start_prefix(new_front(src, comments, i, lang, limit, tab_width))
                == c.at_file_start
            &&& hash_known(
                span(src, 0, end_of(comments, i)),
                span(src, end_of(comments, i), c.start_byte),
                own_text(src, c),
                span(src, c.end_byte, encode_utf8(src).len() as int),
                lang,
            )
            &&& stays_readable(c, lang, limit, tab_width)
        }),
{
    reveal(assembly_set);
    assert(assembly_set(src, comments, i, limit, tab_width));
}

/// A text that ends in a solid character ends in no line break.
proof fn lemma_no_break(t: Seq<char>)
    requires
        t.len() > 0,
        t.last() == '/',
    ensures
        final_break(t).len() == 0,
{
    lemma_trail_len(t, CharClass::Two('\r', '\n'), 0);
}

/// What stands in front of a place: on its line, and in the whole.
proof fn lemma_lead_read(a: Seq<char>, r: Seq<char>)
    ensures
        ({
            let s = encode_utf8(a).len() as int;
            let at = line_start(encode_utf8(a + r), s);
            &&& span(a + r, at, s) == open_line(a)
            &&& span(a + r, 0, s) == a
        }),
{
    let h = whole_lines(a);
    let w = open_line(a);
    lemma_lines_of(a);
    lemma_line_starts(a, r);
    assert(h + w + r =~= a + r);
    lemma_span_middle(h, w, r);
    lemma_encode_concat(h, w);
    let none = Seq::<char>::empty();
    lemma_span_middle(none, a, r);
    assert(none + a + r =~= a + r);
    assert(encode_utf8(none).len() == 0);
}

/// The comments of an assembly source stand as comments do.
proof fn lemma_set(src: Seq<char>, comments: Seq<CommentText>, limit: usize, tab_width: usize)
    requires
        assembly_ready(src, comments, limit, tab_width),
    ensures
        comments_set(src, comments, Language::Asm, limit, tab_width),
{
    let lang = Language::Asm;
    let len = encode_utf8(src).len() as int;
    lemma_comments_lie(src);
    assert forall|i: int| 0 <= i < comments.len() implies #[trigger] well_set(
        src,
        comments,
        i,
        lang,
        limit,
        tab_width,
    ) by {
        let c = comments[i];
        let own = own_text(src, c);
        lemma_comment_facts(src, i);
        lemma_asked(src, comments, i, limit, tab_width);
        lemma_no_break(own);
        let t = new_text(src, c, lang, limit, tab_width);
        lemma_block_ends(t);
        if is_replaced(c, lang, limit, tab_width) {
            assert(t =~= emitted(c, lang, limit, tab_width));
        }
        assert(is_no_page(c, lang, limit)) by {
            reveal(is_no_page);
        }
        lemma_source_ends(src);
        let front = span(src, 0, c.start_byte);
        let rest = span(src, c.start_byte, len);
        lemma_span_join(src, 0, c.start_byte, len);
        encode_utf8_decode_utf8(src);
        assert(encode_utf8(src).subrange(0, len) =~= encode_utf8(src));
        lemma_span_bytes(src, 0, c.start_byte);
        lemma_lead_read(front, rest);
        assert(encode_utf8(front).len() == c.start_byte);
        if !c.is_trailing {
            let w = open_line(front);
            assert(!any_in(w, CharClass::Solid));
            assert forall|k: int| 0 <= k < w.len() implies in_class(
                #[trigger] w[k],
                CharClass::White,
            ) by {
                assert(!in_class(w[k], CharClass::Solid));
            }
        }
    }
}

/// A line that opens a block is not quiet.
proof fn lemma_opens_behind(y: Seq<char>, r: Seq<char>)
    requires
        whole_lines(y).len() == 0,
        has_prefix(r, "/*"@),
    ensures
        has_text(first_line(y + r), "/*"@),
{
    reveal_strlit("/*");
    let s = y + r;
    let n = lead_len(s, CharClass::NotOne('\n')) as int;
    lemma_lead_len_facts(s, CharClass::NotOne('\n'));
    lemma_lines_of(y);
    assert(y == open_line(y));
    assert(r.subrange(0, 2)[0] == '/' && r.subrange(0, 2)[1] == '*');
    assert(n >= y.len() + 2) by {
        if n < y.len() {
            assert(s[n] == y[n]);
            assert(in_class(y[n], CharClass::NotOne('\n')));
        } else if n < y.len() + 2 {
            assert(s[n] == r[n - y.len()]);
        }
    }
    let l = first_line(s);
    let k = y.len() as int;
    assert(l.subrange(k, k + 2) =~= "/*"@);
    assert(sub_at(l, "/*"@, y.len() as int));
}

/// The first line of what a gap starts with.
proof fn lemma_first_line(y: Seq<char>, r: Seq<char>)
    requires
        whole_lines(y).len() > 0,
    ensures
        first_line(y + r) == first_line(y),
{
    lemma_lines_of(y);
    let n = lead_len(y, CharClass::NotOne('\n')) as int;
    lemma_lead_len_facts(y, CharClass::NotOne('\n'));
    let k = whole_lines(y).len() - 1;
    assert(y[k] == '\n');
    if n > k {
        assert(in_class(y[k], CharClass::NotOne('\n')));
    }
    let s = y + r;
    assert forall|i: int| 0 <= i < n implies in_class(#[trigger] s[i], CharClass::NotOne('\n')) by {
        assert(s[i] == y[i]);
    }
    assert(s[n] == y[n]);
    crate::text::lemma_lead_len(s, CharClass::NotOne('\n'), n);
    assert(first_line(s) =~= first_line(y));
}

/// The gap ahead of comment `n`, or behind the last one.
pub open spec fn gap_of(src: Seq<char>, comments: Seq<CommentText>, n: int) -> Seq<char> {
    span(
        src,
        end_of(comments, n),
        if n < comments.len() {
            comments[n].start_byte
        } else {
            encode_utf8(src).len() as int
        },
    )
}

/// What stands around the gap ahead of comment `n`.
#[verifier::spinoff_prover]
proof fn lemma_gap_place(
    src: Seq<char>,
    comments: Seq<CommentText>,
    n: int,
    limit: usize,
    tab_width: usize,
)
    requires
        comments_set(src, comments, Language::Asm, limit, tab_width),
        0 <= n <= comments.len(),
    ensures
        ({
            let v = span(src, 0, end_of(comments, n));
            let x = gap_of(src, comments, n);
            let len = encode_utf8(src).len() as int;
            let r = if n < comments.len() {
                own_text(src, comments[n]) + span(src, comments[n].end_byte, len)
            } else {
                Seq::empty()
            };
            &&& v + x + r == src
            &&& encode_utf8(v).len() == end_of(comments, n)
            &&& span(src, end_of(comments, n), len) == x + r
            &&& n < comments.len() ==> v + x == span(src, 0, comments[n].start_byte)
                && encode_utf8(v + x).len() == comments[n].start_byte
        }),
{
    let len = encode_utf8(src).len() as int;
    let old = end_of(comments, n);
    lemma_source_ends(src);
    if n < comments.len() {
        let c = comments[n];
        assert(well_set(src, comments, n, Language::Asm, limit, tab_width));
        lemma_in_front(src, comments, n, Language::Asm, limit, tab_width);
        let x = span(src, old, c.start_byte);
        let own = own_text(src, c);
        let zs = span(src, c.end_byte, len);
        let v = span(src, 0, old);
        lemma_span_join(src, old, c.start_byte, c.end_byte);
        lemma_span_join(src, old, c.end_byte, len);
        assert(x + own + zs =~= x + (own + zs));
        assert(v + x + own + zs =~= v + x + (own + zs));
    } else {
        lemma_last_gap(src, comments, limit, tab_width);
    }
}

/// What stands around the gap behind the last comment.
proof fn lemma_last_gap(src: Seq<char>, comments: Seq<CommentText>, limit: usize, tab_width: usize)
    requires
        comments_set(src, comments, Language::Asm, limit, tab_width),
    ensures
        ({
            let old = end_of(comments, comments.len() as int);
            let len = encode_utf8(src).len() as int;
            let v = span(src, 0, old);
            let x = span(src, old, len);
            &&& v + x + Seq::<char>::empty() == src
            &&& encode_utf8(v).len() == old
            &&& x == x + Seq::<char>::empty()
        }),
{
    let old = end_of(comments, comments.len() as int);
    let len = encode_utf8(src).len() as int;
    lemma_source_ends(src);
    if comments.len() > 0 {
        assert(well_set(src, comments, comments.len() - 1, Language::Asm, limit, tab_width));
    }
    encode_utf8_decode_utf8(src);
    assert(encode_utf8(src).subrange(0, len) =~= encode_utf8(src));
    lemma_span_join(src, 0, old, len);
    lemma_span_bytes(src, 0, old);
    let v = span(src, 0, old);
    let x = span(src, old, len);
    assert(v + x + Seq::<char>::empty() =~= v + x);
    assert(x + Seq::<char>::empty() =~= x);
}

/// Up to a place in the gap ahead of comment `n` the source ends alike before and
/// after a run.
#[verifier::spinoff_prover]
proof fn lemma_same_gap(
    src: Seq<char>,
    comments: Seq<CommentText>,
    n: int,
    limit: usize,
    tab_width: usize,
    y: Seq<char>,
    z: Seq<char>,
)
    requires
        assembly_ready(src, comments, limit, tab_width),
        0 <= n <= comments.len(),
        span(src, end_of(comments, n), encode_utf8(src).len() as int) == y + z,
        whole_lines(y).len() > 0 || has_prefix(z, "/*"@),
    ensures
        same_end(
            span(src, 0, end_of(comments, n)) + y,
            new_upto(src, comments, n, Language::Asm, limit, tab_width) + y,
        ),
    decreases n, 0int,
{
    let lang = Language::Asm;
    let v = span(src, 0, end_of(comments, n));
    let u = new_upto(src, comments, n, lang, limit, tab_width);
    lemma_set(src, comments, limit, tab_width);
    if n == 0 {
        lemma_span_empty(src, 0);
        assert(v =~= u);
    } else {
        let o = comments[n - 1];
        let own = own_text(src, o);
        let t = new_text(src, o, lang, limit, tab_width);
        let a = new_front(src, comments, n - 1, lang, limit, tab_width);
        let front = span(src, 0, o.start_byte);
        lemma_comment_facts(src, n - 1);
        lemma_asked(src, comments, n - 1, limit, tab_width);
        lemma_source_ends(src);
        lemma_span_join(src, 0, o.start_byte, o.end_byte);
        assert(v == front + own);
        assert(u == a + t);
        if text_changes(src, o, limit, tab_width) {
            lemma_block_ends(t);
            assert(v.last() == '/' && u.last() == '/');
            if whole_lines(y).len() == 0 {
                lemma_opens_behind(y, z);
            } else {
                lemma_first_line(y, z);
                lemma_new_line(v, u, y);
            }
        } else {
            lemma_same_front(src, comments, n - 1, limit, tab_width);
            lemma_same_behind(front, a, own);
            lemma_same_behind(v, u, y);
        }
    }
}

/// Up to comment `n` the source ends alike before and after a run.
#[verifier::spinoff_prover]
proof fn lemma_same_front(
    src: Seq<char>,
    comments: Seq<CommentText>,
    n: int,
    limit: usize,
    tab_width: usize,
)
    requires
        assembly_ready(src, comments, limit, tab_width),
        0 <= n < comments.len(),
    ensures
        same_end(
            span(src, 0, comments[n].start_byte),
            new_front(src, comments, n, Language::Asm, limit, tab_width),
        ),
    decreases n, 1int,
{
    let lang = Language::Asm;
    let c = comments[n];
    let len = encode_utf8(src).len() as int;
    let a = new_front(src, comments, n, lang, limit, tab_width);
    let front = span(src, 0, c.start_byte);
    let own = own_text(src, c);
    let zs = span(src, c.end_byte, len);
    lemma_set(src, comments, limit, tab_width);
    lemma_comment_facts(src, n);
    lemma_gap_place(src, comments, n, limit, tab_width);
    lemma_three(front, own, zs);
    lemma_source_ends(src);
    lemma_span_bytes(src, 0, c.start_byte);
    if gets_blank(src, comments, n, lang, limit, tab_width) {
        lemma_blank_went_in(src, comments, n, lang, limit, tab_width);
        lemma_blank_not_spliced(line_of(a));
        lemma_lines_of(a);
        lemma_span_bytes(src, c.start_byte, c.end_byte);
        lemma_encode_concat(own, zs);
        assert(encode_utf8(own + zs)[0] == encode_utf8(src)[c.start_byte]);
        lemma_passed(front, own + zs);
        assert(front + (own + zs) =~= src);
    } else {
        let x = span(src, end_of(comments, n), c.start_byte);
        assert(has_prefix(own + zs, "/*"@)) by {
            reveal_strlit("/*");
            assert((own + zs).subrange(0, 2) =~= own.subrange(0, 2));
        }
        lemma_same_gap(src, comments, n, limit, tab_width, x, own + zs);
    }
}

/// The front of a text up to one of its bytes, which is ASCII.
proof fn lemma_cut(x: Seq<char>, k: int) -> (r: (Seq<char>, Seq<char>))
    requires
        0 <= k < encode_utf8(x).len(),
        encode_utf8(x)[k] <= 0x7f,
    ensures
        x == r.0 + r.1,
        encode_utf8(r.0).len() == k,
        encode_utf8(r.1) == encode_utf8(x).skip(k),
{
    let b = encode_utf8(x);
    let len = b.len() as int;
    lemma_source_ends(x);
    lemma_ascii_boundary(x, k);
    let y = span(x, 0, k);
    let z = span(x, k, len);
    lemma_span_join(x, 0, k, len);
    encode_utf8_decode_utf8(x);
    assert(b.subrange(0, len) =~= b);
    lemma_span_bytes(x, 0, k);
    lemma_span_bytes(x, k, len);
    assert(b.subrange(k, len) =~= b.skip(k));
    (y, z)
}

/// A text whose first bytes are those of an opener starts with one.
proof fn lemma_opener_chars(z: Seq<char>)
    requires
        pair_at(encode_utf8(z), 0, 47, 42),
    ensures
        has_prefix(z, "/*"@),
{
    reveal_strlit("/*");
    let b = encode_utf8(z);
    lemma_source_ends(z);
    lemma_ascii_boundary(z, 1);
    let len = b.len() as int;
    let x = span(z, 0, 2);
    let y = span(z, 2, len);
    lemma_span_join(z, 0, 2, len);
    encode_utf8_decode_utf8(z);
    assert(b.subrange(0, len) =~= b);
    lemma_closer_bytes();
    assert(b.subrange(0, 2) =~= encode_utf8("/*"@));
    encode_utf8_decode_utf8("/*"@);
    assert(z.subrange(0, 2) =~= "/*"@);
}

/// The blocks in the gap ahead of comment `n` are passed over before and after a
/// run alike. The gap goes on with `r` before the run and with `q` after it.
proof fn lemma_gap_alike(
    src: Seq<char>,
    comments: Seq<CommentText>,
    n: int,
    limit: usize,
    tab_width: usize,
    x: Seq<char>,
    r: Seq<char>,
    q: Seq<char>,
)
    requires
        assembly_ready(src, comments, limit, tab_width),
        0 <= n <= comments.len(),
        span(src, end_of(comments, n), encode_utf8(src).len() as int) == x + r,
        span(src, 0, end_of(comments, n)) + x + r == src,
        encode_utf8(r).len() > 0 ==> encode_utf8(r)[0] != 42,
        encode_utf8(q).len() > 0 ==> encode_utf8(q)[0] != 42,
    ensures
        gap_reads_alike(
            span(src, 0, end_of(comments, n)),
            new_upto(src, comments, n, Language::Asm, limit, tab_width),
            x,
            r,
            q,
        ),
{
    let v = span(src, 0, end_of(comments, n));
    let u = new_upto(src, comments, n, Language::Asm, limit, tab_width);
    let nv = encode_utf8(v).len() as int;
    let nu = encode_utf8(u).len() as int;
    let bx = encode_utf8(x);
    lemma_three(v, x, r);
    lemma_three(u, x, q);
    assert forall|k: int|
        0 <= k < bx.len() && pair_at(encode_utf8(v + x + r), nv + k, 47, 42) implies
        #[trigger] passed_over(v + x + r, nv + k) == passed_over(u + x + q, nu + k) by {
        let b = encode_utf8(v + x + r);
        assert(b[nv + k] == bx[k]);
        if k + 1 < bx.len() {
            assert(b[nv + k + 1] == bx[k + 1]);
        } else {
            assert(b[nv + k + 1] == encode_utf8(r)[0]);
        }
        let (y, z) = lemma_cut(x, k);
        let bz = encode_utf8(z);
        assert(bz[0] == bx[k] && bz[1] == bx[k + 1]);
        lemma_opener_chars(z);
        assert(y + (z + r) =~= x + r);
        assert(has_prefix(z + r, "/*"@)) by {
            reveal_strlit("/*");
            assert((z + r).subrange(0, 2) =~= z.subrange(0, 2));
        }
        lemma_same_gap(src, comments, n, limit, tab_width, y, z + r);
        lemma_encode_concat(z, r);
        lemma_encode_concat(z, q);
        lemma_encode_concat(v, y);
        lemma_encode_concat(u, y);
        lemma_passed(v + y, z + r);
        lemma_passed(u + y, z + q);
        assert(v + y + (z + r) =~= v + x + r);
        assert(u + y + (z + q) =~= u + x + q);
    }
}

/// Bytes that open nothing are passed over.
proof fn lemma_skip_plain(o: Seq<char>, i: int, j: int)
    requires
        0 <= i <= j <= encode_utf8(o).len(),
        forall|k: int|
            i <= k < j ==> (#[trigger] encode_utf8(o)[k]) != 47 && encode_utf8(o)[k] != 34,
    ensures
        kept_from(o, i) == kept_from(o, j),
    decreases j - i,
{
    if i < j {
        assert(encode_utf8(o)[i] != 47);
        lemma_skip_plain(o, i + 1, j);
    }
}

/// The bytes of blanks.
proof fn lemma_blank_bytes(s: Seq<char>)
    requires
        all_in(s, CharClass::Blank),
    ensures
        forall|k: int|
            0 <= k < encode_utf8(s).len() ==> (#[trigger] encode_utf8(s)[k] == 32u8
                || encode_utf8(s)[k] == 9u8),
    decreases s.len(),
{
    if s.len() > 0 {
        let c = s[0];
        let rest = s.drop_first();
        assert(in_class(s[0], CharClass::Blank));
        assert forall|i: int| 0 <= i < rest.len() implies in_class(
            #[trigger] rest[i],
            CharClass::Blank,
        ) by {
            assert(rest[i] == s[i + 1]);
        }
        lemma_blank_bytes(rest);
        assert((32u32 & 0x7fu32) as u8 == 32u8) by (bit_vector);
        assert((9u32 & 0x7fu32) as u8 == 9u8) by (bit_vector);
        let first = if c == ' ' {
            seq![32u8]
        } else {
            seq![9u8]
        };
        assert(encode_utf8(s) =~= first + encode_utf8(rest));
        assert forall|k: int| 0 <= k < encode_utf8(s).len() implies (#[trigger] encode_utf8(s)[k]
            == 32u8 || encode_utf8(s)[k] == 9u8) by {
            if k > 0 {
                assert(encode_utf8(s)[k] == encode_utf8(rest)[k - 1]);
            }
        }
    }
}

/// The scan finds a block where one stands that is not passed over.
proof fn lemma_block_kept(a: Seq<char>, t: Seq<char>, z: Seq<char>)
    requires
        is_block_text(t),
        !passed_over(a + t + z, encode_utf8(a).len() as int),
    ensures
        ({
            let s = encode_utf8(a).len() as int;
            let e = encode_utf8(a + t).len() as int;
            kept_from(a + t + z, s) == seq![(s, e)] + kept_from(a + t + z, e)
        }),
{
    let b = encode_utf8(a + t + z);
    let s = encode_utf8(a).len() as int;
    let own = encode_utf8(t);
    let e = s + own.len();
    lemma_encode_concat(a, t);
    lemma_three(a, t, z);
    lemma_block_bytes(t);
    assert forall|k: int| 0 <= k < own.len() implies b[s + k] == #[trigger] own[k] by {}
    assert(pair_at(b, s, 47, 42)) by {
        assert(b[s + 0] == own[0] && b[s + 1] == own[1]);
    }
    assert(pair_at(b, e - 2, 42, 47)) by {
        let n = own.len() as int;
        assert(b[s + (n - 2)] == own[n - 2] && b[s + (n - 1)] == own[n - 1]);
    }
    assert forall|k: int| s + 2 <= k < e - 2 implies !#[trigger] pair_at(b, k, 42, 47) by {
        assert(!pair_at(own, k - s, 42, 47));
        assert(b[s + (k - s)] == own[k - s]);
        assert(b[s + (k - s + 1)] == own[k - s + 1]);
    }
    lemma_closer_is(b, s + 2, e - 2);
}

/// What a comment starts with, before and after a run.
proof fn lemma_opens(
    src: Seq<char>,
    comments: Seq<CommentText>,
    n: int,
    limit: usize,
    tab_width: usize,
)
    requires
        assembly_ready(src, comments, limit, tab_width),
        0 <= n < comments.len(),
    ensures
        ({
            let own = own_text(src, comments[n]);
            let zs = span(src, comments[n].end_byte, encode_utf8(src).len() as int);
            let t = new_text(src, comments[n], Language::Asm, limit, tab_width);
            let z = new_rest(src, comments, n + 1, Language::Asm, limit, tab_width);
            &&& encode_utf8(own + zs).len() > 0 && encode_utf8(own + zs)[0] == 47
            &&& encode_utf8(t + z).len() > 0 && encode_utf8(t + z)[0] == 47
            &&& has_prefix(own + zs, "/*"@)
        }),
{
    reveal_strlit("/*");
    let c = comments[n];
    let own = own_text(src, c);
    let zs = span(src, c.end_byte, encode_utf8(src).len() as int);
    let t = new_text(src, c, Language::Asm, limit, tab_width);
    let z = new_rest(src, comments, n + 1, Language::Asm, limit, tab_width);
    lemma_comment_facts(src, n);
    lemma_asked(src, comments, n, limit, tab_width);
    lemma_block_bytes(t);
    lemma_encode_concat(t, z);
    lemma_encode_concat(own, zs);
    lemma_span_bytes(src, c.start_byte, c.end_byte);
    assert(encode_utf8(own)[0] == encode_utf8(src)[c.start_byte]);
    assert((own + zs).subrange(0, 2) =~= own.subrange(0, 2));
}

/// The scan of what a run leaves gets from the comment ahead to comment `n`.
#[verifier::spinoff_prover]
proof fn lemma_reaches(
    src: Seq<char>,
    comments: Seq<CommentText>,
    n: int,
    limit: usize,
    tab_width: usize,
)
    requires
        assembly_ready(src, comments, limit, tab_width),
        0 <= n < comments.len(),
    ensures
        ({
            let out = rewritten(src, planned(src, comments, Language::Asm, limit, tab_width));
            let u = new_upto(src, comments, n, Language::Asm, limit, tab_width);
            let a = new_front(src, comments, n, Language::Asm, limit, tab_width);
            kept_from(out, encode_utf8(u).len() as int) == kept_from(
                out,
                encode_utf8(a).len() as int,
            )
        }),
{
    let lang = Language::Asm;
    let c = comments[n];
    let out = rewritten(src, planned(src, comments, lang, limit, tab_width));
    let v = span(src, 0, end_of(comments, n));
    let u = new_upto(src, comments, n, lang, limit, tab_width);
    let t = new_text(src, c, lang, limit, tab_width);
    let z = new_rest(src, comments, n + 1, lang, limit, tab_width);
    let x = gap_of(src, comments, n);
    let r = own_text(src, c) + span(src, c.end_byte, encode_utf8(src).len() as int);
    let q = t + z;
    lemma_set(src, comments, limit, tab_width);
    lemma_around(src, comments, n, lang, limit, tab_width);
    lemma_gap_place(src, comments, n, limit, tab_width);
    lemma_opens(src, comments, n, limit, tab_width);
    lemma_next(src, comments, n);
    if gets_blank(src, comments, n, lang, limit, tab_width) {
        lemma_reaches_blank(src, comments, n, limit, tab_width);
    } else {
        assert(u + x + q =~= out);
        lemma_gap_alike(src, comments, n, limit, tab_width, x, r, q);
        lemma_encode_concat(v, x);
        assert(next_kept(v, x, r, 0, 0));
        lemma_gap_again(v, u, x, r, q, 0, 0);
        lemma_encode_concat(u, x);
    }
}

/// The next block that is kept is the first of comment `n`.
proof fn lemma_next(src: Seq<char>, comments: Seq<CommentText>, n: int)
    requires
        comments == assembly_comments(src),
        0 <= n < comments.len(),
    ensures
        kept_from(src, end_of(comments, n)).len() > 0,
        kept_from(src, end_of(comments, n))[0].0 == comments[n].start_byte,
{
    lemma_comment_facts(src, n);
}

/// The whole lines of the gap ahead of comment `n`.
pub open spec fn lines_ahead(src: Seq<char>, comments: Seq<CommentText>, n: int) -> Seq<char> {
    span(src, end_of(comments, n), line_start(encode_utf8(src), comments[n].start_byte))
}

/// The line break of a blank line that goes in above a comment.
pub open spec fn break_above(src: Seq<char>, c: CommentText) -> Seq<char> {
    let at = line_start(encode_utf8(src), c.start_byte);
    if at >= 2 && encode_utf8(src)[at - 2] == 13 {
        "\r\n"@
    } else {
        "\n"@
    }
}

/// What stands around a blank line that goes in.
#[verifier::spinoff_prover]
proof fn lemma_around_blank(
    src: Seq<char>,
    comments: Seq<CommentText>,
    n: int,
    limit: usize,
    tab_width: usize,
)
    requires
        comments_set(src, comments, Language::Asm, limit, tab_width),
        0 <= n < comments.len(),
        gets_blank(src, comments, n, Language::Asm, limit, tab_width),
    ensures
        ({
            let lang = Language::Asm;
            let c = comments[n];
            let out = rewritten(src, planned(src, comments, lang, limit, tab_width));
            let v = span(src, 0, end_of(comments, n));
            let u = new_upto(src, comments, n, lang, limit, tab_width);
            let t = new_text(src, c, lang, limit, tab_width);
            let z = new_rest(src, comments, n + 1, lang, limit, tab_width);
            let r0 = own_text(src, c) + span(src, c.end_byte, encode_utf8(src).len() as int);
            let front = lines_ahead(src, comments, n);
            let w = span(src, line_start(encode_utf8(src), c.start_byte), c.start_byte);
            let nl = break_above(src, c);
            &&& out == u + front + (nl + w + (t + z))
            &&& new_front(src, comments, n, lang, limit, tab_width) == u + front + (nl + w)
            &&& src == v + front + (w + r0)
            &&& span(src, end_of(comments, n), encode_utf8(src).len() as int) == front + (w + r0)
            &&& encode_utf8(v).len() == end_of(comments, n)
            &&& encode_utf8(v).len() + encode_utf8(front).len() + encode_utf8(w).len()
                == c.start_byte
            &&& encode_utf8(front).len() > 0 ==> encode_utf8(front).last() == 10u8
        }),
{
    let lang = Language::Asm;
    let c = comments[n];
    let out = rewritten(src, planned(src, comments, lang, limit, tab_width));
    let v = span(src, 0, end_of(comments, n));
    let u = new_upto(src, comments, n, lang, limit, tab_width);
    let a = new_front(src, comments, n, lang, limit, tab_width);
    let t = new_text(src, c, lang, limit, tab_width);
    let z = new_rest(src, comments, n + 1, lang, limit, tab_width);
    let x = gap_of(src, comments, n);
    let r0 = own_text(src, c) + span(src, c.end_byte, encode_utf8(src).len() as int);
    lemma_around(src, comments, n, lang, limit, tab_width);
    lemma_gap_place(src, comments, n, limit, tab_width);
    lemma_blank_place(src, comments, n, lang, limit, tab_width);
    let at = line_start(encode_utf8(src), c.start_byte);
    let front = lines_ahead(src, comments, n);
    let w = span(src, at, c.start_byte);
    let nl = break_above(src, c);
    lemma_span_join(src, end_of(comments, n), at, c.start_byte);
    assert(x == front + w);
    assert(a =~= u + front + (nl + w));
    assert(u + front + (nl + w + (t + z)) =~= a + t + z);
    assert(front + (w + r0) =~= x + r0);
    assert(v + front + (w + r0) =~= v + x + r0);
    lemma_lines_of(v + x);
    lemma_front_ends(v, front, whole_lines(v + x));
    lemma_encode_concat(v, x);
    lemma_encode_concat(front, w);
}

/// So it does where a blank line goes in.
#[verifier::spinoff_prover]
proof fn lemma_reaches_blank(
    src: Seq<char>,
    comments: Seq<CommentText>,
    n: int,
    limit: usize,
    tab_width: usize,
)
    requires
        assembly_ready(src, comments, limit, tab_width),
        comments_set(src, comments, Language::Asm, limit, tab_width),
        0 <= n < comments.len(),
        gets_blank(src, comments, n, Language::Asm, limit, tab_width),
    ensures
        ({
            let out = rewritten(src, planned(src, comments, Language::Asm, limit, tab_width));
            let u = new_upto(src, comments, n, Language::Asm, limit, tab_width);
            let a = new_front(src, comments, n, Language::Asm, limit, tab_width);
            kept_from(out, encode_utf8(u).len() as int) == kept_from(
                out,
                encode_utf8(a).len() as int,
            )
        }),
{
    let lang = Language::Asm;
    let c = comments[n];
    let v = span(src, 0, end_of(comments, n));
    let u = new_upto(src, comments, n, lang, limit, tab_width);
    let t = new_text(src, c, lang, limit, tab_width);
    let z = new_rest(src, comments, n + 1, lang, limit, tab_width);
    let r0 = own_text(src, c) + span(src, c.end_byte, encode_utf8(src).len() as int);
    let q0 = t + z;
    let front = lines_ahead(src, comments, n);
    let w = span(src, line_start(encode_utf8(src), c.start_byte), c.start_byte);
    let nl = break_above(src, c);
    lemma_around_blank(src, comments, n, limit, tab_width);
    lemma_opens(src, comments, n, limit, tab_width);
    lemma_next(src, comments, n);
    lemma_indent(src, comments, n, limit, tab_width);
    lemma_blank_ends(w, nl, r0, q0);
    lemma_gap_alike(src, comments, n, limit, tab_width, front, w + r0, nl + w + q0);
    lemma_blank_reached(v, u, front, w, nl, r0, q0);
}

/// What stands in front of a comment that gets a blank line is blanks.
proof fn lemma_indent(
    src: Seq<char>,
    comments: Seq<CommentText>,
    n: int,
    limit: usize,
    tab_width: usize,
)
    requires
        assembly_ready(src, comments, limit, tab_width),
        0 <= n < comments.len(),
        !comments[n].is_trailing,
    ensures
        ({
            let c = comments[n];
            let at = line_start(encode_utf8(src), c.start_byte);
            all_in(span(src, at, c.start_byte), CharClass::Blank)
        }),
{
    lemma_comment_facts(src, n);
    lemma_asked(src, comments, n, limit, tab_width);
}

proof fn lemma_blank_ends(w: Seq<char>, nl: Seq<char>, r0: Seq<char>, q0: Seq<char>)
    requires
        all_in(w, CharClass::Blank),
        nl == "\n"@ || nl == "\r\n"@,
        encode_utf8(r0).len() > 0 && encode_utf8(r0)[0] == 47,
    ensures
        encode_utf8(w + r0).len() > 0 && encode_utf8(w + r0)[0] != 42,
        encode_utf8(nl + w + q0).len() > 0 && encode_utf8(nl + w + q0)[0] != 42,
{
    lemma_blank_bytes(w);
    lemma_nl_bytes();
    lemma_encode_concat(w, r0);
    lemma_three(nl, w, q0);
    let bw = encode_utf8(w);
    if bw.len() > 0 {
        assert(encode_utf8(w + r0)[0] == bw[0]);
    } else {
        assert(encode_utf8(w + r0)[0] == encode_utf8(r0)[0]);
    }
    assert(encode_utf8(nl + w + q0)[0] == encode_utf8(nl)[0]);
}

/// The scan passes over a gap, a blank line and blanks.
proof fn lemma_blank_reached(
    v: Seq<char>,
    u: Seq<char>,
    front: Seq<char>,
    w: Seq<char>,
    nl: Seq<char>,
    r0: Seq<char>,
    q0: Seq<char>,
)
    requires
        all_in(w, CharClass::Blank),
        nl == "\n"@ || nl == "\r\n"@,
        gap_reads_alike(v, u, front, w + r0, nl + w + q0),
        encode_utf8(front).len() > 0 ==> encode_utf8(front).last() == 10u8,
        kept_from(v + front + (w + r0), encode_utf8(v).len() as int).len() > 0,
        kept_from(v + front + (w + r0), encode_utf8(v).len() as int)[0].0 == encode_utf8(
            v,
        ).len() + encode_utf8(front).len() + encode_utf8(w).len(),
    ensures
        kept_from(u + front + (nl + w + q0), encode_utf8(u).len() as int) == kept_from(
            u + front + (nl + w + q0),
            encode_utf8(u + front + (nl + w)).len() as int,
        ),
{
    let r = w + r0;
    let q = nl + w + q0;
    let out = u + front + q;
    let bw = encode_utf8(w);
    let bf = encode_utf8(front);
    let nv = encode_utf8(v).len() as int;
    let nu = encode_utf8(u).len() as int;
    lemma_blank_bytes(w);
    lemma_nl_bytes();
    lemma_encode_concat(w, r0);
    lemma_three(nl, w, q0);
    lemma_three(v, front, r);
    lemma_three(u, front, q);
    lemma_three(u, front, nl + w);
    lemma_encode_concat(nl, w);
    assert(next_kept(v, front, r, bw.len() as int, 0)) by {
        let b = encode_utf8(v + front + r);
        assert forall|k: int| nv + bf.len() <= k < nv + bf.len() + bw.len() implies (
        #[trigger] b[k] == 32 || b[k] == 9) by {
            assert(b[k] == bw[k - nv - bf.len()]);
        }
    }
    lemma_gap_again(v, u, front, r, q, bw.len() as int, 0);
    let bn = encode_utf8(nl + w);
    let d = encode_utf8(out);
    assert forall|k: int| nu + bf.len() <= k < nu + bf.len() + bn.len() implies (#[trigger] d[k])
        != 47 && d[k] != 34 by {
        let j = k - nu - bf.len();
        assert(d[k] == encode_utf8(q)[j]);
        assert(d[k] == bn[j]);
        if j < encode_utf8(nl).len() {
            assert(bn[j] == encode_utf8(nl)[j]);
        } else {
            assert(bn[j] == bw[j - encode_utf8(nl).len()]);
        }
    }
    lemma_skip_plain(out, (nu + bf.len()) as int, (nu + bf.len() + bn.len()) as int);
}

/// What ends with whole lines ends in a line feed.
proof fn lemma_front_ends(v: Seq<char>, front: Seq<char>, h: Seq<char>)
    requires
        v + front == h,
        h.len() > 0 ==> h.last() == '\n',
    ensures
        encode_utf8(front).len() > 0 ==> encode_utf8(front).last() == 10u8,
{
    if front.len() > 0 {
        assert(h.last() == front.last());
        let g = front.drop_last();
        assert(front =~= g + seq!['\n']);
        lemma_encode_concat(g, seq!['\n']);
        lemma_line_feed_byte();
    } else {
        assert(encode_utf8(front).len() == 0);
    }
}

proof fn lemma_nl_bytes()
    ensures
        encode_utf8("\n"@) == seq![10u8],
        encode_utf8("\r\n"@) == seq![13u8, 10u8],
{
    reveal_strlit("\n");
    reveal_strlit("\r\n");
    lemma_line_feed_byte();
    assert("\n"@ =~= seq!['\n']);
    assert("\r\n"@ =~= seq!['\r'] + seq!['\n']);
    lemma_encode_concat(seq!['\r'], seq!['\n']);
    let s = seq!['\r'];
    assert(s.drop_first().len() == 0);
    assert(encode_utf8(s.drop_first()).len() == 0);
    assert((13u32 & 0x7fu32) as u8 == 13u8) by (bit_vector);
    assert(encode_utf8(s) =~= seq![13u8]);
    assert(encode_utf8("\r\n"@) =~= seq![13u8, 10u8]);
}

/// The scan finds the comments where the run put them.
proof fn lemma_scan_again(
    src: Seq<char>,
    comments: Seq<CommentText>,
    n: int,
    limit: usize,
    tab_width: usize,
)
    requires
        assembly_ready(src, comments, limit, tab_width),
        0 <= n <= comments.len(),
    ensures
        ({
            let out = rewritten(src, planned(src, comments, Language::Asm, limit, tab_width));
            let u = new_upto(src, comments, n, Language::Asm, limit, tab_width);
            kept_from(out, encode_utf8(u).len() as int) == new_blocks(
                src,
                comments,
                n,
                limit,
                tab_width,
            )
        }),
    decreases comments.len() - n,
{
    let lang = Language::Asm;
    let out = rewritten(src, planned(src, comments, lang, limit, tab_width));
    let u = new_upto(src, comments, n, lang, limit, tab_width);
    lemma_set(src, comments, limit, tab_width);
    if n == comments.len() {
        let v = span(src, 0, end_of(comments, n));
        let x = gap_of(src, comments, n);
        let none = Seq::<char>::empty();
        lemma_gap_place(src, comments, n, limit, tab_width);
        lemma_comments_lie(src);
        lemma_lie_apart(src, comments, lang, limit, tab_width);
        lemma_rewritten_is(src, comments, lang, limit, tab_width);
        assert(u + x + none =~= out);
        assert(encode_utf8(none).len() == 0);
        lemma_gap_alike(src, comments, n, limit, tab_width, x, none, none);
        lemma_gap_again(v, u, x, none, none, 0, 0);
        lemma_three(u, x, none);
        assert(new_blocks(src, comments, n, limit, tab_width) =~= Seq::empty());
    } else {
        let c = comments[n];
        let a = new_front(src, comments, n, lang, limit, tab_width);
        let t = new_text(src, c, lang, limit, tab_width);
        let z = new_rest(src, comments, n + 1, lang, limit, tab_width);
        lemma_scan_again(src, comments, n + 1, limit, tab_width);
        lemma_reaches(src, comments, n, limit, tab_width);
        lemma_around(src, comments, n, lang, limit, tab_width);
        lemma_asked(src, comments, n, limit, tab_width);
        lemma_not_passed(src, comments, n, limit, tab_width);
        lemma_block_kept(a, t, z);
        let rest = new_blocks(src, comments, n + 1, limit, tab_width);
        let s = encode_utf8(a).len() as int;
        let e = encode_utf8(a + t).len() as int;
        assert(new_upto(src, comments, n + 1, lang, limit, tab_width) == a + t);
        assert(seq![(s, e)] + rest =~= new_blocks(src, comments, n, limit, tab_width));
    }
}

/// A comment that was read is not passed over after a run.
#[verifier::spinoff_prover]
proof fn lemma_not_passed(
    src: Seq<char>,
    comments: Seq<CommentText>,
    n: int,
    limit: usize,
    tab_width: usize,
)
    requires
        assembly_ready(src, comments, limit, tab_width),
        0 <= n < comments.len(),
    ensures
        !passed_over(
            rewritten(src, planned(src, comments, Language::Asm, limit, tab_width)),
            encode_utf8(new_front(src, comments, n, Language::Asm, limit, tab_width)).len() as int,
        ),
{
    let lang = Language::Asm;
    let c = comments[n];
    let out = rewritten(src, planned(src, comments, lang, limit, tab_width));
    let a = new_front(src, comments, n, lang, limit, tab_width);
    let t = new_text(src, c, lang, limit, tab_width);
    let z = new_rest(src, comments, n + 1, lang, limit, tab_width);
    let own = own_text(src, c);
    let zs = span(src, c.end_byte, encode_utf8(src).len() as int);
    let front = span(src, 0, c.start_byte);
    lemma_set(src, comments, limit, tab_width);
    lemma_around(src, comments, n, lang, limit, tab_width);
    lemma_gap_place(src, comments, n, limit, tab_width);
    lemma_same_front(src, comments, n, limit, tab_width);
    lemma_opens(src, comments, n, limit, tab_width);
    assert(!passed_over(src, c.start_byte)) by {
        lemma_comment_facts(src, n);
    }
    lemma_passed(a, t + z);
    lemma_passed(front, own + zs);
    assert(a + (t + z) =~= out);
    assert(front + (own + zs) =~= src);
}

/// Comments that are not joined stay as they are.
proof fn lemma_not_merged(v: Seq<CommentText>, i: int, src: Seq<char>)
    requires
        0 <= i <= v.len(),
        forall|k: int| 0 < k < v.len() ==> !merges(v[k - 1], #[trigger] v[k], src),
    ensures
        merged_from(v, i, src) == v.skip(i),
    decreases v.len() - i,
{
    if i < v.len() {
        lemma_not_merged(v, i + 1, src);
        if i + 1 < v.len() {
            assert(!merges(v[i + 1 - 1], v[i + 1], src));
        }
        assert(run_end(v, i, src) == i);
        assert(seq![v[i]] + v.skip(i + 1) =~= v.skip(i));
    } else {
        assert(v.skip(i) =~= Seq::empty());
    }
}

/// A blank line that goes in keeps two comments apart.
proof fn lemma_gap_stays(
    src: Seq<char>,
    comments: Seq<CommentText>,
    i: int,
    limit: usize,
    tab_width: usize,
    indent: Seq<char>,
)
    requires
        assembly_ready(src, comments, limit, tab_width),
        comments_set(src, comments, Language::Asm, limit, tab_width),
        0 < i < comments.len(),
        gets_blank(src, comments, i, Language::Asm, limit, tab_width),
    ensures
        !one_break_between(
            new_lead(src, comments, i, Language::Asm, limit, tab_width),
            indent,
        ),
{
    reveal_strlit("\n");
    reveal_strlit("\r\n");
    let lang = Language::Asm;
    let c = comments[i];
    let lead = new_lead(src, comments, i, lang, limit, tab_width);
    let v = span(src, 0, end_of(comments, i));
    let x = span(src, end_of(comments, i), c.start_byte);
    let front = lines_ahead(src, comments, i);
    let nl = break_above(src, c);
    lemma_blank_place(src, comments, i, lang, limit, tab_width);
    lemma_in_front(src, comments, i, lang, limit, tab_width);
    lemma_comment_facts(src, i - 1);
    lemma_lines_of(v + x);
    let h = whole_lines(v + x);
    assert(h == v + front);
    assert(front.len() > 0) by {
        if front.len() == 0 {
            assert(h =~= v);
        }
    }
    let m = front.len() as int;
    assert(h.last() == front.last());
    assert(front.last() == '\n');
    assert(lead[m - 1] == '\n');
    lemma_lead_len_facts(lead, CharClass::NotOne('\n'));
    let n = lead_len(lead, CharClass::NotOne('\n')) as int;
    assert(n <= m - 1) by {
        if n > m - 1 {
            assert(in_class(lead[m - 1], CharClass::NotOne('\n')));
        }
    }
    let q = m + nl.len() - 1;
    assert(lead[q] == '\n') by {
        assert(lead[q] == blank_lead(src, c)[nl.len() - 1]);
        assert(blank_lead(src, c)[nl.len() - 1] == nl[nl.len() - 1]);
    }
    let rest = lead.skip(n + 1);
    assert(rest[q - n - 1] == '\n');
    assert(rest.contains('\n'));
}

/// What is read of a comment in the source that a run leaves.
#[verifier::spinoff_prover]
#[verifier::rlimit(80)]
proof fn lemma_read_after(
    src: Seq<char>,
    comments: Seq<CommentText>,
    i: int,
    limit: usize,
    tab_width: usize,
)
    requires
        assembly_ready(src, comments, limit, tab_width),
        comments_set(src, comments, Language::Asm, limit, tab_width),
        0 <= i < comments.len(),
    ensures
        ({
            let c = comments[i];
            let d = read_after(src, comments, i, limit, tab_width);
            &&& d.text == new_text(src, c, Language::Asm, limit, tab_width)
            &&& d.is_trailing == c.is_trailing
            &&& d.line_indent_bytes == c.line_indent_bytes
            &&& d.at_file_start == c.at_file_start
            &&& d.start_col_byte == c.start_col_byte
            &&& d.relocate_before is None && d.param_shift is None
            &&& c.relocate_before is None && c.param_shift is None
            &&& is_placed(src, comments, i, d, Language::Asm, limit, tab_width)
        }),
{
    let lang = Language::Asm;
    let c = comments[i];
    let out = rewritten(src, planned(src, comments, lang, limit, tab_width));
    let a = new_front(src, comments, i, lang, limit, tab_width);
    let t = new_text(src, c, lang, limit, tab_width);
    let z = new_rest(src, comments, i + 1, lang, limit, tab_width);
    let front = span(src, 0, c.start_byte);
    let own = own_text(src, c);
    let zs = span(src, c.end_byte, encode_utf8(src).len() as int);
    lemma_around(src, comments, i, lang, limit, tab_width);
    lemma_in_front(src, comments, i, lang, limit, tab_width);
    lemma_comment_facts(src, i);
    lemma_asked(src, comments, i, limit, tab_width);
    lemma_same_front(src, comments, i, limit, tab_width);
    lemma_lead_read(a, t + z);
    assert(a + (t + z) =~= out);
    assert(front + (own + zs) =~= src);
    lemma_lead_read(front, own + zs);
    lemma_line_starts(a, t + z);
    lemma_line_starts(front, own + zs);
}

/// A comment that keeps its text is one block and is read as it was.
proof fn lemma_read_kept(
    src: Seq<char>,
    comments: Seq<CommentText>,
    i: int,
    limit: usize,
    tab_width: usize,
)
    requires
        assembly_ready(src, comments, limit, tab_width),
        comments_set(src, comments, Language::Asm, limit, tab_width),
        0 <= i < comments.len(),
        !text_changes(src, comments[i], limit, tab_width),
    ensures
        ({
            let c = comments[i];
            let d = read_after(src, comments, i, limit, tab_width);
            &&& first_block(src, i) == last_block(src, i)
            &&& c.text == own_text(src, c)
            &&& d.text == c.text
            &&& d.force_passthrough == c.force_passthrough
        }),
{
    let lang = Language::Asm;
    let c = comments[i];
    let out = rewritten(src, planned(src, comments, lang, limit, tab_width));
    let a = new_front(src, comments, i, lang, limit, tab_width);
    let own = own_text(src, c);
    let z = new_rest(src, comments, i + 1, lang, limit, tab_width);
    let front = span(src, 0, c.start_byte);
    let zs = span(src, c.end_byte, encode_utf8(src).len() as int);
    lemma_asked(src, comments, i, limit, tab_width);
    lemma_comment_facts(src, i);
    lemma_read_after(src, comments, i, limit, tab_width);
    lemma_around(src, comments, i, lang, limit, tab_width);
    lemma_in_front(src, comments, i, lang, limit, tab_width);
    lemma_returns_inside(a, own, z);
    lemma_returns_inside(front, own, zs);
    assert(front + own + zs == src);
}

/// Two comments that follow each other in the source that a run leaves.
#[verifier::spinoff_prover]
proof fn lemma_neighbours(
    src: Seq<char>,
    comments: Seq<CommentText>,
    k: int,
    limit: usize,
    tab_width: usize,
)
    requires
        assembly_ready(src, comments, limit, tab_width),
        comments_set(src, comments, Language::Asm, limit, tab_width),
        0 < k < comments.len(),
    ensures
        ({
            let out = rewritten(src, planned(src, comments, Language::Asm, limit, tab_width));
            let p = read_after(src, comments, k - 1, limit, tab_width);
            let q = read_after(src, comments, k, limit, tab_width);
            p.start_byte <= q.start_byte && !merges(p, q, out)
        }),
{
    let lang = Language::Asm;
    let out = rewritten(src, planned(src, comments, lang, limit, tab_width));
    let u = new_upto(src, comments, k, lang, limit, tab_width);
    let x = new_lead(src, comments, k, lang, limit, tab_width);
    let t = new_text(src, comments[k], lang, limit, tab_width);
    let z = new_rest(src, comments, k + 1, lang, limit, tab_width);
    let o = comments[k - 1];
    let c = comments[k];
    let p = read_after(src, comments, k - 1, limit, tab_width);
    let q = read_after(src, comments, k, limit, tab_width);
    lemma_around(src, comments, k, lang, limit, tab_width);
    lemma_read_after(src, comments, k, limit, tab_width);
    lemma_read_after(src, comments, k - 1, limit, tab_width);
    assert(u + x + (t + z) =~= out);
    lemma_span_middle(u, x, t + z);
    lemma_encode_concat(u, x);
    let a = new_front(src, comments, k - 1, lang, limit, tab_width);
    let s = new_text(src, o, lang, limit, tab_width);
    assert(u == a + s);
    lemma_encode_concat(a, s);
    assert(span(out, p.end_byte, q.start_byte) == x);
    if text_changes(src, o, limit, tab_width) || text_changes(src, c, limit, tab_width) {
        reveal(assembly_set);
        assert(assembly_set(src, comments, k, limit, tab_width));
    } else if gets_blank(src, comments, k, lang, limit, tab_width) {
        lemma_gap_stays(src, comments, k, limit, tab_width, q.line_indent_bytes);
    } else {
        lemma_read_kept(src, comments, k - 1, limit, tab_width);
        lemma_read_kept(src, comments, k, limit, tab_width);
        lemma_apart_blocks(src, k);
        lemma_comment_facts(src, k);
        lemma_comment_facts(src, k - 1);
        let e = block_comment(src, (o.start_byte, o.end_byte));
        let f = block_comment(src, (c.start_byte, c.end_byte));
        assert(!merges(e, f, src));
        if merges(p, q, out) {
            assert(one_break_between(span(src, e.end_byte, f.start_byte), f.line_indent_bytes));
            reveal_strlit("\n");
            lemma_span_gap(src, e.end_byte, f.start_byte);
            assert(merges(e, f, src));
        }
    }
}

/// A stretch with something in it has a length.
proof fn lemma_span_gap(src: Seq<char>, a: int, b: int)
    requires
        0 <= a <= b <= encode_utf8(src).len(),
        span(src, a, b).len() > 0,
    ensures
        a < b,
{
    if a == b {
        let none = Seq::<u8>::empty();
        assert(encode_utf8(src).subrange(a, b) =~= none);
        let e = Seq::<char>::empty();
        encode_utf8_decode_utf8(e);
        assert(encode_utf8(e) =~= none);
    }
}

/// The comments that are read in the source that a run leaves.
proof fn lemma_all_read(
    src: Seq<char>,
    comments: Seq<CommentText>,
    limit: usize,
    tab_width: usize,
)
    requires
        assembly_ready(src, comments, limit, tab_width),
    ensures
        assembly_comments(
            rewritten(src, planned(src, comments, Language::Asm, limit, tab_width)),
        ) == Seq::new(
            comments.len(),
            |i: int| read_after(src, comments, i, limit, tab_width),
        ),
{
    let lang = Language::Asm;
    let out = rewritten(src, planned(src, comments, lang, limit, tab_width));
    let blocks = new_blocks(src, comments, 0, limit, tab_width);
    let n = comments.len() as int;
    lemma_set(src, comments, limit, tab_width);
    lemma_scan_again(src, comments, 0, limit, tab_width);
    assert(encode_utf8(new_upto(src, comments, 0, lang, limit, tab_width)).len() == 0);
    assert(kept_from(out, 0) == blocks);
    let v = scanned(out);
    assert forall|k: int| 0 < k < v.len() implies v[k - 1].start_byte <= (
    #[trigger] v[k]).start_byte && !merges(v[k - 1], v[k], out) by {
        lemma_neighbours(src, comments, k, limit, tab_width);
        lemma_merges_plain(
            read_after(src, comments, k - 1, limit, tab_width),
            read_after(src, comments, k, limit, tab_width),
            v[k - 1],
            v[k],
            out,
        );
    }
    assert forall|k: int| 0 < k < v.len() implies !merges(v[k - 1], #[trigger] v[k], out) by {
        assert(v[k - 1].start_byte <= v[k].start_byte);
    }
    lemma_not_merged(v, 0, out);
    assert(v.skip(0) =~= v);
    lemma_comments_are(out);
    assert(assembly_comments(out) =~= Seq::new(
        comments.len(),
        |i: int| read_after(src, comments, i, limit, tab_width),
    ));
}

/// Whether comments read as one does not depend on the file's line endings.
proof fn lemma_merges_plain(
    a: CommentText,
    b: CommentText,
    e: CommentText,
    f: CommentText,
    src: Seq<char>,
)
    requires
        a == (CommentText { fallback_ending: a.fallback_ending, ..e }),
        b == (CommentText { fallback_ending: b.fallback_ending, ..f }),
    ensures
        merges(a, b, src) == merges(e, f, src),
{
}

/// Every comment is found again where the run put it.
#[verifier::spinoff_prover]
proof fn lemma_found_again(
    src: Seq<char>,
    comments: Seq<CommentText>,
    i: int,
    limit: usize,
    tab_width: usize,
)
    requires
        assembly_ready(src, comments, limit, tab_width),
        comments_set(src, comments, Language::Asm, limit, tab_width),
        0 <= i < comments.len(),
    ensures
        carried(
            src,
            comments[i],
            read_after(src, comments, i, limit, tab_width),
            Language::Asm,
            limit,
            tab_width,
        ),
        is_placed(
            src,
            comments,
            i,
            read_after(src, comments, i, limit, tab_width),
            Language::Asm,
            limit,
            tab_width,
        ),
        is_ready(src, comments[i], Language::Asm, limit, tab_width),
{
    let lang = Language::Asm;
    let c = comments[i];
    let d = read_after(src, comments, i, limit, tab_width);
    lemma_same_breaks(src, comments, i, limit, tab_width);
    lemma_read_after(src, comments, i, limit, tab_width);
    if is_replaced(c, lang, limit, tab_width) {
        assert(stays_readable(c, lang, limit, tab_width)) by {
            lemma_asked(src, comments, i, limit, tab_width);
        }
        assert(!crate::final_form::is_page(c, lang, limit));
        assert(carried(src, c, d, lang, limit, tab_width));
    } else {
        lemma_left_text(src, comments, i, limit, tab_width);
        if !text_changes(src, c, limit, tab_width) {
            lemma_read_kept(src, comments, i, limit, tab_width);
        }
        assert(carried(src, c, d, lang, limit, tab_width));
    }
}

/// A comment and its stretch of the source end in no line break.
proof fn lemma_same_breaks(
    src: Seq<char>,
    comments: Seq<CommentText>,
    i: int,
    limit: usize,
    tab_width: usize,
)
    requires
        assembly_ready(src, comments, limit, tab_width),
        0 <= i < comments.len(),
    ensures
        final_break(own_text(src, comments[i])) == final_break(comments[i].text),
        final_break(comments[i].text).len() == 0,
        stays_readable(comments[i], Language::Asm, limit, tab_width),
{
    let c = comments[i];
    let own = own_text(src, c);
    lemma_asked(src, comments, i, limit, tab_width);
    lemma_comment_facts(src, i);
    lemma_no_break(own);
    lemma_no_break(c.text);
    assert(final_break(own) =~= final_break(c.text));
}

/// The text of a comment that is left alone is its stretch of the source, and the
/// run leaves what it says.
proof fn lemma_left_text(
    src: Seq<char>,
    comments: Seq<CommentText>,
    i: int,
    limit: usize,
    tab_width: usize,
)
    requires
        assembly_ready(src, comments, limit, tab_width),
        0 <= i < comments.len(),
        !is_replaced(comments[i], Language::Asm, limit, tab_width),
    ensures
        comments[i].text == own_text(src, comments[i]),
        text_left(src, comments[i], Language::Asm, limit, tab_width) == new_text(
            src,
            comments[i],
            Language::Asm,
            limit,
            tab_width,
        ),
        text_changes(src, comments[i], limit, tab_width) ==> !comments[i].force_passthrough,
        comments[i].left_alone(
            kind_of(comments[i].text, Language::Asm),
            Language::Asm,
            limit,
        ),
{
    let c = comments[i];
    lemma_same_breaks(src, comments, i, limit, tab_width);
    lemma_one_block(src, comments, i, limit, tab_width);
    lemma_left_pure(src, c, limit, tab_width);
}

/// A comment that is not replaced is one block.
proof fn lemma_one_block(
    src: Seq<char>,
    comments: Seq<CommentText>,
    i: int,
    limit: usize,
    tab_width: usize,
)
    requires
        assembly_ready(src, comments, limit, tab_width),
        0 <= i < comments.len(),
        !is_replaced(comments[i], Language::Asm, limit, tab_width),
    ensures
        comments[i].text == own_text(src, comments[i]),
        comments[i].left_alone(
            kind_of(comments[i].text, Language::Asm),
            Language::Asm,
            limit,
        ),
{
    lemma_asked(src, comments, i, limit, tab_width);
    lemma_comment_facts(src, i);
    if first_block(src, i) < last_block(src, i) {
        lemma_no_closer(src, comments[i], limit, tab_width);
    }
}

/// A comment on lines of its own that is not replaced keeps its stretch of the source.
proof fn lemma_no_closer(src: Seq<char>, c: CommentText, limit: usize, tab_width: usize)
    requires
        !c.is_trailing,
        !is_replaced(c, Language::Asm, limit, tab_width),
    ensures
        new_text(src, c, Language::Asm, limit, tab_width) == own_text(src, c),
{
    assert(closer_indent(src, c, Language::Asm) is None);
}

proof fn lemma_left_pure(src: Seq<char>, c: CommentText, limit: usize, tab_width: usize)
    requires
        c.text == own_text(src, c),
        final_break(own_text(src, c)).len() == 0,
        !is_replaced(c, Language::Asm, limit, tab_width),
    ensures
        text_left(src, c, Language::Asm, limit, tab_width) == new_text(
            src,
            c,
            Language::Asm,
            limit,
            tab_width,
        ),
        text_changes(src, c, limit, tab_width) ==> !c.force_passthrough,
{
    reveal_strlit("*/");
    let lang = Language::Asm;
    if closer_indent(src, c, lang) is Some {
        let indent = closer_indent(src, c, lang)->0;
        if closer_split(c.text, indent) is Some {
            let s = closer_split(c.text, indent)->0;
            assert(s.len() > 0);
            assert(s + final_break(own_text(src, c)) =~= s);
        }
    }
}

/// A second run over an assembly source changes nothing. The comments that it finds
/// are those of the first run, where the first run put them: that follows from the
/// scan. Blocks may share their line with code and with each other, stand on
/// neighbouring lines, be joined, or be passed over.
pub proof fn law_second_assembly_run_changes_nothing(
    src: Seq<char>,
    limit: usize,
    tab_width: usize,
)
    requires
        assembly_ready(src, assembly_comments(src), limit, tab_width),
    ensures
        ({
            let out = after_run(src, Language::Asm, limit, tab_width);
            &&& planned(out, assembly_comments(out), Language::Asm, limit, tab_width).len() == 0
            &&& after_run(out, Language::Asm, limit, tab_width) == out
        }),
{
    let lang = Language::Asm;
    let comments = assembly_comments(src);
    let out = after_run(src, lang, limit, tab_width);
    let found = assembly_comments(out);
    lemma_set(src, comments, limit, tab_width);
    lemma_all_read(src, comments, limit, tab_width);
    assert forall|i: int| 0 <= i < comments.len() implies #[trigger] found_again(
        src,
        comments,
        found,
        i,
        lang,
        limit,
        tab_width,
    ) by {
        lemma_found_again(src, comments, i, limit, tab_width);
        assert(found[i] == read_after(src, comments, i, limit, tab_width));
    }
    assert forall|i: int| 0 <= i < comments.len() implies is_ready(
        src,
        #[trigger] comments[i],
        lang,
        limit,
        tab_width,
    ) by {
        lemma_found_again(src, comments, i, limit, tab_width);
    }
    law_second_run_of_comments(src, comments, found, lang, limit, tab_width);
}

} // verus!
