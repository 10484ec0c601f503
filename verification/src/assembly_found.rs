//! The comments of an assembly source and the blocks that they are made of.

use crate::assembly::pair_at;
use crate::assembly_scan::is_block_text;
use crate::assembly_scan::{
    block_comment, kept_from, lemma_block_bytes, lemma_closer_bytes, lemma_kept_collected,
    lemma_nth_kept, passed_over,
};
use crate::bytes::{lemma_ascii_boundary, lemma_span_bytes, span, span_ok};
use crate::comment::CommentText;
use crate::merge::{marker_of, merged_block, merged_from, merged_run, merges, run_end, Marker};
use crate::parse::{assembly_comments, ending_behind, sorted};
use crate::placement::{end_of, lemma_span_join};
use crate::plan_laws::apart;
use crate::text::{has_prefix, has_suffix};
use vstd::prelude::*;
use vstd::utf8::{encode_utf8, encode_utf8_decode_utf8};

verus! {

/// The blocks of a source that are kept, as comments.
pub open spec fn scanned(src: Seq<char>) -> Seq<CommentText> {
    let kept = kept_from(src, 0);
    Seq::new(kept.len(), |k: int| block_comment(src, kept[k]))
}

/// The first block of run `n`.
pub open spec fn run_start(v: Seq<CommentText>, src: Seq<char>, n: int) -> int
    decreases n,
{
    if n <= 0 {
        0
    } else {
        run_end(v, run_start(v, src, n - 1), src) + 1
    }
}

/// The runs of a list of comments, one behind the other.
pub proof fn lemma_runs(v: Seq<CommentText>, src: Seq<char>, n: int)
    requires
        0 <= n <= merged_from(v, 0, src).len(),
    ensures
        ({
            let all = merged_from(v, 0, src);
            let p = run_start(v, src, n);
            let q = run_end(v, p, src);
            &&& 0 <= p <= v.len()
            &&& all.skip(n) == merged_from(v, p, src)
            &&& n == all.len() ==> p == v.len()
            &&& n < all.len() ==> p <= q < v.len() && all[n] == merged_run(v, p, q, src)
            &&& n < all.len() && q + 1 < v.len() ==> !merges(v[q], v[q + 1], src)
        }),
    decreases n,
{
    let all = merged_from(v, 0, src);
    let p = run_start(v, src, n);
    if n == 0 {
        assert(all.skip(0) =~= all);
    } else {
        lemma_runs(v, src, n - 1);
        let o = run_start(v, src, n - 1);
        let rest = merged_from(v, o, src);
        assert(rest =~= all.skip(n - 1));
        assert(all.skip(n) =~= rest.skip(1));
        assert(rest.skip(1) =~= merged_from(v, p, src));
    }
    if n < all.len() {
        assert(all.skip(n)[0] == all[n]);
        crate::merge::lemma_run_end(v, p, src);
        lemma_run_stops(v, p, src);
    } else if p < v.len() {
        crate::merge::lemma_run_end(v, p, src);
        assert(merged_from(v, p, src).len() > 0);
    }
}

/// A run stops at a comment that does not go on with it.
proof fn lemma_run_stops(v: Seq<CommentText>, j: int, src: Seq<char>)
    requires
        0 <= j < v.len(),
    ensures
        ({
            let q = run_end(v, j, src);
            q + 1 < v.len() ==> !merges(v[q], v[q + 1], src)
        }),
    decreases v.len() - j,
{
    if j + 1 < v.len() && merges(v[j], v[j + 1], src) {
        lemma_run_stops(v, j + 1, src);
    }
}

/// Comments in order stay so.
pub proof fn lemma_sorted_already(v: Seq<CommentText>, n: int)
    requires
        0 <= n <= v.len(),
        forall|k: int| 0 < k < v.len() ==> v[k - 1].start_byte <= (#[trigger] v[k]).start_byte,
    ensures
        sorted(v, n) == v.take(n),
    decreases n,
{
    if n > 0 {
        lemma_sorted_already(v, n - 1);
        if n > 1 {
            assert(v.take(n - 1).last() == v[n - 2]);
            assert(v[n - 1 - 1].start_byte <= v[n - 1].start_byte);
        }
        assert(v.take(n - 1).push(v[n - 1]) =~= v.take(n));
    } else {
        assert(v.take(0) =~= Seq::empty());
    }
}

/// The comments of a source from the blocks that are kept.
pub proof fn lemma_comments_are(src: Seq<char>)
    ensures
        ({
            let all = merged_from(scanned(src), 0, src);
            &&& assembly_comments(src).len() == all.len()
            &&& forall|i: int|
                0 <= i < all.len() ==> #[trigger] assembly_comments(src)[i] == (CommentText {
                    fallback_ending: ending_behind(src, all[i].end_byte),
                    ..all[i]
                })
        }),
{
    let v = scanned(src);
    let kept = kept_from(src, 0);
    lemma_kept_collected(src, 0);
    assert forall|k: int| 0 < k < v.len() implies v[k - 1].start_byte <= (
    #[trigger] v[k]).start_byte by {
        lemma_nth_kept(src, 0, k);
        lemma_nth_kept(src, 0, k - 1);
    }
    lemma_sorted_already(v, v.len() as int);
    assert(v.take(v.len() as int) =~= v);
}

/// The first and the last block of comment `i`.
pub open spec fn first_block(src: Seq<char>, i: int) -> int {
    run_start(scanned(src), src, i)
}

pub open spec fn last_block(src: Seq<char>, i: int) -> int {
    run_end(scanned(src), first_block(src, i), src)
}

/// What is known of comment `i` of an assembly source.
#[verifier::opaque]
pub open spec fn made_of_blocks(src: Seq<char>, i: int) -> bool {
    let c = assembly_comments(src)[i];
    let kept = kept_from(src, 0);
    let p = first_block(src, i);
    let q = last_block(src, i);
    let head = block_comment(src, kept[p]);
    &&& 0 <= p <= q < kept.len()
    &&& c.start_byte == kept[p].0
    &&& c.end_byte == kept[q].1
    &&& c == CommentText {
        end_byte: c.end_byte,
        text: c.text,
        fallback_ending: ending_behind(src, c.end_byte),
        ..head
    }
    &&& p == q ==> c.text == head.text
    &&& p < q ==> !c.is_trailing && c.text.len() > 0 && c.text.last() == '/'
    &&& first_block(src, i + 1) == q + 1
    &&& q + 1 < kept.len() ==> !merges(scanned(src)[q], scanned(src)[q + 1], src)
}

pub proof fn lemma_made_of_blocks(src: Seq<char>, i: int)
    requires
        0 <= i < assembly_comments(src).len(),
    ensures
        made_of_blocks(src, i),
{
    reveal(made_of_blocks);
    let v = scanned(src);
    let kept = kept_from(src, 0);
    lemma_comments_are(src);
    lemma_runs(v, src, i);
    let p = first_block(src, i);
    let q = last_block(src, i);
    assert(v[p] == block_comment(src, kept[p]));
    assert(v[q] == block_comment(src, kept[q]));
    if p < q {
        lemma_run_merges(v, p, src);
        lemma_block_starts(src, p);
        lemma_merged_ends(v.subrange(p, q + 1), span(src, v[p].start_byte, v[q].end_byte));
        lemma_plain_marker(v, p, src);
    }
}

proof fn lemma_run_merges(v: Seq<CommentText>, p: int, src: Seq<char>)
    requires
        0 <= p < run_end(v, p, src),
        p < v.len(),
    ensures
        p + 1 < v.len(),
        merges(v[p], v[p + 1], src),
{
}

/// A run of blocks is one of plain blocks.
proof fn lemma_plain_marker(v: Seq<CommentText>, p: int, src: Seq<char>)
    requires
        0 <= p,
        p + 1 < v.len(),
        merges(v[p], v[p + 1], src),
        has_prefix(v[p].text, "/*"@),
    ensures
        marker_of(v[p].text) == Some(Marker::PlainBlock),
{
    reveal_strlit("/*");
    reveal_strlit("//");
    reveal_strlit("///");
    reveal_strlit("//!");
    reveal_strlit("#!");
    let t = v[p].text;
    assert(t.subrange(0, 2)[1] == '*' && t.subrange(0, 2)[0] == '/');
    assert(t[1] == '*' && t[0] == '/');
    if has_prefix(t, "//"@) {
        assert(t.subrange(0, 2)[1] == '/');
    }
    if has_prefix(t, "///"@) {
        assert(t.subrange(0, 3)[1] == '/');
    }
    if has_prefix(t, "//!"@) {
        assert(t.subrange(0, 3)[1] == '/');
    }
    if has_prefix(t, "#!"@) {
        assert(t.subrange(0, 2)[0] == '#');
    }
}

/// A run of blocks as one block ends in its closer.
proof fn lemma_merged_ends(comments: Seq<CommentText>, source_span: Seq<char>)
    ensures
        merged_block(comments, source_span).len() > 0,
        merged_block(comments, source_span).last() == '/',
{
    reveal_strlit("/* */");
    reveal_strlit(" */");
    let t = merged_block(comments, source_span);
    let lines = crate::merge::less_blank_edges(
        crate::merge::run_texts(comments, comments.len() as int),
    );
    let eol = crate::merge::dominant_ending(source_span);
    if lines.len() > 0 {
        if comments.len() > 0 && comments[0].at_file_start {
            let rows = (seq!["/*"@] + crate::merge::star_lines(lines)).push(" */"@);
            crate::rows::lemma_joined_last(rows, eol);
        } else {
            let first = if lines[0].len() == 0 {
                "/*"@
            } else {
                "/* "@ + lines[0]
            };
            let rows = (seq![first] + crate::merge::star_lines(lines.skip(1))).push(" */"@);
            crate::rows::lemma_joined_last(rows, eol);
        }
    }
}

/// The text of a stretch that starts and ends as a block does.
pub proof fn lemma_delimited(src: Seq<char>, s: int, e: int)
    requires
        0 <= s,
        s + 4 <= e <= encode_utf8(src).len(),
        pair_at(encode_utf8(src), s, 47, 42),
        pair_at(encode_utf8(src), e - 2, 42, 47),
    ensures
        span_ok(src, s, e),
        has_prefix(span(src, s, e), "/*"@),
        has_suffix(span(src, s, e), "*/"@),
        span(src, s, e).len() >= 4,
        span(src, s, e)[0] == '/',
        span(src, s, e).last() == '/',
{
    reveal_strlit("*/");
    reveal_strlit("/*");
    let b = encode_utf8(src);
    lemma_ascii_boundary(src, s);
    lemma_ascii_boundary(src, s + 1);
    lemma_ascii_boundary(src, e - 2);
    lemma_ascii_boundary(src, e - 1);
    lemma_closer_bytes();
    let own = span(src, s, e);
    let x = span(src, s, s + 2);
    let y = span(src, s + 2, e - 2);
    let z = span(src, e - 2, e);
    lemma_span_join(src, s, s + 2, e - 2);
    lemma_span_join(src, s, e - 2, e);
    assert(b.subrange(s, s + 2) =~= encode_utf8("/*"@));
    assert(b.subrange(e - 2, e) =~= encode_utf8("*/"@));
    encode_utf8_decode_utf8("/*"@);
    encode_utf8_decode_utf8("*/"@);
    assert(x == "/*"@);
    assert(z == "*/"@);
    assert(own == x + y + z);
    assert(own.subrange(0, 2) =~= "/*"@);
    assert(own.subrange(own.len() - 2, own.len() as int) =~= "*/"@);
    assert(own[0] == x[0]);
    assert(own.last() == z[1]);
}

proof fn lemma_block_starts(src: Seq<char>, k: int)
    requires
        0 <= k < kept_from(src, 0).len(),
    ensures
        has_prefix(scanned(src)[k].text, "/*"@),
{
    lemma_nth_kept(src, 0, k);
    lemma_delimited(src, kept_from(src, 0)[k].0, kept_from(src, 0)[k].1);
}

/// A comment of an assembly source in its place.
pub proof fn lemma_comment_facts(src: Seq<char>, i: int)
    requires
        0 <= i < assembly_comments(src).len(),
    ensures
        ({
            let comments = assembly_comments(src);
            let c = comments[i];
            let own = span(src, c.start_byte, c.end_byte);
            &&& made_of_blocks(src, i)
            &&& 0 <= c.start_byte && c.start_byte + 4 <= c.end_byte <= encode_utf8(src).len()
            &&& span_ok(src, c.start_byte, c.end_byte)
            &&& has_prefix(own, "/*"@)
            &&& own.len() >= 4
            &&& own[0] == '/'
            &&& own.last() == '/'
            &&& pair_at(encode_utf8(src), c.start_byte, 47, 42)
            &&& !passed_over(src, c.start_byte)
            &&& c.param_shift is None && c.relocate_before is None
            &&& end_of(comments, i) <= c.start_byte
            &&& kept_from(src, end_of(comments, i)).len() > 0
            &&& kept_from(src, end_of(comments, i))[0].0 == c.start_byte
            &&& is_block_text(own) ==> first_block(src, i) == last_block(src, i)
            &&& first_block(src, i) == last_block(src, i) ==> c == (CommentText {
                fallback_ending: ending_behind(src, c.end_byte),
                ..block_comment(src, (c.start_byte, c.end_byte))
            })
            &&& first_block(src, i) <= last_block(src, i)
            &&& first_block(src, i) == last_block(src, i) ==> c.text == own
            &&& first_block(src, i) < last_block(src, i) ==> !c.is_trailing && c.text.len() > 0
                && c.text.last() == '/'
            &&& c.start_col_byte == block_comment(
                src,
                (c.start_byte, c.end_byte),
            ).start_col_byte
            &&& c.is_trailing == block_comment(
                src,
                (c.start_byte, c.end_byte),
            ).is_trailing
            &&& c.line_indent_bytes == block_comment(
                src,
                (c.start_byte, c.end_byte),
            ).line_indent_bytes
            &&& c.at_file_start == block_comment(
                src,
                (c.start_byte, c.end_byte),
            ).at_file_start
        }),
{
    reveal(made_of_blocks);
    let comments = assembly_comments(src);
    let c = comments[i];
    let kept = kept_from(src, 0);
    lemma_made_of_blocks(src, i);
    let p = first_block(src, i);
    let q = last_block(src, i);
    lemma_nth_kept(src, 0, p);
    lemma_nth_kept(src, 0, q);
    lemma_kept_order(src, p, q);
    lemma_delimited(src, c.start_byte, c.end_byte);
    if i > 0 {
        lemma_made_of_blocks(src, i - 1);
        let o = last_block(src, i - 1);
        assert(o + 1 == p);
        lemma_nth_kept(src, 0, o);
        assert(kept.skip(o + 1)[0] == kept[p]);
    }
    let own = span(src, c.start_byte, c.end_byte);
    if is_block_text(own) && p < q {
        lemma_block_bytes(own);
        lemma_span_bytes(src, c.start_byte, c.end_byte);
        lemma_kept_order(src, p + 1, q);
        lemma_nth_kept(src, 0, p + 1);
        let k = kept[p].1 - 2 - c.start_byte;
        let b = encode_utf8(own);
        assert(b[k] == encode_utf8(src)[kept[p].1 - 2]);
        assert(b[k + 1] == encode_utf8(src)[kept[p].1 - 1]);
        assert(pair_at(b, k, 42, 47));
    }
}

proof fn lemma_kept_order(src: Seq<char>, p: int, q: int)
    requires
        0 <= p <= q < kept_from(src, 0).len(),
    ensures
        kept_from(src, 0)[p].0 <= kept_from(src, 0)[q].0,
        kept_from(src, 0)[p].1 <= kept_from(src, 0)[q].1,
    decreases q - p,
{
    if p < q {
        lemma_kept_order(src, p, q - 1);
        lemma_nth_kept(src, 0, q);
        lemma_nth_kept(src, 0, q - 1);
    }
}

/// Two comments that follow each other and are one block each do not read as one.
pub proof fn lemma_apart_blocks(src: Seq<char>, i: int)
    requires
        0 < i < assembly_comments(src).len(),
        first_block(src, i - 1) == last_block(src, i - 1),
        first_block(src, i) == last_block(src, i),
    ensures
        ({
            let a = assembly_comments(src)[i - 1];
            let b = assembly_comments(src)[i];
            !merges(
                block_comment(src, (a.start_byte, a.end_byte)),
                block_comment(src, (b.start_byte, b.end_byte)),
                src,
            )
        }),
{
    reveal(made_of_blocks);
    let kept = kept_from(src, 0);
    lemma_made_of_blocks(src, i - 1);
    lemma_made_of_blocks(src, i);
    let q = last_block(src, i - 1);
    assert(scanned(src)[q] == block_comment(src, kept[q]));
    assert(scanned(src)[q + 1] == block_comment(src, kept[q + 1]));
}

/// Behind the last comment nothing is kept, and comments lie apart.
pub proof fn lemma_comments_lie(src: Seq<char>)
    ensures
        apart(assembly_comments(src)),
        kept_from(src, end_of(assembly_comments(src), assembly_comments(src).len() as int)).len()
            == 0,
{
    reveal(made_of_blocks);
    let comments = assembly_comments(src);
    let kept = kept_from(src, 0);
    let n = comments.len() as int;
    lemma_comments_are(src);
    lemma_runs(scanned(src), src, n);
    crate::apart_laws::law_assembly_comments_are_apart(src);
    if n > 0 {
        lemma_comment_facts(src, n - 1);
        let q = last_block(src, n - 1);
        lemma_nth_kept(src, 0, q);
        assert(q + 1 == kept.len());
        assert(kept.skip(q + 1).len() == 0);
    } else {
        assert(kept.len() == 0);
    }
}

} // verus!
