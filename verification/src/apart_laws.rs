//! That comments are found apart from each other, and that what happens to one
//! does not reach into another.

use crate::assembly::blocks_from;
use crate::bytes::line_start;
use crate::comment::{acsl_split_allowed, CommentText};
use crate::language::Language;
use crate::merge::merged_from;
use crate::parse::{
    assembly_collected, assembly_comments, collected, finished, inserted, is_collected, sorted,
    tree_comments,
};
use crate::plan_laws::{
    apart, law_assembly_blocks, law_directives_stay, law_merged_comments_stay_apart,
    lemma_before_blanks, lemma_past_blanks,
};
use crate::planner::{
    alone_on_line, closer_splices, comment_splices, deletion, in_place_splices, is_blank,
    page_splices, past_blanks, planned, planned_upto, shift_splices,
};
use crate::rewrite::{is_target, moves_to, Splice};
use crate::syntax::NodeText;
use vstd::prelude::*;
use vstd::utf8::encode_utf8;

verus! {

/// Each comment ends behind its start.
pub open spec fn forward(v: Seq<CommentText>) -> bool {
    forall|i: int| 0 <= i < v.len() ==> (#[trigger] v[i]).start_byte <= v[i].end_byte
}

/// Comments that are apart are in order as they stand.
proof fn lemma_sorted_already(v: Seq<CommentText>, n: int)
    requires
        apart(v),
        forward(v),
        0 <= n <= v.len(),
    ensures
        sorted(v, n) == v.take(n),
    decreases n,
{
    if n > 0 {
        lemma_sorted_already(v, n - 1);
        let w = v.take(n - 1);
        if n > 1 {
            assert(w.last() == v[n - 2]);
            assert(v[n - 2].end_byte <= v[n - 1].start_byte);
        }
        assert(inserted(w, v[n - 1]) == w.push(v[n - 1]));
        assert(w.push(v[n - 1]) =~= v.take(n));
    } else {
        assert(v.take(0) =~= Seq::empty());
    }
}

/// What is made of comments that are apart is apart.
proof fn lemma_finished_apart(v: Seq<CommentText>, src: Seq<char>)
    requires
        apart(v),
        forward(v),
    ensures
        apart(finished(v, src)),
{
    lemma_sorted_already(v, v.len() as int);
    assert(v.take(v.len() as int) =~= v);
    law_merged_comments_stay_apart(v, src);
    let m = merged_from(v, 0, src);
    let r = finished(v, src);
    assert forall|i: int, j: int| 0 <= i < j < r.len() implies r[i].end_byte
        <= r[j].start_byte by {
        assert(m[i].end_byte <= m[j].start_byte);
    }
}

proof fn lemma_blocks_apart(bytes: Seq<u8>, i: int, j: int)
    requires
        0 <= i < j < blocks_from(bytes, 0).len(),
    ensures
        blocks_from(bytes, 0)[i].1 <= blocks_from(bytes, 0)[j].0,
    decreases j,
{
    law_assembly_blocks(bytes, j);
    if i < j - 1 {
        lemma_blocks_apart(bytes, i, j - 1);
        law_assembly_blocks(bytes, j - 1);
    }
}

proof fn lemma_assembly_apart(src: Seq<char>, n: int)
    requires
        0 <= n <= blocks_from(encode_utf8(src), 0).len(),
    ensures
        ({
            let blocks = blocks_from(encode_utf8(src), 0);
            let v = assembly_collected(blocks, n, src);
            &&& apart(v)
            &&& forward(v)
            &&& forall|k: int|
                0 <= k < v.len() ==> exists|p: int|
                    0 <= p < n && (#[trigger] v[k]).end_byte == (#[trigger] blocks[p]).1
        }),
    decreases n,
{
    let b = encode_utf8(src);
    let blocks = blocks_from(b, 0);
    let v = assembly_collected(blocks, n, src);
    if n > 0 {
        lemma_assembly_apart(src, n - 1);
        let w = assembly_collected(blocks, n - 1, src);
        law_assembly_blocks(b, n - 1);
        assert forall|k: int| 0 <= k < w.len() implies (#[trigger] w[k]).end_byte
            <= blocks[n - 1].0 && exists|p: int|
            0 <= p < n && w[k].end_byte == (#[trigger] blocks[p]).1 by {
            let p = choose|p: int| 0 <= p < n - 1 && w[k].end_byte == (#[trigger] blocks[p]).1;
            lemma_blocks_apart(b, p, n - 1);
            assert(0 <= p < n && w[k].end_byte == blocks[p].1);
        }
        assert forall|k: int| 0 <= k < v.len() implies exists|p: int|
            0 <= p < n && (#[trigger] v[k]).end_byte == (#[trigger] blocks[p]).1 by {
            if k < w.len() {
                assert(v[k] == w[k]);
            } else {
                assert(v[k].end_byte == blocks[n - 1].1);
            }
        }
        assert forall|i: int, j: int| 0 <= i < j < v.len() implies v[i].end_byte
            <= v[j].start_byte by {
            assert(v[i] == w[i]);
            if j < w.len() {
                assert(v[j] == w[j]);
            }
        }
    }
}

/// The comments of an assembly source are apart from each other.
pub proof fn law_assembly_comments_are_apart(src: Seq<char>)
    ensures
        apart(assembly_comments(src)),
{
    let blocks = blocks_from(encode_utf8(src), 0);
    lemma_assembly_apart(src, blocks.len() as int);
    lemma_finished_apart(assembly_collected(blocks, blocks.len() as int, src), src);
}

/// The nodes that are comments lie apart in the order of the tree.
pub open spec fn nodes_apart(nodes: Seq<NodeText>, src: Seq<char>, lang: Language) -> bool {
    &&& forall|i: int|
        0 <= i < nodes.len() ==> (#[trigger] nodes[i]).start_byte <= nodes[i].end_byte
    &&& forall|i: int, j: int|
        0 <= i < j < nodes.len() && #[trigger] is_collected(nodes, i, src, lang)
            && #[trigger] is_collected(nodes, j, src, lang) ==> nodes[i].end_byte
            <= nodes[j].start_byte
}

proof fn lemma_collected_apart(nodes: Seq<NodeText>, n: int, src: Seq<char>, lang: Language)
    requires
        nodes_apart(nodes, src, lang),
        0 <= n <= nodes.len(),
    ensures
        ({
            let v = collected(nodes, n, src, lang);
            &&& apart(v)
            &&& forward(v)
            &&& forall|k: int|
                0 <= k < v.len() ==> exists|p: int|
                    0 <= p < n && #[trigger] is_collected(nodes, p, src, lang) && (
                    #[trigger] v[k]).end_byte == nodes[p].end_byte
        }),
    decreases n,
{
    let v = collected(nodes, n, src, lang);
    if n > 0 {
        lemma_collected_apart(nodes, n - 1, src, lang);
        let w = collected(nodes, n - 1, src, lang);
        assert(nodes[n - 1].start_byte <= nodes[n - 1].end_byte);
        assert forall|k: int| 0 <= k < v.len() implies exists|p: int|
            0 <= p < n && #[trigger] is_collected(nodes, p, src, lang) && (
            #[trigger] v[k]).end_byte == nodes[p].end_byte by {
            if k < w.len() {
                assert(v[k] == w[k]);
                let p = choose|p: int|
                    0 <= p < n - 1 && #[trigger] is_collected(nodes, p, src, lang)
                        && w[k].end_byte == nodes[p].end_byte;
                assert(is_collected(nodes, p, src, lang));
            } else {
                assert(is_collected(nodes, n - 1, src, lang));
            }
        }
        assert forall|i: int, j: int| 0 <= i < j < v.len() implies v[i].end_byte
            <= v[j].start_byte by {
            assert(v[i] == w[i]);
            if j < w.len() {
                assert(v[j] == w[j]);
            } else {
                let p = choose|p: int|
                    0 <= p < n - 1 && #[trigger] is_collected(nodes, p, src, lang)
                        && w[i].end_byte == nodes[p].end_byte;
                assert(is_collected(nodes, n - 1, src, lang));
            }
        }
    }
}

/// The comments of a tree whose comment nodes are apart are apart from each other.
pub proof fn law_tree_comments_are_apart(nodes: Seq<NodeText>, src: Seq<char>, lang: Language)
    requires
        nodes_apart(nodes, src, lang),
    ensures
        apart(tree_comments(nodes, src, lang)),
{
    lemma_collected_apart(nodes, nodes.len() as int, src, lang);
    lemma_finished_apart(collected(nodes, nodes.len() as int, src, lang), src);
}

/// A visible character of ASCII.
pub open spec fn visible(x: u8) -> bool {
    32 < x < 127
}

/// A line ends at `i`.
pub open spec fn line_ends(b: Seq<u8>, i: int) -> bool {
    i == b.len() || b[i] == 10 || (b[i] == 13 && i + 1 < b.len() && b[i + 1] == 10)
}

/// A comment starts with its marker. It ends with a closer or where a line ends,
/// with the line break or without it.
pub open spec fn bounded(b: Seq<u8>, c: CommentText) -> bool {
    &&& 0 <= c.start_byte < c.end_byte <= b.len()
    &&& visible(b[c.start_byte])
    &&& visible(b[c.end_byte - 1]) || b[c.end_byte - 1] == 10 || line_ends(b, c.end_byte)
    &&& !c.is_trailing ==> forall|i: int|
        line_start(b, c.start_byte) <= i < c.start_byte ==> !visible(#[trigger] b[i])
}

/// The splice leaves the comment's bytes alone.
pub open spec fn clear_of(s: Splice, c: CommentText) -> bool {
    s.end <= c.start_byte || c.end_byte <= s.start
}

/// What stands ahead of a comment on its line and is not visible belongs to no
/// other comment.
proof fn lemma_front_clear(b: Seq<u8>, c: CommentText, o: CommentText, low: int)
    requires
        bounded(b, c),
        bounded(b, o),
        c.end_byte <= o.start_byte,
        line_start(b, o.start_byte) <= low <= o.start_byte,
        forall|i: int| low <= i < o.start_byte ==> !visible(#[trigger] b[i]),
    ensures
        c.end_byte <= low,
{
    crate::bytes::lemma_line_start(b, o.start_byte);
    if c.end_byte > low {
        assert(!visible(b[c.end_byte - 1]));
        assert(b[c.end_byte - 1] != 10);
        assert(line_ends(b, c.end_byte));
        if c.end_byte < o.start_byte {
            assert(b[c.end_byte] != 10);
            if c.end_byte + 1 < o.start_byte {
                assert(b[c.end_byte + 1] != 10);
            }
        }
    }
}

/// What is deleted with a comment reaches into no other.
proof fn lemma_deletion_clear(src: Seq<char>, c: CommentText, o: CommentText, backward: bool)
    requires
        bounded(encode_utf8(src), c),
        bounded(encode_utf8(src), o),
        c.end_byte <= o.start_byte || o.end_byte <= c.start_byte,
    ensures
        clear_of(deletion(src, o, backward), c),
{
    let b = encode_utf8(src);
    let at = line_start(b, o.start_byte);
    let after = past_blanks(b, o.end_byte);
    crate::bytes::lemma_line_start(b, o.start_byte);
    lemma_past_blanks(b, o.end_byte);
    lemma_before_blanks(b, o.start_byte, at);
    if c.end_byte <= o.start_byte {
        if alone_on_line(b, o.start_byte, o.end_byte) {
            assert forall|i: int| at <= i < o.start_byte implies !visible(#[trigger] b[i]) by {
                assert(is_blank(b[i]));
            }
            lemma_front_clear(b, c, o, at);
        } else if backward {
            let low = crate::planner::before_blanks(b, o.start_byte, at);
            assert forall|i: int| low <= i < o.start_byte implies !visible(#[trigger] b[i]) by {
                assert(is_blank(b[i]));
            }
            lemma_front_clear(b, c, o, low);
        }
    } else {
        if c.start_byte < after {
            assert(is_blank(b[c.start_byte]));
        }
    }
}

/// What happens to one comment leaves another alone.
proof fn lemma_comment_clear(
    src: Seq<char>,
    c: CommentText,
    o: CommentText,
    prev: Option<CommentText>,
    lang: Language,
    limit: usize,
    tab_width: usize,
    k: int,
)
    requires
        bounded(encode_utf8(src), c),
        bounded(encode_utf8(src), o),
        c.end_byte <= o.start_byte || o.end_byte <= c.start_byte,
        forall|at: int| #[trigger] moves_to(o, at) ==> at <= c.start_byte || c.end_byte <= at,
        0 <= k < comment_splices(src, o, prev, lang, limit, tab_width).len(),
    ensures
        clear_of(comment_splices(src, o, prev, lang, limit, tab_width)[k], c),
{
    reveal(comment_splices);
    reveal(shift_splices);
    reveal(closer_splices);
    reveal(in_place_splices);
    reveal(page_splices);
    let b = encode_utf8(src);
    let at = line_start(b, o.start_byte);
    lemma_deletion_clear(src, c, o, true);
    lemma_deletion_clear(src, c, o, false);
    crate::bytes::lemma_line_start(b, o.start_byte);
    if o.param_shift is Some {
        assert(moves_to(o, o.param_shift->0.insert_at as int));
    }
    if o.relocate_before is Some {
        assert(moves_to(o, o.relocate_before->0 as int));
    }
    if !o.is_trailing && c.end_byte <= o.start_byte {
        lemma_front_clear(b, c, o, at);
    }
}

/// A comment that another tool reads is not touched, whatever happens to the
/// comments around it: no replacement covers any of it or goes in inside it. The
/// one exception is the closer of an annotation on several lines.
pub proof fn law_directives_are_not_touched(
    src: Seq<char>,
    comments: Seq<CommentText>,
    i: int,
    lang: Language,
    limit: usize,
    tab_width: usize,
    k: int,
)
    requires
        apart(comments),
        forall|j: int|
            0 <= j < comments.len() ==> bounded(encode_utf8(src), #[trigger] comments[j]),
        0 <= i < comments.len(),
        comments[i].force_passthrough,
        comments[i].param_shift is None,
        !acsl_split_allowed(src, comments[i], lang),
        forall|at: int| #[trigger]
            is_target(comments, at) ==> at <= comments[i].start_byte || comments[i].end_byte <= at,
        0 <= k < planned(src, comments, lang, limit, tab_width).len(),
    ensures
        clear_of(planned(src, comments, lang, limit, tab_width)[k], comments[i]),
{
    lemma_planned_clear(src, comments, i, comments.len() as int, lang, limit, tab_width, k);
}

proof fn lemma_planned_clear(
    src: Seq<char>,
    comments: Seq<CommentText>,
    i: int,
    n: int,
    lang: Language,
    limit: usize,
    tab_width: usize,
    k: int,
)
    requires
        apart(comments),
        forall|j: int|
            0 <= j < comments.len() ==> bounded(encode_utf8(src), #[trigger] comments[j]),
        0 <= i < comments.len(),
        comments[i].force_passthrough,
        comments[i].param_shift is None,
        !acsl_split_allowed(src, comments[i], lang),
        forall|at: int| #[trigger]
            is_target(comments, at) ==> at <= comments[i].start_byte || comments[i].end_byte <= at,
        0 <= n <= comments.len(),
        0 <= k < planned_upto(src, comments, n, lang, limit, tab_width).len(),
    ensures
        clear_of(planned_upto(src, comments, n, lang, limit, tab_width)[k], comments[i]),
    decreases n,
{
    let before = planned_upto(src, comments, n - 1, lang, limit, tab_width);
    let o = comments[n - 1];
    let prev = if n > 1 {
        Some(comments[n - 2])
    } else {
        None
    };
    if k < before.len() {
        lemma_planned_clear(src, comments, i, n - 1, lang, limit, tab_width, k);
    } else if n - 1 == i {
        law_directives_stay(src, o, prev, lang, limit, tab_width);
    } else {
        assert(bounded(encode_utf8(src), comments[i]) && bounded(encode_utf8(src), o));
        assert forall|at: int| #[trigger] moves_to(o, at) implies at <= comments[i].start_byte
            || comments[i].end_byte <= at by {
            assert(is_target(comments, at));
        }
        lemma_comment_clear(
            src,
            comments[i],
            o,
            prev,
            lang,
            limit,
            tab_width,
            k - before.len(),
        );
    }
}

} // verus!
