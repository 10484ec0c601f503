//! Which blocks of an assembly source are comments on every target.

use crate::assembly::{blocks_from, closer_from, line_comment_at, pair_at, string_end, swallowed};
use crate::bytes::line_start;
use crate::comment_laws::{lemma_line_from, on_line_from};
use vstd::prelude::*;

verus! {

/// A line comment of some target opens at `i`: `#`, `@`, `;`, `!`, `|` or two slashes.
pub open spec fn opens_line_comment(b: Seq<u8>, i: int) -> bool {
    ||| b[i] == 35 || b[i] == 64 || b[i] == 59 || b[i] == 33 || b[i] == 124
    ||| b[i] == 47 && i + 1 < b.len() && b[i + 1] == 47
}

/// `/*` stands at `i`, the next `*/` at `c`.
pub open spec fn block_at(b: Seq<u8>, i: int, c: int) -> bool {
    &&& 0 <= i && i + 2 <= c && c + 1 < b.len()
    &&& b[i] == 47 && b[i + 1] == 42
    &&& b[c] == 42 && b[c + 1] == 47
    &&& forall|k: int| i + 2 <= k < c ==> !(#[trigger] b[k] == 42 && b[k + 1] == 47)
}

proof fn lemma_closer(b: Seq<u8>, i: int, c: int)
    requires
        0 <= i <= c && c + 1 < b.len(),
        b[c] == 42 && b[c + 1] == 47,
        forall|k: int| i <= k < c ==> !(#[trigger] b[k] == 42 && b[k + 1] == 47),
    ensures
        closer_from(b, i) == c,
    decreases c - i,
{
    if i < c {
        assert(!(b[i] == 42 && b[i + 1] == 47));
        lemma_closer(b, i + 1, c);
    }
}

proof fn lemma_line_comment(b: Seq<u8>, i: int)
    requires
        0 <= i < b.len(),
    ensures
        line_comment_at(b, i) == opens_line_comment(b, i),
{
}

/// The scan passes over what is neither a slash nor a quotation mark.
proof fn lemma_passed(b: Seq<u8>, i: int, n: int)
    requires
        0 <= i <= n <= b.len(),
        forall|k: int| i <= k < n ==> #[trigger] b[k] != 34,
        forall|k: int| i <= k < n && k + 1 < b.len() ==> !(#[trigger] b[k] == 47 && b[k + 1] == 42),
    ensures
        blocks_from(b, i) == blocks_from(b, n),
    decreases n - i,
{
    if i < n {
        assert(b[i] != 34);
        assert(!pair_at(b, i, 47, 42)) by {
            if i + 1 < b.len() {
                assert(!(b[i] == 47 && b[i + 1] == 42));
            }
        }
        lemma_passed(b, i + 1, n);
    }
}

/// A block is a comment when nothing on its line in front of it opens a line comment on any
/// target; where something does, the block is passed over.
pub proof fn law_blocks_of_assembly(b: Seq<u8>, from: int, at: int, i: int, c: int)
    requires
        0 <= from <= i,
        block_at(b, i, c),
        on_line_from(b, at, i),
        forall|k: int| from <= k < i ==> #[trigger] b[k] != 34,
        forall|k: int| from <= k < i ==> !(#[trigger] b[k] == 47 && b[k + 1] == 42),
    ensures
        ({
            let hidden = exists|k: int| at <= k < i && #[trigger] opens_line_comment(b, k);
            blocks_from(b, from) == if hidden {
                blocks_from(b, c + 2)
            } else {
                seq![(i, c + 2)] + blocks_from(b, c + 2)
            }
        }),
{
    lemma_passed(b, from, i);
    lemma_line_from(b, at, i);
    lemma_closer(b, i + 2, c);
    if exists|k: int| at <= k < i && #[trigger] opens_line_comment(b, k) {
        let k = choose|k: int| at <= k < i && #[trigger] opens_line_comment(b, k);
        lemma_line_comment(b, k);
        assert(line_comment_at(b, k));
        assert(swallowed(b, i));
    } else {
        assert(!swallowed(b, i)) by {
            if swallowed(b, i) {
                let k = choose|k: int| line_start(b, i) <= k < i && #[trigger] line_comment_at(b, k);
                lemma_line_comment(b, k);
                assert(opens_line_comment(b, k));
            }
        }
    }
}

/// A block that is never closed is no comment.
pub proof fn law_open_blocks_are_no_comments(b: Seq<u8>, i: int)
    requires
        0 <= i && i + 1 < b.len(),
        b[i] == 47 && b[i + 1] == 42,
        forall|k: int| i + 2 <= k < b.len() - 1 ==> !(#[trigger] b[k] == 42 && b[k + 1] == 47),
    ensures
        blocks_from(b, i).len() == 0,
{
    lemma_no_closer(b, i + 2);
}

proof fn lemma_no_closer(b: Seq<u8>, i: int)
    requires
        0 <= i <= b.len(),
        forall|k: int| i <= k < b.len() - 1 ==> !(#[trigger] b[k] == 42 && b[k + 1] == 47),
    ensures
        closer_from(b, i) == b.len(),
    decreases b.len() - i,
{
    if i < b.len() {
        if i + 1 < b.len() {
            assert(!(b[i] == 42 && b[i + 1] == 47));
        }
        lemma_no_closer(b, i + 1);
    }
}

/// A quotation hides what is in it: the scan goes on behind it, or at the end of its line.
pub proof fn law_quotations_hide_blocks(b: Seq<u8>, i: int, e: int)
    requires
        0 <= i < e < b.len(),
        b[i] == 34,
        forall|k: int| i < k < e ==> #[trigger] b[k] != 34 && b[k] != 10 && b[k] != 92,
        b[e] == 34 || b[e] == 10,
    ensures
        blocks_from(b, i) == blocks_from(
            b,
            if b[e] == 34 {
                e + 1
            } else {
                e
            },
        ),
{
    lemma_quotation(b, i + 1, e);
}

proof fn lemma_quotation(b: Seq<u8>, i: int, e: int)
    requires
        0 <= i <= e < b.len(),
        forall|k: int| i <= k < e ==> #[trigger] b[k] != 34 && b[k] != 10 && b[k] != 92,
        b[e] == 34 || b[e] == 10,
    ensures
        string_end(b, i) == if b[e] == 34 {
            e + 1
        } else {
            e
        },
    decreases e - i,
{
    if i < e {
        assert(b[i] != 34 && b[i] != 10 && b[i] != 92);
        lemma_quotation(b, i + 1, e);
    }
}

} // verus!
