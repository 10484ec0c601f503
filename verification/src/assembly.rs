//! Block comments of GAS assembly.
//!
//! Which character opens a line comment depends on the target, and a file does
//! not say its target. So only `/* */` is read as a comment, and one that a
//! line comment of some target could have swallowed is passed over.

use crate::bytes::{lemma_ascii_boundary, line_start, line_start_before, span_ok};
use crate::text::{has_prefix, leads_with, opens_with, starts_with, trim_start, trimmed_start, CharClass};
use vstd::prelude::*;
use vstd::utf8::encode_utf8;

verus! {

/// A byte that opens a line comment on some target.
pub open spec fn comment_byte(b: u8) -> bool {
    // # @ ; ! |
    b == 35 || b == 64 || b == 59 || b == 33 || b == 124
}

/// The two bytes `a` and `b` stand at `i`.
pub open spec fn pair_at(bytes: Seq<u8>, i: int, a: u8, b: u8) -> bool {
    0 <= i && i + 1 < bytes.len() && bytes[i] == a && bytes[i + 1] == b
}

/// A line comment of some target opens at `i`.
pub open spec fn line_comment_at(bytes: Seq<u8>, i: int) -> bool {
    comment_byte(bytes[i]) || pair_at(bytes, i, 47, 47)
}

/// A line comment of some target opens on the line of `i`, in front of `i`.
pub open spec fn swallowed(bytes: Seq<u8>, i: int) -> bool {
    exists|j: int| line_start(bytes, i) <= j < i && #[trigger] line_comment_at(bytes, j)
}

/// The first `*/` at or behind `i`; the length where there is none.
pub open spec fn closer_from(bytes: Seq<u8>, i: int) -> int
    decreases bytes.len() - i,
{
    if i >= bytes.len() {
        bytes.len() as int
    } else if pair_at(bytes, i, 42, 47) {
        i
    } else {
        closer_from(bytes, i + 1)
    }
}

/// Where the string literal ends whose text goes on at `i`: behind its closing
/// quote, or at the end of its line.
pub open spec fn string_end(bytes: Seq<u8>, i: int) -> int
    decreases bytes.len() - i,
{
    if i >= bytes.len() {
        bytes.len() as int
    } else if bytes[i] == 34 {
        i + 1
    } else if bytes[i] == 10 {
        i
    } else if bytes[i] == 92 && i + 1 < bytes.len() && bytes[i + 1] != 10 {
        string_end(bytes, i + 2)
    } else {
        string_end(bytes, i + 1)
    }
}

/// The block comments from `i` on, each with its end.
pub open spec fn blocks_from(bytes: Seq<u8>, i: int) -> Seq<(int, int)>
    decreases bytes.len() - i,
{
    if i < 0 || i >= bytes.len() {
        Seq::empty()
    } else if pair_at(bytes, i, 47, 42) {
        let c = closer_from(bytes, i + 2);
        if c < i + 2 || c + 1 >= bytes.len() {
            Seq::empty()
        } else if swallowed(bytes, i) {
            blocks_from(bytes, c + 2)
        } else {
            seq![(i, c + 2)] + blocks_from(bytes, c + 2)
        }
    } else if bytes[i] == 34 {
        let e = string_end(bytes, i + 1);
        if e <= i || e > bytes.len() {
            Seq::empty()
        } else {
            blocks_from(bytes, e)
        }
    } else {
        blocks_from(bytes, i + 1)
    }
}

pub proof fn lemma_closer(bytes: Seq<u8>, i: int)
    requires
        0 <= i <= bytes.len(),
    ensures
        i <= closer_from(bytes, i) <= bytes.len(),
        closer_from(bytes, i) < bytes.len() ==> pair_at(bytes, closer_from(bytes, i), 42, 47),
    decreases bytes.len() - i,
{
    if i < bytes.len() && !pair_at(bytes, i, 42, 47) {
        lemma_closer(bytes, i + 1);
    }
}

fn find_closer(bytes: &[u8], from: usize) -> (c: usize)
    requires
        from <= bytes@.len(),
    ensures
        c == closer_from(bytes@, from as int),
        from <= c <= bytes@.len(),
{
    let mut i: usize = from;
    while i < bytes.len()
        invariant
            from <= i <= bytes@.len(),
            closer_from(bytes@, from as int) == closer_from(bytes@, i as int),
        decreases bytes@.len() - i,
    {
        if bytes[i] == 42 && i + 1 < bytes.len() && bytes[i + 1] == 47 {
            return i;
        }
        i = i + 1;
    }
    i
}

fn skip_string(bytes: &[u8], from: usize) -> (e: usize)
    requires
        from <= bytes@.len(),
    ensures
        e == string_end(bytes@, from as int),
        from <= e <= bytes@.len(),
{
    let mut i: usize = from;
    while i < bytes.len()
        invariant
            from <= i <= bytes@.len(),
            string_end(bytes@, from as int) == string_end(bytes@, i as int),
        decreases bytes@.len() - i,
    {
        if bytes[i] == 34 {
            return i + 1;
        }
        if bytes[i] == 10 {
            return i;
        }
        if bytes[i] == 92 && i + 1 < bytes.len() && bytes[i + 1] != 10 {
            i = i + 2;
        } else {
            i = i + 1;
        }
    }
    i
}

fn could_be_swallowed(source: &str, i: usize) -> (r: bool)
    requires
        i < encode_utf8(source@).len(),
    ensures
        r == swallowed(encode_utf8(source@), i as int),
{
    let bytes = source.as_bytes();
    let mut j: usize = line_start_before(source, i);
    let ghost start = j;
    while j < i
        invariant
            start <= j <= i < bytes@.len(),
            bytes@ == encode_utf8(source@),
            start == line_start(bytes@, i as int),
            forall|t: int| start <= t < j ==> !#[trigger] line_comment_at(bytes@, t),
        decreases i - j,
    {
        let b: u8 = bytes[j];
        if b == 35 || b == 64 || b == 59 || b == 33 || b == 124 || (b == 47 && j + 1 < bytes.len()
            && bytes[j + 1] == 47) {
            assert(line_comment_at(bytes@, j as int));
            return true;
        }
        j = j + 1;
    }
    false
}

pub open spec fn pair_ints(v: Seq<(usize, usize)>) -> Seq<(int, int)> {
    Seq::new(v.len(), |i: int| (v[i].0 as int, v[i].1 as int))
}

/// The byte ranges of the block comments of an assembly source.
pub fn scan(source: &str) -> (r: Vec<(usize, usize)>)
    ensures
        pair_ints(r@) == blocks_from(encode_utf8(source@), 0),
        forall|k: int|
            0 <= k < r.len() ==> span_ok(source@, (#[trigger] r@[k]).0 as int, r@[k].1 as int),
{
    let bytes = source.as_bytes();
    let ghost want = blocks_from(bytes@, 0);
    let mut out: Vec<(usize, usize)> = Vec::new();
    let mut i: usize = 0;
    assert(pair_ints(out@) + want =~= want);
    while i < bytes.len()
        invariant
            i <= bytes@.len(),
            bytes@ == encode_utf8(source@),
            want == blocks_from(bytes@, 0),
            pair_ints(out@) + blocks_from(bytes@, i as int) == want,
            forall|k: int|
                0 <= k < out.len() ==> span_ok(
                    source@,
                    (#[trigger] out@[k]).0 as int,
                    out@[k].1 as int,
                ),
        decreases bytes@.len() - i,
    {
        if bytes[i] == 47 && i + 1 < bytes.len() && bytes[i + 1] == 42 {
            let c: usize = find_closer(bytes, i + 2);
            proof {
                lemma_closer(bytes@, i + 2);
            }
            if c >= bytes.len() {
                assert(pair_ints(out@) =~= want);
                return out;
            }
            if !could_be_swallowed(source, i) {
                let ghost before = pair_ints(out@);
                out.push((i, c + 2));
                proof {
                    lemma_ascii_boundary(source@, i as int);
                    lemma_ascii_boundary(source@, c + 1);
                    assert(pair_ints(out@) =~= before + seq![(i as int, c + 2)]);
                    assert(pair_ints(out@) + blocks_from(bytes@, c + 2) =~= before + blocks_from(
                        bytes@,
                        i as int,
                    ));
                }
            }
            i = c + 2;
        } else if bytes[i] == 34 {
            i = skip_string(bytes, i + 1);
        } else {
            i = i + 1;
        }
    }
    assert(pair_ints(out@) =~= want);
    out
}

/// A line opens with a line comment of some target.
pub open spec fn line_comment_line(line: Seq<char>) -> bool {
    let t = trimmed_start(line);
    ||| leads_with(t, CharClass::Three('#', '@', ';'))
    ||| leads_with(t, CharClass::Two('!', '|'))
    ||| has_prefix(t, "//"@)
}

pub fn opens_line_comment_at(line: &str) -> (r: bool)
    ensures
        r == line_comment_line(line@),
{
    let t = trim_start(line);
    opens_with(t, CharClass::Three('#', '@', ';')) || opens_with(t, CharClass::Two('!', '|'))
        || starts_with(t, "//")
}

} // verus!
