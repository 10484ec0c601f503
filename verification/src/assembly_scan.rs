//! What the scan for block comments finds in an assembly source, and finds again
//! behind another front.

use crate::assembly::{
    blocks_from, closer_from, comment_byte, line_comment_at, pair_at, string_end, swallowed,
};
use crate::blank_lines::{lemma_lines_behind, line_of};
use crate::bytes::{
    lemma_ascii_boundary, lemma_encode_concat, lemma_encode_len, lemma_source_ends,
    lemma_span_bytes, line_start, span, span_ok,
};
use crate::comment::{comment_at, in_directive, CommentText};
use crate::directive::spliced;
use crate::language::Language;
use crate::lines_before::{
    lemma_line_above, lemma_line_starts, lemma_lines_of, open_line, whole_lines,
};
use crate::parse::assembly_collected;
use crate::placement::{lemma_span_join, lemma_span_middle};
use crate::planner::well_formed_block;
use crate::text::{
    before_trail, has_suffix, in_class, lead_len, leads_with, lemma_lead_len, lemma_lead_len_facts,
    lemma_trail_len, lemma_trail_len_facts, sub_at, trail_len, trimmed, trimmed_end, trimmed_start,
    CharClass,
};
use vstd::prelude::*;
use vstd::utf8::{encode_utf8, encode_utf8_decode_utf8};

verus! {

pub proof fn lemma_closer_bytes()
    ensures
        encode_utf8("*/"@) == seq![42u8, 47u8],
        encode_utf8("/*"@) == seq![47u8, 42u8],
{
    reveal_strlit("*/");
    reveal_strlit("/*");
    let a = "*/"@;
    let b = "/*"@;
    assert((42u32 & 0x7fu32) as u8 == 42u8) by (bit_vector);
    assert((47u32 & 0x7fu32) as u8 == 47u8) by (bit_vector);
    let a1 = a.drop_first();
    let b1 = b.drop_first();
    assert(a1.drop_first().len() == 0);
    assert(b1.drop_first().len() == 0);
    assert(encode_utf8(a1.drop_first()).len() == 0);
    assert(encode_utf8(b1.drop_first()).len() == 0);
    assert(encode_utf8(a1) =~= seq![47u8]);
    assert(encode_utf8(b1) =~= seq![42u8]);
    assert(encode_utf8(a) =~= seq![42u8, 47u8]);
    assert(encode_utf8(b) =~= seq![47u8, 42u8]);
}

/// A closer among the bytes of a text is one in the text.
pub proof fn lemma_closer_chars(t: Seq<char>, k: int)
    requires
        0 <= k,
        pair_at(encode_utf8(t), k, 42, 47),
    ensures
        ({
            let a = span(t, 0, k);
            &&& span_ok(t, 0, k)
            &&& sub_at(t, "*/"@, a.len() as int)
            &&& encode_utf8(a).len() == k
            &&& encode_utf8(t.take(a.len() as int)).len() == k
        }),
{
    reveal_strlit("*/");
    let b = encode_utf8(t);
    let len = b.len() as int;
    lemma_source_ends(t);
    lemma_ascii_boundary(t, k);
    lemma_ascii_boundary(t, k + 1);
    let a = span(t, 0, k);
    let m = span(t, k, k + 2);
    let z = span(t, k + 2, len);
    lemma_span_join(t, 0, k, k + 2);
    lemma_span_join(t, 0, k + 2, len);
    encode_utf8_decode_utf8(t);
    assert(b.subrange(0, len) =~= b);
    assert(a + m + z == t);
    lemma_span_bytes(t, 0, k);
    lemma_span_bytes(t, k, k + 2);
    lemma_closer_bytes();
    assert(b.subrange(k, k + 2) =~= encode_utf8("*/"@));
    encode_utf8_decode_utf8("*/"@);
    assert(m == "*/"@);
    let p = a.len() as int;
    assert(t.subrange(p, p + 2) =~= m);
    assert(t.take(a.len() as int) =~= a);
}

/// The text is one block comment, from its opener to its closer.
pub open spec fn is_block_text(t: Seq<char>) -> bool {
    well_formed_block(t) && trimmed_end(t) == t
}

/// The bytes of one block: an opener in front, a closer at the end, and none
/// between.
pub proof fn lemma_block_bytes(t: Seq<char>)
    requires
        is_block_text(t),
    ensures
        ({
            let b = encode_utf8(t);
            let n = b.len() as int;
            &&& n >= 4
            &&& pair_at(b, 0, 47, 42)
            &&& pair_at(b, n - 2, 42, 47)
            &&& forall|k: int| 2 <= k < n - 2 ==> !#[trigger] pair_at(b, k, 42, 47)
        }),
{
    reveal_strlit("*/");
    reveal_strlit("/*");
    lemma_closer_bytes();
    let len = t.len() as int;
    let b = encode_utf8(t);
    let n = b.len() as int;
    lemma_encode_len(t);
    let o = "/*"@;
    let c = "*/"@;
    assert(t.subrange(0, 2) == o);
    assert(t.subrange(len - 2, len) == c);
    let mid = t.subrange(2, len - 2);
    assert(t =~= o + mid + c);
    lemma_encode_concat(o, mid);
    lemma_encode_concat(o + mid, c);
    assert(b[0] == 47 && b[1] == 42);
    assert(b[n - 2] == 42 && b[n - 1] == 47);
    assert forall|k: int| 2 <= k < n - 2 implies !#[trigger] pair_at(b, k, 42, 47) by {
        if pair_at(b, k, 42, 47) {
            lemma_closer_chars(t, k);
            let a = span(t, 0, k);
            let p = a.len() as int;
            assert(t.subrange(p, p + 2) == c);
            // The closer lies behind the opener and in front of the last one.
            assert(p >= 2) by {
                if p < 2 {
                    assert(t.take(p) =~= o.take(p));
                    lemma_short_front(p);
                }
            }
            assert(p + 2 <= len - 2) by {
                if p + 2 > len - 2 {
                    if p == len - 2 {
                        assert(t.take(p) =~= o + mid);
                        lemma_encode_concat(o, mid);
                    } else {
                        assert(p == len - 3);
                        assert(t.subrange(p, p + 2)[1] == '/');
                        assert(t[len - 2] == '/');
                        assert(t.subrange(len - 2, len)[0] == '*');
                    }
                }
            }
            assert(mid.subrange(p - 2, p) =~= c);
            assert(sub_at(mid, c, p - 2));
        }
    }
}

pub proof fn lemma_short_front(p: int)
    requires
        0 <= p < 2,
    ensures
        encode_utf8("/*"@.take(p)).len() < 2,
{
    reveal_strlit("/*");
    let o = "/*"@;
    let a = o.take(p);
    let z = o.skip(p);
    assert(o =~= a + z);
    assert(z.len() > 0);
    lemma_encode_concat(a, z);
    lemma_encode_len(z);
    lemma_closer_bytes();
    assert(encode_utf8(o).len() == 2);
}

/// The first closer behind `i`.
pub proof fn lemma_closer_is(b: Seq<u8>, i: int, c: int)
    requires
        0 <= i <= c,
        pair_at(b, c, 42, 47),
        forall|k: int| i <= k < c ==> !#[trigger] pair_at(b, k, 42, 47),
    ensures
        closer_from(b, i) == c,
    decreases c - i,
{
    if i < c {
        assert(!pair_at(b, i, 42, 47));
        lemma_closer_is(b, i + 1, c);
    }
}

/// Whether a line comment could swallow a block depends on what stands in front of
/// it on its line.
pub open spec fn lead_swallows(w: Seq<u8>) -> bool {
    exists|j: int|
        0 <= j < w.len() && (comment_byte(#[trigger] w[j]) || (w[j] == 47 && (j + 1 == w.len()
            || w[j + 1] == 47)))
}

pub proof fn lemma_swallowed(a: Seq<char>, r: Seq<char>)
    requires
        encode_utf8(r).len() > 0,
        encode_utf8(r)[0] == 47u8,
    ensures
        swallowed(encode_utf8(a + r), encode_utf8(a).len() as int) == lead_swallows(
            encode_utf8(open_line(a)),
        ),
{
    let b = encode_utf8(a + r);
    let s = encode_utf8(a).len() as int;
    let w = encode_utf8(open_line(a));
    lemma_line_starts(a, r);
    lemma_lines_of(a);
    let h = encode_utf8(whole_lines(a));
    lemma_encode_concat(whole_lines(a), open_line(a));
    lemma_encode_concat(a, r);
    let at = h.len() as int;
    assert(line_start(b, s) == at);
    assert forall|j: int| 0 <= j < w.len() implies b[at + j] == #[trigger] w[j] by {}
    assert(b[s] == 47u8);
    if swallowed(b, s) {
        let j = choose|j: int| line_start(b, s) <= j < s && #[trigger] line_comment_at(b, j);
        let k = j - at;
        assert(b[at + k] == w[k]);
        if k + 1 < w.len() {
            assert(b[at + (k + 1)] == w[k + 1]);
        }
        assert(comment_byte(w[k]) || (w[k] == 47 && (k + 1 == w.len() || w[k + 1] == 47)));
    }
    if lead_swallows(w) {
        let k = choose|k: int|
            0 <= k < w.len() && (comment_byte(#[trigger] w[k]) || (w[k] == 47 && (k + 1 == w.len()
                || w[k + 1] == 47)));
        assert(b[at + k] == w[k]);
        if k + 1 < w.len() {
            assert(b[at + (k + 1)] == w[k + 1]);
        }
        assert(line_comment_at(b, at + k));
    }
}

/// Only blanks behind a text leave its end as it is.
pub proof fn lemma_spliced_tail(p: Seq<char>, q: Seq<char>, y: Seq<char>)
    requires
        !spliced(p + y),
        q.len() > 0 ==> q.last() == '/',
    ensures
        !spliced(q + y),
{
    reveal_strlit("\\");
    let k = CharClass::Three(' ', '\t', '\r');
    let n = trail_len(y, k) as int;
    lemma_trail_len_facts(y, k);
    let a = p + y;
    let b = q + y;
    if n < y.len() {
        assert forall|i: int| a.len() - n <= i < a.len() implies in_class(#[trigger] a[i], k) by {
            assert(a[i] == y[i - p.len()]);
        }
        assert forall|i: int| b.len() - n <= i < b.len() implies in_class(#[trigger] b[i], k) by {
            assert(b[i] == y[i - q.len()]);
        }
        assert(a[a.len() - n - 1] == y[y.len() - n - 1]);
        assert(b[b.len() - n - 1] == y[y.len() - n - 1]);
        lemma_trail_len(a, k, n);
        lemma_trail_len(b, k, n);
        let x = before_trail(a, k);
        let z = before_trail(b, k);
        assert(x.last() == z.last());
        if has_suffix(z, "\\"@) {
            assert(z.subrange(z.len() - 1, z.len() as int)[0] == '\\');
            assert(x.subrange(x.len() - 1, x.len() as int) =~= "\\"@);
        }
    } else {
        assert forall|i: int| b.len() - n <= i < b.len() implies in_class(#[trigger] b[i], k) by {
            assert(b[i] == y[i - q.len()]);
        }
        if q.len() > 0 {
            assert(b[b.len() - n - 1] == q.last());
        }
        lemma_trail_len(b, k, n);
        let z = before_trail(b, k);
        assert(z =~= q);
        if has_suffix(z, "\\"@) {
            assert(z.subrange(z.len() - 1, z.len() as int)[0] == '\\');
        }
    }
}

pub proof fn lemma_block_ends(t: Seq<char>)
    requires
        is_block_text(t),
    ensures
        t.len() >= 4,
        t.last() == '/',
        t[0] == '/',
{
    reveal_strlit("*/");
    reveal_strlit("/*");
    let len = t.len() as int;
    assert(t.subrange(len - 2, len)[1] == '/');
    assert(t.subrange(0, 2)[0] == '/');
}

/// A blank line runs into nothing.
pub proof fn lemma_blank_not_spliced(line: Seq<char>)
    requires
        trimmed(line + seq!['\n']).len() == 0,
    ensures
        !spliced(line),
{
    reveal_strlit("\\");
    let all = line + seq!['\n'];
    if spliced(line) {
        let k = CharClass::Three(' ', '\t', '\r');
        let z = before_trail(line, k);
        lemma_trail_len_facts(line, k);
        assert(z.subrange(z.len() - 1, z.len() as int)[0] == '\\');
        let i = z.len() - 1;
        assert(all[i] == '\\');
        crate::pieces::lemma_solid_inside(all, i);
    }
}

/// The line above the end of the text ties it into a preprocessor directive.
pub open spec fn tied_in(a: Seq<char>) -> bool
    decreases a.len(), 0int,
{
    let h = whole_lines(a);
    h.len() > 0 && h.len() <= a.len() && spliced(line_of(a)) && ends_inside(h.drop_last())
}

/// The text ends inside a preprocessor directive.
pub open spec fn ends_inside(a: Seq<char>) -> bool
    decreases a.len(), 1int,
{
    leads_with(trimmed_start(open_line(a)), CharClass::One('#')) || tied_in(a)
}

/// Being inside a directive is a matter of what stands in front.
pub proof fn lemma_inside_is(a: Seq<char>, r: Seq<char>)
    ensures
        in_directive(a + r, encode_utf8(a).len() as int) == ends_inside(a),
    decreases a.len(),
{
    let s = a + r;
    let h = whole_lines(a);
    let w = open_line(a);
    lemma_lines_of(a);
    lemma_line_starts(a, r);
    assert(h + w + r =~= s);
    lemma_span_middle(h, w, r);
    lemma_encode_concat(h, w);
    if h.len() > 0 {
        lemma_line_above(a, r);
        let g = h.drop_last();
        let rest = seq!['\n'] + w + r;
        assert(g + rest =~= s);
        lemma_inside_is(g, rest);
    } else {
        assert(encode_utf8(h).len() == 0);
    }
}

/// Two texts end alike: in the same line, tied to a directive or not.
pub open spec fn same_end(p: Seq<char>, q: Seq<char>) -> bool {
    open_line(p) == open_line(q) && tied_in(p) == tied_in(q)
}

/// What ends alike goes on alike.
pub proof fn lemma_same_behind(p: Seq<char>, q: Seq<char>, y: Seq<char>)
    requires
        same_end(p, q),
    ensures
        same_end(p + y, q + y),
    decreases y.len(),
{
    lemma_lines_behind(p, y);
    lemma_lines_behind(q, y);
    lemma_lines_of(y);
    lemma_lines_of(p + y);
    lemma_lines_of(q + y);
    lemma_lines_of(p);
    lemma_lines_of(q);
    if whole_lines(y).len() > 0 {
        let z = whole_lines(y).drop_last();
        assert((p + whole_lines(y)).drop_last() =~= p + z);
        assert((q + whole_lines(y)).drop_last() =~= q + z);
        lemma_same_behind(p, q, z);
    }
}

/// The rest of the line that a text opens with.
pub open spec fn first_line(y: Seq<char>) -> Seq<char> {
    y.take(lead_len(y, CharClass::NotOne('\n')) as int)
}

/// Behind two blocks a new line goes on alike, where the first one does not run on.
#[verifier::spinoff_prover]
pub proof fn lemma_new_line(p: Seq<char>, q: Seq<char>, y: Seq<char>)
    requires
        p.len() > 0,
        q.len() > 0,
        p.last() == '/',
        q.last() == '/',
        whole_lines(y).len() > 0,
        !spliced(first_line(y)),
    ensures
        same_end(p + y, q + y),
    decreases y.len(),
{
    lemma_lines_behind(p, y);
    lemma_lines_behind(q, y);
    lemma_lines_of(y);
    lemma_lines_of(p);
    lemma_lines_of(q);
    lemma_lines_of(p + y);
    lemma_lines_of(q + y);
    let z = whole_lines(y).drop_last();
    assert((p + whole_lines(y)).drop_last() =~= p + z);
    assert((q + whole_lines(y)).drop_last() =~= q + z);
    let n = lead_len(y, CharClass::NotOne('\n')) as int;
    lemma_lead_len_facts(y, CharClass::NotOne('\n'));
    assert(whole_lines(y).last() == '\n');
    assert(y[z.len() as int] == '\n');
    assert(n <= z.len()) by {
        if n > z.len() {
            assert(in_class(y[z.len() as int], CharClass::NotOne('\n')));
        }
    }
    lemma_lines_of(z);
    lemma_lines_behind(p, z);
    lemma_lines_behind(q, z);
    if whole_lines(z).len() > 0 {
        assert(n < z.len()) by {
            if n == z.len() {
                let k = whole_lines(z).len() - 1;
                assert(z[k] == '\n');
                assert(in_class(y[k], CharClass::NotOne('\n')));
            }
        }
        assert forall|i: int| 0 <= i < n implies in_class(
            #[trigger] z[i],
            CharClass::NotOne('\n'),
        ) by {
            assert(z[i] == y[i]);
        }
        assert(z[n] == y[n]);
        lemma_lead_len(z, CharClass::NotOne('\n'), n);
        assert(first_line(z) =~= first_line(y));
        lemma_new_line(p, q, z);
    } else {
        assert(z == open_line(z));
        assert(n == z.len()) by {
            if n < z.len() {
                assert(z[n] == y[n]);
                assert(in_class(z[n], CharClass::NotOne('\n')));
            }
        }
        assert(first_line(y) =~= z);
        let none = Seq::<char>::empty();
        assert(none + z =~= z);
        assert(open_line(p).last() == '/');
        assert(open_line(q).last() == '/');
        lemma_spliced_tail(none, open_line(p), z);
        lemma_spliced_tail(none, open_line(q), z);
    }
}

/// The block that opens at `i` is passed over: a line comment could have swallowed
/// it, or it is part of a directive.
pub open spec fn passed_over(src: Seq<char>, i: int) -> bool {
    swallowed(encode_utf8(src), i) || in_directive(src, i)
}

/// Whether a block is passed over is a matter of what stands in front.
pub proof fn lemma_passed(a: Seq<char>, r: Seq<char>)
    requires
        encode_utf8(r).len() > 0,
        encode_utf8(r)[0] == 47u8,
    ensures
        passed_over(a + r, encode_utf8(a).len() as int) == (lead_swallows(
            encode_utf8(open_line(a)),
        ) || ends_inside(a)),
{
    lemma_swallowed(a, r);
    lemma_inside_is(a, r);
}

/// The block comments of a source from `i` on that are not passed over.
pub open spec fn kept_from(src: Seq<char>, i: int) -> Seq<(int, int)>
    decreases encode_utf8(src).len() - i,
{
    let bytes = encode_utf8(src);
    if i < 0 || i >= bytes.len() {
        Seq::empty()
    } else if pair_at(bytes, i, 47, 42) {
        let c = closer_from(bytes, i + 2);
        if c < i + 2 || c + 1 >= bytes.len() {
            Seq::empty()
        } else if passed_over(src, i) {
            kept_from(src, c + 2)
        } else {
            seq![(i, c + 2)] + kept_from(src, c + 2)
        }
    } else if bytes[i] == 34 {
        let e = string_end(bytes, i + 1);
        if e <= i || e > bytes.len() {
            Seq::empty()
        } else {
            kept_from(src, e)
        }
    } else {
        kept_from(src, i + 1)
    }
}

/// The comment that a block is.
pub open spec fn block_comment(src: Seq<char>, b: (int, int)) -> CommentText {
    comment_at(src, b.0, b.1, Language::Asm, None, None)
}

proof fn lemma_collected_front(x: (int, int), rest: Seq<(int, int)>, n: int, src: Seq<char>)
    requires
        0 <= n <= rest.len(),
    ensures
        assembly_collected(seq![x] + rest, n + 1, src) == (if in_directive(src, x.0) {
            Seq::empty()
        } else {
            seq![block_comment(src, x)]
        }) + assembly_collected(rest, n, src),
    decreases n,
{
    let all = seq![x] + rest;
    let head = if in_directive(src, x.0) {
        Seq::<CommentText>::empty()
    } else {
        seq![block_comment(src, x)]
    };
    if n > 0 {
        lemma_collected_front(x, rest, n - 1, src);
        assert(all[n] == rest[n - 1]);
        let before = assembly_collected(rest, n - 1, src);
        assert(head + before.push(block_comment(src, rest[n - 1])) =~= (head + before).push(
            block_comment(src, rest[n - 1]),
        ));
    } else {
        assert(all[0] == x);
        assert(assembly_collected(all, 0, src) =~= Seq::empty());
        assert(assembly_collected(rest, 0, src) =~= Seq::empty());
        assert(assembly_collected(all, 1, src) =~= head + assembly_collected(rest, 0, src));
    }
}

/// The comments that are collected are the blocks that are kept.
pub proof fn lemma_kept_collected(src: Seq<char>, i: int)
    ensures
        ({
            let blocks = blocks_from(encode_utf8(src), i);
            let kept = kept_from(src, i);
            assembly_collected(blocks, blocks.len() as int, src) == Seq::new(
                kept.len(),
                |k: int| block_comment(src, kept[k]),
            )
        }),
    decreases encode_utf8(src).len() - i,
{
    let bytes = encode_utf8(src);
    let blocks = blocks_from(bytes, i);
    let kept = kept_from(src, i);
    let want = Seq::new(kept.len(), |k: int| block_comment(src, kept[k]));
    if i < 0 || i >= bytes.len() {
        assert(assembly_collected(blocks, 0, src) =~= want);
    } else if pair_at(bytes, i, 47, 42) {
        let c = closer_from(bytes, i + 2);
        if c < i + 2 || c + 1 >= bytes.len() {
            assert(assembly_collected(blocks, 0, src) =~= want);
        } else {
            lemma_kept_collected(src, c + 2);
            if !swallowed(bytes, i) {
                let rest = blocks_from(bytes, c + 2);
                lemma_collected_front((i, c + 2), rest, rest.len() as int, src);
                assert(assembly_collected(blocks, blocks.len() as int, src) =~= want);
            }
        }
    } else if bytes[i] == 34 {
        let e = string_end(bytes, i + 1);
        if e <= i || e > bytes.len() {
            assert(assembly_collected(blocks, 0, src) =~= want);
        } else {
            lemma_kept_collected(src, e);
        }
    } else {
        lemma_kept_collected(src, i + 1);
    }
}

/// The first block that is kept.
pub proof fn lemma_first_kept(src: Seq<char>, i: int)
    requires
        0 <= i,
        kept_from(src, i).len() > 0,
    ensures
        ({
            let bytes = encode_utf8(src);
            let k = kept_from(src, i);
            let s = k[0].0;
            let e = k[0].1;
            &&& i <= s && s + 4 <= e <= bytes.len()
            &&& pair_at(bytes, s, 47, 42)
            &&& pair_at(bytes, e - 2, 42, 47)
            &&& closer_from(bytes, s + 2) == e - 2
            &&& !passed_over(src, s)
            &&& k.skip(1) == kept_from(src, e)
            &&& kept_from(src, s) == k
        }),
    decreases encode_utf8(src).len() - i,
{
    let bytes = encode_utf8(src);
    let k = kept_from(src, i);
    if pair_at(bytes, i, 47, 42) {
        let c = closer_from(bytes, i + 2);
        crate::assembly::lemma_closer(bytes, i + 2);
        if passed_over(src, i) {
            lemma_first_kept(src, c + 2);
        } else {
            assert(k.skip(1) =~= kept_from(src, c + 2));
        }
    } else if bytes[i] == 34 {
        lemma_first_kept(src, string_end(bytes, i + 1));
    } else {
        lemma_first_kept(src, i + 1);
    }
}

/// Block `n` of those that are kept.
pub proof fn lemma_nth_kept(src: Seq<char>, i: int, n: int)
    requires
        0 <= i,
        0 <= n < kept_from(src, i).len(),
    ensures
        ({
            let bytes = encode_utf8(src);
            let k = kept_from(src, i);
            let s = k[n].0;
            let e = k[n].1;
            &&& i <= s && s + 4 <= e <= bytes.len()
            &&& pair_at(bytes, s, 47, 42)
            &&& pair_at(bytes, e - 2, 42, 47)
            &&& closer_from(bytes, s + 2) == e - 2
            &&& !passed_over(src, s)
            &&& k.skip(n + 1) == kept_from(src, e)
            &&& n > 0 ==> k[n - 1].1 <= s
        }),
    decreases n,
{
    let k = kept_from(src, i);
    lemma_first_kept(src, i);
    if n > 0 {
        let rest = kept_from(src, k[0].1);
        assert(rest =~= k.skip(1));
        lemma_nth_kept(src, k[0].1, n - 1);
        assert(rest[n - 1] == k[n]);
        assert(rest.skip(n) =~= k.skip(n + 1));
        if n > 1 {
            assert(rest[n - 2] == k[n - 1]);
        }
    }
}

/// No closer stands ahead of the first one.
proof fn lemma_closer_first(b: Seq<u8>, i: int, k: int)
    requires
        0 <= i <= k < closer_from(b, i),
        k < b.len(),
    ensures
        !pair_at(b, k, 42, 47),
    decreases b.len() - i,
{
    if i < b.len() && !pair_at(b, i, 42, 47) && i < k {
        lemma_closer_first(b, i + 1, k);
    }
}

/// Where a string literal ends.
proof fn lemma_string_ends(b: Seq<u8>, i: int)
    requires
        0 <= i <= b.len(),
    ensures
        ({
            let e = string_end(b, i);
            &&& i <= e <= b.len()
            &&& e == b.len() || (e > i && b[e - 1] == 34) || b[e] == 10
        }),
    decreases b.len() - i,
{
    if i < b.len() && b[i] != 34 && b[i] != 10 {
        if b[i] == 92 && i + 1 < b.len() && b[i + 1] != 10 {
            lemma_string_ends(b, i + 2);
        } else {
            lemma_string_ends(b, i + 1);
        }
    }
}

/// A string literal ends where it does, behind another front.
#[verifier::spinoff_prover]
proof fn lemma_string_again(b: Seq<u8>, d: Seq<u8>, shift: int, i: int, m: int)
    requires
        0 <= i <= m <= b.len(),
        0 <= i + shift,
        m + shift <= d.len(),
        forall|k: int| i <= k < m ==> b[k] == #[trigger] d[k + shift],
        string_end(b, i) <= m,
        string_end(b, i) < m || (i < m < b.len() && b[m] != 10) || (m == b.len() && m + shift
            == d.len()),
    ensures
        string_end(d, i + shift) == string_end(b, i) + shift,
    decreases m - i,
{
    let e = string_end(b, i);
    lemma_string_ends(b, i);
    if i < m {
        assert(b[i] == d[i + shift]);
        if b[i] == 34 || b[i] == 10 {
        } else {
            lemma_string_ends(b, i + 1);
            if i + 1 < m {
                assert(b[i + 1] == d[i + 1 + shift]);
                if b[i] == 92 && b[i + 1] != 10 {
                    lemma_string_ends(b, i + 2);
                    assert(i + 2 == m && m < b.len() ==> e == string_end(b, m));
                    lemma_string_again(b, d, shift, i + 2, m);
                } else {
                    lemma_string_again(b, d, shift, i + 1, m);
                }
            } else {
                if m < b.len() {
                    lemma_string_ends(b, m + 1);
                    if m + 1 < b.len() {
                        lemma_string_ends(b, m + 2);
                    }
                    assert(e == m);
                    assert(string_end(b, m) > m);
                } else {
                    lemma_string_again(b, d, shift, i + 1, m);
                }
            }
        }
    }
}

/// The scan passes over a gap as it did behind another front. `x` is the gap, `w`
/// is how many blanks follow it ahead of the next block that is kept.
#[verifier::spinoff_prover]
#[verifier::rlimit(80)]
pub proof fn lemma_gap_again(
    v: Seq<char>,
    u: Seq<char>,
    x: Seq<char>,
    r: Seq<char>,
    q: Seq<char>,
    w: int,
    i: int,
)
    requires
        gap_reads_alike(v, u, x, r, q),
        0 <= i <= encode_utf8(x).len(),
        next_kept(v, x, r, w, i) || (r.len() == 0 && q.len() == 0 && kept_from(
            v + x + r,
            encode_utf8(v).len() + i,
        ).len() == 0),
    ensures
        kept_from(u + x + q, encode_utf8(u).len() + i) == kept_from(
            u + x + q,
            (encode_utf8(u).len() + encode_utf8(x).len()) as int,
        ),
    decreases encode_utf8(x).len() - i,
{
    let s = v + x + r;
    let o = u + x + q;
    let b = encode_utf8(s);
    let d = encode_utf8(o);
    let bx = encode_utf8(x);
    let nv = encode_utf8(v).len() as int;
    let nu = encode_utf8(u).len() as int;
    let m = nv + bx.len();
    let shift = nu - nv;
    lemma_three(v, x, r);
    lemma_three(u, x, q);
    let at = nv + i;
    if i < bx.len() {
        assert forall|k: int| nv <= k < m implies b[k] == #[trigger] d[k + shift] by {
            assert(b[k] == bx[k - nv]);
            assert(d[k + shift] == bx[k - nv]);
        }
        assert(b[at] == d[at + shift]);
        assert(pair_at(b, at, 47, 42) == pair_at(d, at + shift, 47, 42)) by {
            if i + 1 < bx.len() {
                assert(b[at + 1] == d[at + 1 + shift]);
            }
        }
        if pair_at(b, at, 47, 42) {
            let c = closer_from(b, at + 2);
            crate::assembly::lemma_closer(b, at + 2);
            if c + 1 < b.len() {
                if passed_over(s, at) {
                    if next_kept(v, x, r, w, i) {
                        lemma_first_kept(s, c + 2);
                    }
                    assert(c + 2 <= m);
                    assert forall|k: int| at + 2 + shift <= k < c + shift implies !#[trigger] pair_at(
                        d,
                        k,
                        42,
                        47,
                    ) by {
                        lemma_closer_first(b, at + 2, k - shift);
                        assert(b[k - shift] == d[k - shift + shift]);
                        assert(b[k - shift + 1] == d[k - shift + 1 + shift]);
                    }
                    assert(b[c] == d[c + shift] && b[c + 1] == d[c + 1 + shift]);
                    lemma_closer_is(d, at + 2 + shift, c + shift);
                    assert(passed_over(o, at + shift));
                    lemma_gap_again(v, u, x, r, q, w, c + 2 - nv);
                }
            } else {
                assert(kept_from(s, at).len() == 0);
                let c2 = closer_from(d, at + 2 + shift);
                crate::assembly::lemma_closer(d, at + 2 + shift);
                if c2 + 1 < d.len() {
                    assert(b[c2 - shift] == d[c2 - shift + shift]);
                    assert(b[c2 - shift + 1] == d[c2 - shift + 1 + shift]);
                    lemma_closer_first(b, at + 2, c2 - shift);
                }
            }
        } else if b[at] == 34 {
            let e = string_end(b, at + 1);
            lemma_string_ends(b, at + 1);
            if next_kept(v, x, r, w, i) {
                lemma_first_kept(s, e);
                if e == m && w == 0 {
                    assert(b[m] == 47);
                }
                if e == m && w > 0 {
                    assert(b[m - 1] == bx.last());
                    assert(b[m - 1] == 10);
                    lemma_string_line(b, at + 1, m - 1);
                }
            }
            assert(e <= m);
            lemma_string_again(b, d, shift, at + 1, m);
            lemma_gap_again(v, u, x, r, q, w, e - nv);
        } else {
            lemma_gap_again(v, u, x, r, q, w, i + 1);
        }
    }
}

/// A string literal does not go on behind its line.
proof fn lemma_string_line(b: Seq<u8>, i: int, k: int)
    requires
        0 <= i <= k < b.len(),
        b[k] == 10,
    ensures
        string_end(b, i) <= k,
    decreases k - i,
{
    if b[i] != 34 && b[i] != 10 {
        if b[i] == 92 && b[i + 1] != 10 {
            lemma_string_line(b, i + 2, k);
        } else {
            lemma_string_line(b, i + 1, k);
        }
    } else if b[i] == 34 {
        assert(i < k);
    }
}

/// The bytes of three texts in a row.
pub proof fn lemma_three(a: Seq<char>, x: Seq<char>, r: Seq<char>)
    ensures
        encode_utf8(a + x + r) == encode_utf8(a) + encode_utf8(x) + encode_utf8(r),
{
    lemma_encode_concat(a, x);
    lemma_encode_concat(a + x, r);
}

/// The gap `x` reads alike behind two fronts: the blocks in it are passed over
/// behind both or behind none, and nothing opens at its end.
pub open spec fn gap_reads_alike(
    v: Seq<char>,
    u: Seq<char>,
    x: Seq<char>,
    r: Seq<char>,
    q: Seq<char>,
) -> bool {
    let nv = encode_utf8(v).len() as int;
    let nu = encode_utf8(u).len() as int;
    &&& encode_utf8(r).len() > 0 ==> encode_utf8(r)[0] != 42
    &&& encode_utf8(q).len() > 0 ==> encode_utf8(q)[0] != 42
    &&& forall|k: int|
        0 <= k < encode_utf8(x).len() && pair_at(encode_utf8(v + x + r), nv + k, 47, 42)
            ==> #[trigger] passed_over(v + x + r, nv + k) == passed_over(u + x + q, nu + k)
}

/// From `i` in the gap on, the next block that is kept is the one behind the gap and
/// `w` blanks.
pub open spec fn next_kept(v: Seq<char>, x: Seq<char>, r: Seq<char>, w: int, i: int) -> bool {
    let b = encode_utf8(v + x + r);
    let nv = encode_utf8(v).len() as int;
    let bx = encode_utf8(x);
    let at = nv + bx.len() + w;
    &&& 0 <= w <= encode_utf8(r).len()
    &&& kept_from(v + x + r, nv + i).len() > 0
    &&& kept_from(v + x + r, nv + i)[0].0 == at
    &&& forall|k: int| nv + bx.len() <= k < at ==> (#[trigger] b[k] == 32 || b[k] == 9)
    &&& w > 0 ==> bx.len() == 0 || bx.last() == 10
}

} // verus!
