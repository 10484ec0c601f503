//! Text as UTF-8 bytes: positions in a source file are byte offsets.

use vstd::prelude::*;
use vstd::utf8::{
    decode_utf8, encode_scalar, encode_utf8, encode_utf8_decode_utf8, encode_utf8_first_scalar,
    encode_utf8_valid_utf8,
    is_char_boundary, is_char_boundary_iff_not_is_continuation_byte,
    is_char_boundary_start_end_of_seq, valid_utf8, valid_utf8_split,
};

verus! {

pub proof fn lemma_encode_concat(a: Seq<char>, b: Seq<char>)
    ensures
        encode_utf8(a + b) == encode_utf8(a) + encode_utf8(b),
    decreases a.len(),
{
    if a.len() == 0 {
        assert(a + b =~= b);
        assert(encode_utf8(a) + encode_utf8(b) =~= encode_utf8(b));
    } else {
        assert((a + b).drop_first() =~= a.drop_first() + b);
        lemma_encode_concat(a.drop_first(), b);
        assert(encode_utf8(a + b) =~= encode_utf8(a) + encode_utf8(b));
    }
}

pub proof fn lemma_encode_ascii_char(c: char)
    requires
        c <= '\u{7f}',
    ensures
        encode_utf8(seq![c]).len() == 1,
{
    assert(seq![c].drop_first().len() == 0);
    assert(encode_utf8(seq![c].drop_first()).len() == 0);
    assert(encode_scalar(c as u32).len() == 1);
}

/// Every character takes a byte at least.
pub proof fn lemma_encode_len(s: Seq<char>)
    ensures
        s.len() <= encode_utf8(s).len(),
    decreases s.len(),
{
    if s.len() > 0 {
        lemma_encode_len(s.drop_first());
    }
}

/// The end of an encoded text is a boundary in whatever it starts.
pub proof fn lemma_boundary_between(a: Seq<char>, b: Seq<char>)
    ensures
        is_char_boundary(encode_utf8(a + b), encode_utf8(a).len() as int),
{
    let all = encode_utf8(a + b);
    let n = encode_utf8(a).len() as int;
    lemma_encode_concat(a, b);
    encode_utf8_valid_utf8(a + b);
    is_char_boundary_start_end_of_seq(all);
    if b.len() > 0 {
        encode_utf8_first_scalar(b);
        lemma_encode_len(b);
        assert(all[n] == encode_utf8(b)[0]);
        is_char_boundary_iff_not_is_continuation_byte(all, n);
    }
}

/// The number of bytes that `c` takes in UTF-8.
fn char_bytes(c: char) -> (n: usize)
    ensures
        n == encode_scalar(c as u32).len(),
        1 <= n <= 4,
{
    if c <= '\u{7f}' {
        1
    } else if c <= '\u{7ff}' {
        2
    } else if c <= '\u{ffff}' {
        3
    } else {
        4
    }
}

proof fn lemma_encode_push(s: Seq<char>, c: char)
    ensures
        encode_utf8(s.push(c)).len() == encode_utf8(s).len() + encode_scalar(c as u32).len(),
{
    let one = seq![c];
    lemma_encode_concat(s, one);
    assert(s.push(c) =~= s + one);
    assert(one.drop_first().len() == 0);
    assert(encode_utf8(one.drop_first()).len() == 0);
    assert(encode_utf8(one) == encode_scalar(one[0] as u32) + encode_utf8(one.drop_first()));
}

/// The byte offset of character `n` of `s`.
pub fn char_offset(s: &str, n: usize) -> (r: usize)
    requires
        n <= s@.len(),
    ensures
        r == encode_utf8(s@.take(n as int)).len(),
        r <= encode_utf8(s@).len(),
{
    let whole: usize = s.as_bytes().len();
    if n == 0 {
        assert(s@.take(0) =~= Seq::<char>::empty());
        return 0;
    }
    let mut i: usize = 0;
    let mut at: usize = 0;
    assert(s@.take(0) =~= Seq::<char>::empty());
    for c in it: s.chars()
        invariant
            it.seq() == s@,
            i == it.index(),
            i < n <= s@.len(),
            whole == encode_utf8(s@).len(),
            at == encode_utf8(s@.take(i as int)).len(),
    {
        proof {
            let next = s@.take(i + 1);
            assert(next =~= s@.take(i as int).push(c));
            lemma_encode_push(s@.take(i as int), c);
            lemma_encode_concat(next, s@.skip(i + 1));
            assert(next + s@.skip(i + 1) =~= s@);
        }
        at = at + char_bytes(c);
        i = i + 1;
        if i == n {
            return at;
        }
    }
    at
}

/// `s` cut at character `n`.
pub fn split_chars_at<'a>(s: &'a str, n: usize) -> (r: (&'a str, &'a str))
    requires
        n <= s@.len(),
    ensures
        r.0@ == s@.take(n as int),
        r.1@ == s@.skip(n as int),
{
    let at: usize = char_offset(s, n);
    let ghost a = s@.take(n as int);
    let ghost b = s@.skip(n as int);
    proof {
        assert(a + b =~= s@);
        lemma_boundary_between(a, b);
        lemma_encode_concat(a, b);
    }
    let (head, tail) = s.split_at(at);
    proof {
        assert(encode_utf8(head@) =~= encode_utf8(a));
        assert(encode_utf8(tail@) =~= encode_utf8(b));
        encode_utf8_decode_utf8(head@);
        encode_utf8_decode_utf8(a);
        encode_utf8_decode_utf8(tail@);
        encode_utf8_decode_utf8(b);
    }
    (head, tail)
}

/// The number of bytes that `s` takes in UTF-8.
pub fn byte_len(s: &str) -> (n: usize)
    ensures
        n == encode_utf8(s@).len(),
{
    s.as_bytes().len()
}


/// Byte offset `i` lies between two characters of `src`, or at an end.
pub open spec fn at_boundary(src: Seq<char>, i: int) -> bool {
    is_char_boundary(encode_utf8(src), i)
}

/// `a` and `b` delimit a stretch of whole characters.
pub open spec fn span_ok(src: Seq<char>, a: int, b: int) -> bool {
    0 <= a <= b <= encode_utf8(src).len() && at_boundary(src, a) && at_boundary(src, b)
}

/// The text from byte offset `a` to before byte offset `b`.
pub open spec fn span(src: Seq<char>, a: int, b: int) -> Seq<char> {
    decode_utf8(encode_utf8(src).subrange(a, b))
}

pub proof fn lemma_source_ends(src: Seq<char>)
    ensures
        at_boundary(src, 0),
        at_boundary(src, encode_utf8(src).len() as int),
        valid_utf8(encode_utf8(src)),
{
    encode_utf8_valid_utf8(src);
    is_char_boundary_start_end_of_seq(encode_utf8(src));
}

/// An ASCII byte is a character of its own.
pub proof fn lemma_ascii_boundary(src: Seq<char>, i: int)
    requires
        0 <= i < encode_utf8(src).len(),
        encode_utf8(src)[i] <= 0x7f,
    ensures
        at_boundary(src, i),
        at_boundary(src, i + 1),
{
    let b = encode_utf8(src);
    lemma_source_ends(src);
    is_char_boundary_iff_not_is_continuation_byte(b, i);
    if i + 1 < b.len() {
        is_char_boundary_iff_not_is_continuation_byte(b, i + 1);
        if !at_boundary(src, i + 1) {
            valid_utf8_split(b, i);
            let tail = b.subrange(i, b.len() as int);
            reveal_with_fuel(is_char_boundary, 3);
            assert(is_char_boundary(tail, 1));
            is_char_boundary_iff_not_is_continuation_byte(tail, 1);
            assert(tail[1] == b[i + 1]);
        }
    }
}

/// Cutting text at byte offset `b` keeps the boundaries in front of it.
proof fn lemma_head_boundary(src: Seq<char>, a: int, b: int)
    requires
        span_ok(src, a, b),
    ensures
        valid_utf8(encode_utf8(src).subrange(0, b)),
        is_char_boundary(encode_utf8(src).subrange(0, b), a),
{
    let all = encode_utf8(src);
    let head = all.subrange(0, b);
    lemma_source_ends(src);
    valid_utf8_split(all, b);
    is_char_boundary_start_end_of_seq(head);
    if a < b {
        is_char_boundary_iff_not_is_continuation_byte(all, a);
        is_char_boundary_iff_not_is_continuation_byte(head, a);
    }
}

/// The bytes of a stretch of text are the source's bytes there.
pub proof fn lemma_span_bytes(src: Seq<char>, a: int, b: int)
    requires
        span_ok(src, a, b),
    ensures
        valid_utf8(encode_utf8(src).subrange(a, b)),
        encode_utf8(span(src, a, b)) == encode_utf8(src).subrange(a, b),
{
    let all = encode_utf8(src);
    let head = all.subrange(0, b);
    lemma_head_boundary(src, a, b);
    valid_utf8_split(head, a);
    assert(head.subrange(a, head.len() as int) =~= all.subrange(a, b));
    vstd::utf8::decode_utf8_encode_utf8(all.subrange(a, b));
}

/// The text from byte offset `a` to before byte offset `b`.
pub fn slice<'a>(source: &'a str, a: usize, b: usize) -> (r: &'a str)
    requires
        span_ok(source@, a as int, b as int),
    ensures
        r@ == span(source@, a as int, b as int),
{
    proof {
        lemma_head_boundary(source@, a as int, b as int);
    }
    let (head, _) = source.split_at(b);
    let (_, mid) = head.split_at(a);
    proof {
        let all = encode_utf8(source@);
        assert(encode_utf8(mid@) =~= all.subrange(a as int, b as int));
        encode_utf8_decode_utf8(mid@);
    }
    mid
}

/// Where the physical line starts that position `end` is on.
pub open spec fn line_start(bytes: Seq<u8>, end: int) -> int
    decreases end,
{
    if end <= 0 {
        0
    } else if bytes[end - 1] == 10u8 {
        end
    } else {
        line_start(bytes, end - 1)
    }
}

pub proof fn lemma_line_start(bytes: Seq<u8>, end: int)
    requires
        0 <= end <= bytes.len(),
    ensures
        0 <= line_start(bytes, end) <= end,
        line_start(bytes, end) > 0 ==> bytes[line_start(bytes, end) - 1] == 10u8,
        forall|i: int| line_start(bytes, end) <= i < end ==> #[trigger] bytes[i] != 10u8,
    decreases end,
{
    if end > 0 && bytes[end - 1] != 10u8 {
        lemma_line_start(bytes, end - 1);
    }
}

/// A line start lies between characters, and so does the end of the line
/// before.
pub proof fn lemma_line_start_boundary(src: Seq<char>, end: int)
    requires
        0 <= end <= encode_utf8(src).len(),
    ensures
        at_boundary(src, line_start(encode_utf8(src), end)),
        line_start(encode_utf8(src), end) > 0 ==> at_boundary(
            src,
            line_start(encode_utf8(src), end) - 1,
        ),
{
    let b = encode_utf8(src);
    lemma_line_start(b, end);
    lemma_source_ends(src);
    if line_start(b, end) > 0 {
        lemma_ascii_boundary(src, line_start(b, end) - 1);
    }
}

/// The start of the physical line that byte offset `end` is on: just past the
/// line feed before it, or the start of the source.
pub fn line_start_before(source: &str, end: usize) -> (r: usize)
    requires
        end <= encode_utf8(source@).len(),
    ensures
        r == line_start(encode_utf8(source@), end as int),
        r <= end,
{
    let bytes = source.as_bytes();
    let mut i: usize = end;
    while i > 0 && bytes[i - 1] != 10u8
        invariant
            i <= end <= bytes@.len(),
            bytes@ == encode_utf8(source@),
            line_start(bytes@, end as int) == line_start(bytes@, i as int),
        decreases i,
    {
        i = i - 1;
    }
    i
}

} // verus!
