//! The lines in front of a place in a source.

use crate::bytes::{lemma_encode_concat, line_start, span};
use crate::placement::lemma_span_middle;
use crate::text::{all_in, in_class, lemma_trail_len, lemma_trail_len_facts, trail_len, CharClass};
use vstd::prelude::*;
use vstd::utf8::{encode_scalar, encode_utf8};

verus! {

/// What stands on the last line of a text.
pub open spec fn open_line(a: Seq<char>) -> Seq<char> {
    a.skip(a.len() - trail_len(a, CharClass::NotOne('\n')))
}

/// The whole lines of a text, without the one that it leaves open.
pub open spec fn whole_lines(a: Seq<char>) -> Seq<char> {
    a.take(a.len() - trail_len(a, CharClass::NotOne('\n')))
}

pub proof fn lemma_lines_of(a: Seq<char>)
    ensures
        a == whole_lines(a) + open_line(a),
        all_in(open_line(a), CharClass::NotOne('\n')),
        whole_lines(a).len() > 0 ==> whole_lines(a).last() == '\n',
        (open_line(a).len() == 0) == (a.len() == 0 || a.last() == '\n'),
{
    lemma_trail_len_facts(a, CharClass::NotOne('\n'));
    let n = trail_len(a, CharClass::NotOne('\n')) as int;
    assert(a =~= whole_lines(a) + open_line(a));
    let w = open_line(a);
    assert forall|i: int| 0 <= i < w.len() implies in_class(
        #[trigger] w[i],
        CharClass::NotOne('\n'),
    ) by {
        assert(w[i] == a[a.len() - n + i]);
    }
}

/// A text that ends in a line feed and then has no other one.
pub proof fn lemma_lines_are(h: Seq<char>, w: Seq<char>)
    requires
        h.len() > 0 ==> h.last() == '\n',
        all_in(w, CharClass::NotOne('\n')),
    ensures
        whole_lines(h + w) == h,
        open_line(h + w) == w,
{
    let a = h + w;
    let n = w.len() as int;
    assert forall|i: int| a.len() - n <= i < a.len() implies in_class(
        #[trigger] a[i],
        CharClass::NotOne('\n'),
    ) by {
        assert(a[i] == w[i - h.len()]);
    }
    if h.len() > 0 {
        assert(a[a.len() - n - 1] == h.last());
    }
    lemma_trail_len(a, CharClass::NotOne('\n'), n);
    assert(whole_lines(a) =~= h);
    assert(open_line(a) =~= w);
}

/// No byte of another character is a line feed.
proof fn lemma_no_line_feed(s: Seq<char>)
    requires
        all_in(s, CharClass::NotOne('\n')),
    ensures
        forall|i: int| 0 <= i < encode_utf8(s).len() ==> #[trigger] encode_utf8(s)[i] != 10u8,
    decreases s.len(),
{
    if s.len() > 0 {
        let c = s[0];
        assert(in_class(s[0], CharClass::NotOne('\n')));
        let rest = s.drop_first();
        assert forall|i: int| 0 <= i < rest.len() implies in_class(
            #[trigger] rest[i],
            CharClass::NotOne('\n'),
        ) by {
            assert(rest[i] == s[i + 1]);
        }
        lemma_no_line_feed(rest);
        let first = encode_scalar(c as u32);
        lemma_scalar_bytes(c);
        let all = encode_utf8(s);
        assert(all == first + encode_utf8(rest));
        assert forall|i: int| 0 <= i < all.len() implies #[trigger] all[i] != 10u8 by {
            if i < first.len() {
                assert(all[i] == first[i]);
            } else {
                assert(all[i] == encode_utf8(rest)[i - first.len()]);
            }
        }
    }
}

proof fn lemma_scalar_bytes(c: char)
    requires
        c != '\n',
    ensures
        forall|i: int|
            0 <= i < encode_scalar(c as u32).len() ==> #[trigger] encode_scalar(c as u32)[i]
                != 10u8,
{
    lemma_scalar_one(c as u32);
    lemma_scalar_more(c as u32);
}

proof fn lemma_scalar_one(c: u32)
    by (bit_vector)
    requires
        c != 10u32,
    ensures
        c <= 0x7fu32 ==> (c & 0x7fu32) as u8 != 10u8,
{
}

proof fn lemma_scalar_more(c: u32)
    by (bit_vector)
    ensures
        0xC0u8 | ((c >> 6u32) & 0x1Fu32) as u8 != 10u8,
        0xE0u8 | ((c >> 12u32) & 0x0Fu32) as u8 != 10u8,
        0xF0u8 | ((c >> 18u32) & 0x07u32) as u8 != 10u8,
        0x80u8 | (c & 0x3Fu32) as u8 != 10u8,
        0x80u8 | ((c >> 6u32) & 0x3Fu32) as u8 != 10u8,
        0x80u8 | ((c >> 12u32) & 0x3Fu32) as u8 != 10u8,
{
}

/// A line starts behind the last line feed.
proof fn lemma_line_start_is(bytes: Seq<u8>, end: int, s: int)
    requires
        0 <= s <= end <= bytes.len(),
        forall|i: int| s <= i < end ==> #[trigger] bytes[i] != 10u8,
        s > 0 ==> bytes[s - 1] == 10u8,
    ensures
        line_start(bytes, end) == s,
    decreases end - s,
{
    if end > s {
        lemma_line_start_is(bytes, end - 1, s);
    }
}

/// The line that a place is on starts behind the whole lines in front of it.
pub proof fn lemma_line_starts(a: Seq<char>, r: Seq<char>)
    ensures
        line_start(encode_utf8(a + r), encode_utf8(a).len() as int) == encode_utf8(
            whole_lines(a),
        ).len(),
        encode_utf8(a).len() == encode_utf8(whole_lines(a)).len() + encode_utf8(open_line(a)).len(),
{
    let h = whole_lines(a);
    let w = open_line(a);
    lemma_lines_of(a);
    lemma_encode_concat(h, w);
    lemma_encode_concat(a, r);
    lemma_no_line_feed(w);
    let bytes = encode_utf8(a + r);
    let s = encode_utf8(h).len() as int;
    let end = encode_utf8(a).len() as int;
    assert forall|i: int| s <= i < end implies #[trigger] bytes[i] != 10u8 by {
        assert(bytes[i] == encode_utf8(w)[i - s]);
    }
    if h.len() > 0 {
        let front = h.drop_last();
        let lf = seq!['\n'];
        assert(h =~= front + lf);
        lemma_encode_concat(front, lf);
        lemma_line_feed_byte();
        assert(bytes[s - 1] == encode_utf8(h)[s - 1]);
        assert(encode_utf8(h)[s - 1] == encode_utf8(lf)[0]);
    } else {
        assert(encode_utf8(h).len() == 0);
    }
    lemma_line_start_is(bytes, end, s);
}

pub proof fn lemma_line_feed_byte()
    ensures
        encode_utf8(seq!['\n']) == seq![10u8],
{
    let s = seq!['\n'];
    assert(s.drop_first().len() == 0);
    assert(encode_utf8(s.drop_first()).len() == 0);
    lemma_line_feed_scalar();
    assert(encode_utf8(s) =~= seq![10u8]);
}

proof fn lemma_line_feed_scalar()
    ensures
        encode_scalar(10u32) == seq![10u8],
{
    assert((10u32 & 0x7fu32) as u8 == 10u8) by (bit_vector);
}

/// The line above a place: `above` is what stands in front of it, `line` is the
/// line itself, and `a` what stands in front of the place.
pub proof fn lemma_line_above(a: Seq<char>, r: Seq<char>)
    requires
        whole_lines(a).len() > 0,
    ensures
        ({
            let bytes = encode_utf8(a + r);
            let h = whole_lines(a);
            let above = whole_lines(h.drop_last());
            let line = open_line(h.drop_last());
            let at = encode_utf8(h).len() as int;
            &&& at == line_start(bytes, encode_utf8(a).len() as int)
            &&& at > 0
            &&& encode_utf8(h.drop_last()).len() == at - 1
            &&& line_start(bytes, at - 1) == encode_utf8(above).len()
            &&& span(a + r, encode_utf8(above).len() as int, at) == line + seq!['\n']
            &&& span(a + r, encode_utf8(above).len() as int, at - 1) == line
            &&& h == above + line + seq!['\n']
        }),
{
    let h = whole_lines(a);
    let w = open_line(a);
    let front = h.drop_last();
    let lf = seq!['\n'];
    lemma_lines_of(a);
    lemma_lines_of(front);
    lemma_line_starts(a, r);
    assert(h =~= front + lf);
    lemma_encode_concat(front, lf);
    lemma_line_feed_byte();
    let rest = lf + w + r;
    assert(front + rest =~= a + r);
    lemma_line_starts(front, rest);
    let above = whole_lines(front);
    let line = open_line(front);
    assert(above + (line + lf) + (w + r) =~= a + r);
    lemma_span_middle(above, line + lf, w + r);
    lemma_encode_concat(line, lf);
    assert(above + line + (lf + w + r) =~= a + r);
    lemma_span_middle(above, line, lf + w + r);
    lemma_encode_concat(above, line);
}

/// The last byte of a text that does not end in a carriage return is none.
pub proof fn lemma_no_carriage_return(s: Seq<char>)
    requires
        s.len() > 0,
        s.last() != '\r',
    ensures
        encode_utf8(s).len() > 0,
        encode_utf8(s).last() != 13u8,
{
    let c = s.last();
    let one = seq![c];
    let front = s.drop_last();
    assert(s =~= front + one);
    lemma_encode_concat(front, one);
    assert(one.drop_first().len() == 0);
    assert(encode_utf8(one.drop_first()).len() == 0);
    assert(encode_utf8(one) =~= encode_scalar(c as u32));
    lemma_last_scalar(c);
    assert(encode_utf8(s).last() == encode_scalar(c as u32).last());
}

proof fn lemma_last_scalar(c: char)
    requires
        c != '\r',
    ensures
        encode_scalar(c as u32).len() > 0,
        encode_scalar(c as u32).last() != 13u8,
{
    lemma_scalar_return(c as u32);
}

proof fn lemma_scalar_return(c: u32)
    by (bit_vector)
    requires
        c != 13u32,
    ensures
        c <= 0x7fu32 ==> (c & 0x7fu32) as u8 != 13u8,
        0x80u8 | (c & 0x3Fu32) as u8 != 13u8,
{
}

} // verus!
