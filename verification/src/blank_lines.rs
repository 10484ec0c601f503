//! No blank line is missing in the source that a run leaves.

use crate::assembly::line_comment_line;
use crate::bytes::{lemma_encode_concat, span};
use crate::classify::Style;
use crate::comment::CommentText;
use crate::directive::spliced;
use crate::language::Language;
use crate::lines_before::{
    lemma_line_above, lemma_line_starts, lemma_lines_are, lemma_lines_of, open_line, whole_lines,
};
use crate::placement::lemma_span_middle;
use crate::planner::{directive_line, keeps_flush, needs_blank, opens_hash_scope};
use crate::text::{all_in, leads_with, trimmed, trimmed_start, CharClass};
use vstd::prelude::*;
use vstd::utf8::encode_utf8;

verus! {

/// What stands in front of the line above.
pub open spec fn above_of(a: Seq<char>) -> Seq<char> {
    whole_lines(whole_lines(a).drop_last())
}

/// The line above.
pub open spec fn line_of(a: Seq<char>) -> Seq<char> {
    open_line(whole_lines(a).drop_last())
}

/// The line above is tied to the one above it by a backslash.
pub open spec fn tied_above(a: Seq<char>) -> bool {
    above_of(a).len() > 0 && spliced(line_of(above_of(a)))
}

/// The directive line is the line above itself, where no backslash ties it.
pub proof fn lemma_untied(a: Seq<char>, r: Seq<char>)
    requires
        whole_lines(a).len() > 0,
        !tied_above(a),
    ensures
        ({
            let start = encode_utf8(above_of(a)).len() as int;
            let end = encode_utf8(whole_lines(a)).len() - 1;
            directive_line(a + r, start, end) == (start, end)
        }),
{
    let h = whole_lines(a);
    let above = above_of(a);
    lemma_line_above(a, r);
    lemma_lines_of(a);
    lemma_lines_of(h.drop_last());
    if above.len() > 0 {
        let none = Seq::<char>::empty();
        assert(all_in(none, CharClass::NotOne('\n')));
        lemma_lines_are(above, none);
        assert(above + none =~= above);
        let rest = line_of(a) + seq!['\n'] + open_line(a) + r;
        assert(above + rest =~= a + r);
        lemma_line_above(above, rest);
    } else {
        assert(encode_utf8(above).len() == 0);
    }
}

/// The first of the lines that backslashes tie to the last line of a text.
pub open spec fn top_line(p: Seq<char>) -> Seq<char>
    decreases p.len(),
{
    let h = whole_lines(p);
    if 0 < h.len() <= p.len() && spliced(line_of(p)) {
        top_line(h.drop_last())
    } else {
        open_line(p)
    }
}

/// The directive line is the first of those that are tied to the line above.
proof fn lemma_top_is(a: Seq<char>, r: Seq<char>)
    requires
        whole_lines(a).len() > 0,
    ensures
        ({
            let dl = directive_line(
                a + r,
                encode_utf8(above_of(a)).len() as int,
                encode_utf8(whole_lines(a)).len() - 1,
            );
            span(a + r, dl.0, dl.1) == top_line(whole_lines(a).drop_last())
        }),
    decreases a.len(),
{
    let h = whole_lines(a);
    let g = h.drop_last();
    let above = above_of(a);
    lemma_line_above(a, r);
    lemma_lines_of(a);
    lemma_lines_of(g);
    if above.len() > 0 {
        let none = Seq::<char>::empty();
        assert(all_in(none, CharClass::NotOne('\n')));
        lemma_lines_are(above, none);
        assert(above + none =~= above);
        let rest = line_of(a) + seq!['\n'] + open_line(a) + r;
        assert(above + rest =~= a + r);
        lemma_line_above(above, rest);
        lemma_top_is(above, rest);
        lemma_shorter(above);
        assert(line_of(g) == line_of(above));
    } else {
        assert(encode_utf8(above).len() == 0);
    }
}

/// The lines that are tied to the last line of the text all start in it.
pub open spec fn stays_in(y: Seq<char>) -> bool
    decreases y.len(),
{
    let h = whole_lines(y);
    &&& 0 < h.len() <= y.len()
    &&& !spliced(open_line(h.drop_last())) || stays_in(h.drop_last())
}

/// Lines that start in a text are tied alike behind two blocks.
proof fn lemma_top_inside(p: Seq<char>, q: Seq<char>, y: Seq<char>)
    requires
        stays_in(y),
        p.len() > 0 && p.last() == '/',
        q.len() > 0 && q.last() == '/',
    ensures
        top_line(p + y) == top_line(q + y),
    decreases y.len(),
{
    let h = whole_lines(y);
    let z = h.drop_last();
    lemma_lines_of(y);
    lemma_lines_of(z);
    lemma_lines_behind(p, y);
    lemma_lines_behind(q, y);
    lemma_lines_of(p + y);
    lemma_lines_of(q + y);
    assert((p + h).drop_last() =~= p + z);
    assert((q + h).drop_last() =~= q + z);
    lemma_lines_behind(p, z);
    lemma_lines_behind(q, z);
    if whole_lines(z).len() > 0 {
        if spliced(open_line(z)) {
            lemma_top_inside(p, q, z);
        }
    } else {
        let none = Seq::<char>::empty();
        assert(z == open_line(z));
        assert(none + z =~= z);
        assert(!stays_in(z));
        lemma_lines_of(p);
        lemma_lines_of(q);
        assert(open_line(p).last() == '/' && open_line(q).last() == '/');
        crate::assembly_scan::lemma_spliced_tail(none, open_line(p), z);
        crate::assembly_scan::lemma_spliced_tail(none, open_line(q), z);
    }
}

/// When a blank line is needed, by what stands in front of the comment and behind
/// it.
pub proof fn lemma_needs_blank(
    a: Seq<char>,
    t: Seq<char>,
    z: Seq<char>,
    d: CommentText,
    style: Style,
    multiline: bool,
    prev: Option<CommentText>,
    lang: Language,
)
    requires
        d.start_byte == encode_utf8(a).len(),
        d.end_byte == encode_utf8(a + t).len(),
        needs_blank(a + t + z, d, style, multiline, prev, lang),
    ensures
        whole_lines(a).len() > 0,
        !keeps_flush(trimmed(line_of(a) + seq!['\n'])),
        !tied_above(a) ==> !opens_hash_scope(line_of(a), encode_utf8(above_of(a)).len() == 0, lang),
        !opens_hash_scope(
            top_line(whole_lines(a).drop_last()),
            encode_utf8(above_of(a)).len() == 0,
            lang,
        ),
        prev is Some ==> !(prev->0.start_byte < encode_utf8(whole_lines(a)).len()
            && prev->0.end_byte > encode_utf8(above_of(a)).len()),
        !(lang == Language::Asm && line_comment_line(trimmed(line_of(a) + seq!['\n']))),
        !leads_with(trimmed_start(z), CharClass::One('{')),
        !d.is_trailing && multiline && (style == Style::Line || style == Style::Block),
{
    let s = a + t + z;
    let r = t + z;
    assert(a + r =~= s);
    lemma_line_starts(a, r);
    lemma_behind(a + t, z);
    if whole_lines(a).len() == 0 {
        assert(encode_utf8(whole_lines(a)).len() == 0);
    } else {
        lemma_line_above(a, r);
        lemma_top_is(a, r);
        if !tied_above(a) {
            lemma_untied(a, r);
        }
    }
}

/// The other way round.
pub proof fn lemma_blank_needed(
    a: Seq<char>,
    t: Seq<char>,
    z: Seq<char>,
    d: CommentText,
    style: Style,
    multiline: bool,
    prev: Option<CommentText>,
    lang: Language,
)
    requires
        d.start_byte == encode_utf8(a).len(),
        d.end_byte == encode_utf8(a + t).len(),
        !d.is_trailing && multiline && (style == Style::Line || style == Style::Block),
        whole_lines(a).len() > 0,
        !keeps_flush(trimmed(line_of(a) + seq!['\n'])),
        ({
            let dl = directive_line(
                a + t + z,
                encode_utf8(above_of(a)).len() as int,
                encode_utf8(whole_lines(a)).len() - 1,
            );
            !opens_hash_scope(
                span(a + t + z, dl.0, dl.1),
                encode_utf8(above_of(a)).len() == 0,
                lang,
            )
        }),
        prev is Some ==> !(prev->0.start_byte < encode_utf8(whole_lines(a)).len()
            && prev->0.end_byte > encode_utf8(above_of(a)).len()),
        !(lang == Language::Asm && line_comment_line(trimmed(line_of(a) + seq!['\n']))),
        !leads_with(trimmed_start(z), CharClass::One('{')),
    ensures
        needs_blank(a + t + z, d, style, multiline, prev, lang),
{
    let s = a + t + z;
    let r = t + z;
    assert(a + r =~= s);
    lemma_line_starts(a, r);
    lemma_behind(a + t, z);
    lemma_line_above(a, r);
}

proof fn lemma_behind(a: Seq<char>, z: Seq<char>)
    ensures
        span(a + z, encode_utf8(a).len() as int, encode_utf8(a + z).len() as int) == z,
{
    let none = Seq::<char>::empty();
    lemma_span_middle(a, z, none);
    assert(a + z + none =~= a + z);
    lemma_encode_concat(a, z);
}

/// The lines at the end of a text that ends in `x`.
pub proof fn lemma_lines_behind(p: Seq<char>, x: Seq<char>)
    ensures
        whole_lines(x).len() > 0 ==> whole_lines(p + x) == p + whole_lines(x) && open_line(p + x)
            == open_line(x),
        whole_lines(x).len() == 0 ==> whole_lines(p + x) == whole_lines(p) && open_line(p + x)
            == open_line(p) + x,
{
    lemma_lines_of(x);
    lemma_lines_of(p);
    let h = whole_lines(x);
    let w = open_line(x);
    if h.len() > 0 {
        assert(p + x =~= (p + h) + w);
        assert((p + h).last() == h.last());
        lemma_lines_are(p + h, w);
    } else {
        assert(x =~= w);
        let q = whole_lines(p);
        let v = open_line(p);
        assert(p + x =~= q + (v + x));
        let both = v + x;
        assert forall|i: int| 0 <= i < both.len() implies crate::text::in_class(
            #[trigger] both[i],
            CharClass::NotOne('\n'),
        ) by {
            if i < v.len() {
                assert(both[i] == v[i]);
            } else {
                assert(both[i] == x[i - v.len()]);
            }
        }
        lemma_lines_are(q, both);
    }
}

/// The line above, where it lies in `x` or starts ahead of it.
pub proof fn lemma_above_behind(p: Seq<char>, x: Seq<char>)
    requires
        whole_lines(x).len() > 0,
    ensures
        ({
            let y = whole_lines(x).drop_last();
            &&& whole_lines(y).len() > 0 ==> line_of(p + x) == line_of(x) && above_of(p + x) == p
                + above_of(x)
            &&& whole_lines(y).len() == 0 ==> line_of(p + x) == open_line(p) + y && above_of(p + x)
                == whole_lines(p)
        }),
{
    let y = whole_lines(x).drop_last();
    lemma_lines_behind(p, x);
    assert((p + whole_lines(x)).drop_last() =~= p + y);
    lemma_lines_behind(p, y);
}

/// No comment stands close above a line that ties to others: three line breaks
/// behind the comment ahead, or no comment ahead.
pub open spec fn deep(x: Seq<char>) -> bool {
    &&& whole_lines(x).len() > 0
    &&& above_of(x).len() > 0
    &&& whole_lines(above_of(x).drop_last()).len() > 0
}

proof fn lemma_tied_behind(p: Seq<char>, x: Seq<char>)
    requires
        deep(x),
    ensures
        tied_above(p + x) == tied_above(x),
{
    let y = whole_lines(x).drop_last();
    let above = above_of(x);
    lemma_lines_of(y);
    lemma_above_behind(p, x);
    lemma_lines_of(x);
    assert(above.last() == '\n');
    lemma_above_of_above(p, above);
}

proof fn lemma_above_of_above(p: Seq<char>, above: Seq<char>)
    requires
        above.len() > 0,
        above.last() == '\n',
        whole_lines(above.drop_last()).len() > 0,
    ensures
        line_of(p + above) == line_of(above),
{
    let none = Seq::<char>::empty();
    assert(all_in(none, CharClass::NotOne('\n')));
    lemma_lines_are(above, none);
    assert(above + none =~= above);
    lemma_above_behind(p, above);
}

/// Whether the line above a comment opens what the comment stands in is known to
/// stay as it is: that line does not, or the comment ahead ends on it, or it lies deep
/// enough below the comment ahead and is not tied to the one above it. In assembly,
/// where the comment ahead is a block, the lines that are tied to it need only start
/// below that block.
pub open spec fn hash_known(
    v: Seq<char>,
    x: Seq<char>,
    own: Seq<char>,
    zs: Seq<char>,
    lang: Language,
) -> bool {
    let dl = directive_line(
        v + x + own + zs,
        encode_utf8(above_of(v + x)).len() as int,
        encode_utf8(whole_lines(v + x)).len() - 1,
    );
    ||| whole_lines(v + x).len() == 0
    ||| v.len() == 0
    ||| v.last() != '\n' && whole_lines(x).len() > 0 && above_of(x).len() == 0
    ||| deep(x) && !tied_above(v + x)
    ||| lang == Language::Asm && v.last() == '/' && stays_in(whole_lines(x).drop_last())
    ||| !opens_hash_scope(
        span(v + x + own + zs, dl.0, dl.1),
        encode_utf8(above_of(v + x)).len() == 0,
        lang,
    )
}

/// What stands in front of a comment in a source and in the one that a run leaves:
/// `x`, behind `v` and `u`, which end in the same way.
pub open spec fn ends_alike(u: Seq<char>, v: Seq<char>) -> bool {
    &&& (u.len() == 0) == (v.len() == 0)
    &&& u.len() > 0 ==> (u.last() == '\n') == (v.last() == '\n')
}

/// A blank line that was not needed is not needed again: the lines above a comment
/// are the same, or end the comment ahead of it.
pub proof fn lemma_not_needed_again(
    v: Seq<char>,
    u: Seq<char>,
    x: Seq<char>,
    own: Seq<char>,
    t: Seq<char>,
    zs: Seq<char>,
    z: Seq<char>,
    c: CommentText,
    d: CommentText,
    style: Style,
    multiline: bool,
    o: Option<CommentText>,
    q: Option<CommentText>,
    lang: Language,
)
    requires
        ends_alike(u, v),
        c.start_byte == encode_utf8(v + x).len(),
        c.end_byte == encode_utf8(v + x + own).len(),
        d.start_byte == encode_utf8(u + x).len(),
        d.end_byte == encode_utf8(u + x + t).len(),
        d.is_trailing == c.is_trailing,
        (o is Some) == (v.len() > 0),
        (q is Some) == (u.len() > 0),
        o is Some ==> o->0.end_byte == encode_utf8(v).len() && o->0.start_byte < o->0.end_byte,
        q is Some ==> q->0.end_byte == encode_utf8(u).len() && q->0.start_byte < q->0.end_byte,
        !c.is_trailing && v.len() > 0 && v.last() != '\n' ==> whole_lines(x).len() > 0,
        hash_known(v, x, own, zs, lang),
        lang == Language::Asm && v.len() > 0 ==> u.last() == v.last(),
        leads_with(trimmed_start(zs), CharClass::One('{')) ==> leads_with(
            trimmed_start(z),
            CharClass::One('{'),
        ),
        !needs_blank(v + x + own + zs, c, style, multiline, o, lang),
    ensures
        !needs_blank(u + x + t + z, d, style, multiline, q, lang),
{
    if needs_blank(u + x + t + z, d, style, multiline, q, lang) {
        lemma_needs_blank(u + x, t, z, d, style, multiline, q, lang);
        lemma_lines_of(u);
        lemma_lines_of(v);
        lemma_encode_concat(u, x);
        lemma_encode_concat(v, x);
        lemma_same_above(v, u, x, c, d, o, q);
        let a = v + x;
        if !tied_above(a) {
            lemma_untied(a, own + zs);
            assert(a + (own + zs) =~= v + x + own + zs);
            lemma_line_above(a, own + zs);
        }
        if v.len() > 0 && deep(x) {
            lemma_tied_behind(u, x);
            lemma_tied_behind(v, x);
        }
        assert(a + (own + zs) =~= v + x + own + zs);
        lemma_top_is(a, own + zs);
        if v.len() == 0 {
            assert(u + x =~= x);
            assert(v + x =~= x);
        } else {
            let y = whole_lines(x).drop_last();
            lemma_lines_behind(u, x);
            lemma_lines_behind(v, x);
            assert((u + whole_lines(x)).drop_last() =~= u + y);
            assert((v + whole_lines(x)).drop_last() =~= v + y);
            if v.last() != '\n' && above_of(x).len() == 0 {
                lemma_above_behind(v, x);
                lemma_encode_concat(whole_lines(v), open_line(v));
                crate::bytes::lemma_encode_len(open_line(v));
            }
            if lang == Language::Asm && v.last() == '/' && stays_in(y) {
                lemma_top_inside(v, u, y);
            }
        }
        lemma_blank_needed(a, own, zs, c, style, multiline, o, lang);
    }
}

/// A blank line that was not needed is not needed again where the line above is part
/// of what stays, and a comment that ends on that line is still ahead.
pub proof fn lemma_not_needed_inside(
    v: Seq<char>,
    u: Seq<char>,
    x: Seq<char>,
    own: Seq<char>,
    t: Seq<char>,
    zs: Seq<char>,
    z: Seq<char>,
    c: CommentText,
    d: CommentText,
    style: Style,
    multiline: bool,
    o: Option<CommentText>,
    q: Option<CommentText>,
    lang: Language,
)
    requires
        v.len() == 0 && u.len() == 0 || whole_lines(x).len() > 0 && above_of(x).len() > 0
            && v.len() > 0 && u.len() > 0,
        c.start_byte == encode_utf8(v + x).len(),
        c.end_byte == encode_utf8(v + x + own).len(),
        d.start_byte == encode_utf8(u + x).len(),
        d.end_byte == encode_utf8(u + x + t).len(),
        d.is_trailing == c.is_trailing,
        ends_above(o, v + x) ==> ends_above(q, u + x),
        lang != Language::Asm,
        hash_known(v, x, own, zs, lang),
        leads_with(trimmed_start(zs), CharClass::One('{')) ==> leads_with(
            trimmed_start(z),
            CharClass::One('{'),
        ),
        !needs_blank(v + x + own + zs, c, style, multiline, o, lang),
    ensures
        !needs_blank(u + x + t + z, d, style, multiline, q, lang),
{
    if needs_blank(u + x + t + z, d, style, multiline, q, lang) {
        lemma_needs_blank(u + x, t, z, d, style, multiline, q, lang);
        let a = v + x;
        if v.len() == 0 {
            assert(u + x =~= x);
            assert(v + x =~= x);
        } else {
            lemma_lines_behind(u, x);
            lemma_lines_behind(v, x);
            lemma_lines_of(x);
            lemma_above_behind(u, x);
            lemma_above_behind(v, x);
            lemma_encode_concat(u, above_of(x));
            lemma_encode_concat(v, above_of(x));
            crate::bytes::lemma_encode_len(u);
            crate::bytes::lemma_encode_len(v);
        }
        if !tied_above(a) {
            lemma_untied(a, own + zs);
            assert(a + (own + zs) =~= v + x + own + zs);
            lemma_line_above(a, own + zs);
        }
        if v.len() > 0 && deep(x) {
            lemma_tied_behind(u, x);
            lemma_tied_behind(v, x);
        }
        assert(a + (own + zs) =~= v + x + own + zs);
        lemma_top_is(a, own + zs);
        lemma_blank_needed(a, own, zs, c, style, multiline, o, lang);
    }
}

/// The comment ends on the line above the end of the text.
pub open spec fn ends_above(o: Option<CommentText>, a: Seq<char>) -> bool {
    o is Some && o->0.start_byte < encode_utf8(whole_lines(a)).len() && o->0.end_byte
        > encode_utf8(above_of(a)).len()
}

/// Where a blank line would be needed in the new source, the line above is that of
/// the old one.
proof fn lemma_same_above(
    v: Seq<char>,
    u: Seq<char>,
    x: Seq<char>,
    c: CommentText,
    d: CommentText,
    o: Option<CommentText>,
    q: Option<CommentText>,
)
    requires
        ends_alike(u, v),
        d.is_trailing == c.is_trailing,
        !d.is_trailing,
        (o is Some) == (v.len() > 0),
        (q is Some) == (u.len() > 0),
        o is Some ==> o->0.end_byte == encode_utf8(v).len() && o->0.start_byte < o->0.end_byte,
        q is Some ==> q->0.end_byte == encode_utf8(u).len() && q->0.start_byte < q->0.end_byte,
        !c.is_trailing && v.len() > 0 && v.last() != '\n' ==> whole_lines(x).len() > 0,
        whole_lines(u + x).len() > 0,
        q is Some ==> !(q->0.start_byte < encode_utf8(whole_lines(u + x)).len() && q->0.end_byte
            > encode_utf8(above_of(u + x)).len()),
    ensures
        whole_lines(v + x).len() > 0,
        line_of(v + x) == line_of(u + x),
        (encode_utf8(above_of(v + x)).len() == 0) == (encode_utf8(above_of(u + x)).len() == 0),
        o is Some ==> o->0.end_byte <= encode_utf8(above_of(v + x)).len(),
        v.len() > 0 ==> whole_lines(x).len() > 0,
{
    if v.len() == 0 {
        assert(u + x =~= x);
        assert(v + x =~= x);
    } else {
        lemma_lines_of(u);
        lemma_lines_of(v);
        lemma_lines_of(x);
        crate::bytes::lemma_encode_len(u);
        crate::bytes::lemma_encode_len(v);
        lemma_lines_behind(u, x);
        lemma_lines_behind(v, x);
        if whole_lines(x).len() == 0 {
            // The comment ahead ends where this line starts.
            assert(u.last() == '\n');
            assert(open_line(u).len() == 0);
            assert(whole_lines(u) =~= u);
            let h = whole_lines(u + x);
            assert(h == u);
            lemma_lines_of(h.drop_last());
            lemma_shorter(h);
        } else {
            lemma_above_behind(u, x);
            lemma_above_behind(v, x);
            let y = whole_lines(x).drop_last();
            let h = whole_lines(u + x);
            lemma_encode_concat(u, whole_lines(x));
            crate::bytes::lemma_encode_len(whole_lines(x));
            if whole_lines(y).len() == 0 {
                lemma_encode_concat(whole_lines(u), open_line(u));
                crate::bytes::lemma_encode_len(open_line(u));
                assert(open_line(u).len() == 0);
                assert(open_line(v).len() == 0);
                assert(open_line(u) + y =~= y);
                assert(open_line(v) + y =~= y);
                assert(whole_lines(u) =~= u);
                assert(whole_lines(v) =~= v);
            } else {
                lemma_encode_concat(u, above_of(x));
                lemma_encode_concat(v, above_of(x));
            }
        }
    }
}

/// What stands in front of the last line of a text is shorter than the text.
proof fn lemma_shorter(h: Seq<char>)
    requires
        h.len() > 0,
    ensures
        encode_utf8(whole_lines(h.drop_last())).len() < encode_utf8(h).len(),
{
    let front = h.drop_last();
    let last = seq![h.last()];
    assert(h =~= front + last);
    lemma_encode_concat(front, last);
    crate::bytes::lemma_encode_len(last);
    lemma_lines_of(front);
    lemma_encode_concat(whole_lines(front), open_line(front));
}

/// Below a blank line none is needed.
pub proof fn lemma_flush(
    a: Seq<char>,
    t: Seq<char>,
    z: Seq<char>,
    d: CommentText,
    style: Style,
    multiline: bool,
    prev: Option<CommentText>,
    lang: Language,
)
    requires
        d.start_byte == encode_utf8(a).len(),
        d.end_byte == encode_utf8(a + t).len(),
        trimmed(line_of(a) + seq!['\n']).len() == 0,
    ensures
        !needs_blank(a + t + z, d, style, multiline, prev, lang),
{
    if needs_blank(a + t + z, d, style, multiline, prev, lang) {
        lemma_needs_blank(a, t, z, d, style, multiline, prev, lang);
    }
}

} // verus!
