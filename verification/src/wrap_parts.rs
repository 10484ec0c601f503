//! A part of a paragraph's lines wraps as it stands.

use crate::laws::{lemma_line_filled, lemma_line_filling, settled_line};
use crate::regroup::{lemma_part, lemma_reach, part_starts, part_words};
use crate::second_pass::reach;
use crate::text::{leads_with, CharClass};
use crate::textline::is_bookend;
use crate::words::all_words;
use crate::wrap::{
    can_peel, colon_pending, last_usable, law_lines_partition_words, lemma_last_usable,
    lemma_packed_valid, lemma_start_bounds, line_body, line_starts, line_text, lone_kdoc_name,
    pack_word, packed, room, settled, tag_start, takes_word, valid_starts, Packing,
};
use crate::wrap_laws::law_lines_read_well;
use vstd::prelude::*;

verus! {

/// The first words are packed the same whatever follows them.
proof fn lemma_packed_front(
    words: Seq<Seq<char>>,
    e: int,
    m: int,
    effective: nat,
    hang: nat,
)
    requires
        1 <= m <= e <= words.len(),
    ensures
        packed(words.subrange(0, e), m, effective, hang) == packed(words, m, effective, hang),
    decreases m,
{
    let sub = words.subrange(0, e);
    if m > 1 {
        lemma_packed_front(words, e, m - 1, effective, hang);
        let p = packed(words, m - 1, effective, hang);
        lemma_packed_valid(words, m - 1, effective, hang);
        let i = m - 1;
        lemma_start_bounds(p.starts, i, p.starts.len() - 1);
        lemma_pack_same(words, sub, p, p, i, 0, effective, hang);
    }
}

/// A stretch of a stretch.
proof fn lemma_line_text_part(words: Seq<Seq<char>>, s: int, e: int, a: int, b: int)
    requires
        0 <= s <= e <= words.len(),
        0 <= a <= b <= e - s,
    ensures
        line_text(words.subrange(s, e), a, b) == line_text(words, s + a, s + b),
{
    assert(words.subrange(s, e).subrange(a, b) =~= words.subrange(s + a, s + b));
}

/// The packing of a part is that of the whole, moved.
spec fn moved(whole: Packing, part: Packing, s: int) -> bool {
    &&& whole.width == part.width
    &&& whole.starts.len() >= part.starts.len() > 0
    &&& whole.starts.last() == s + part.starts.last()
}

/// A word is packed behind a part as it is behind the whole.
proof fn lemma_pack_same(
    words: Seq<Seq<char>>,
    sub: Seq<Seq<char>>,
    p: Packing,
    q: Packing,
    i: int,
    s: int,
    effective: nat,
    hang: nat,
)
    requires
        0 <= s,
        exists|e: int| s <= e <= words.len() && sub == #[trigger] words.subrange(s, e),
        moved(p, q, s),
        0 <= q.starts.last() < i < sub.len(),
        q.starts.len() == p.starts.len() || hang == 0,
        colon_pending(sub, q, i) ==> (q.starts.len() == 1) == (p.starts.len() == 1),
    ensures
        ({
            let a = pack_word(words, p, s + i, effective, hang);
            let b = pack_word(sub, q, i, effective, hang);
            &&& a.width == b.width
            &&& a.starts == p.starts && b.starts == q.starts || exists|k: int|
                a.starts == p.starts.push(s + k) && b.starts == #[trigger] q.starts.push(k)
        }),
{
    let e = choose|e: int| s <= e <= words.len() && sub == #[trigger] words.subrange(s, e);
    let start = q.starts.last();
    assert(sub[i] == words[s + i]);
    assert(sub[i - 1] == words[s + i - 1]);
    lemma_line_text_part(words, s, e, start, i);
    lemma_line_text_part(words, s, e, start, i - 1);
    lemma_line_text_part(words, s, e, i - 1, i + 1);
    assert(colon_pending(sub, q, i) == colon_pending(words, p, s + i));
    assert(room(p.starts.len(), effective, hang) == room(q.starts.len(), effective, hang));
    assert(takes_word(sub, q, i, effective, hang) == takes_word(
        words,
        p,
        s + i,
        effective,
        hang,
    ));
    assert(can_peel(sub, q, i) == can_peel(words, p, s + i));
    let a = pack_word(words, p, s + i, effective, hang);
    let b = pack_word(sub, q, i, effective, hang);
    if b.starts == q.starts.push(i) && a.starts == p.starts.push(s + i) {
    } else if b.starts == q.starts.push(i - 1) {
        assert(a.starts == p.starts.push(s + (i - 1)));
    }
}

/// The word opens its line when it is packed, and not only when a tag behind it
/// does not fit.
pub open spec fn opens_its_line(
    words: Seq<Seq<char>>,
    s: int,
    effective: nat,
    hang: nat,
) -> bool {
    packed(words, s + 1, effective, hang).starts.last() == s
}

/// The words open with a lone name and its colon.
pub open spec fn opens_with_colon(words: Seq<Seq<char>>, s: int) -> bool {
    &&& s + 1 < words.len()
    &&& leads_with(words[s + 1], CharClass::One(':'))
    &&& lone_kdoc_name(words[s])
}

/// Words behind a line start are packed as they are on their own.
proof fn lemma_packed_moved(
    words: Seq<Seq<char>>,
    s: int,
    e: int,
    m: int,
    effective: nat,
)
    requires
        0 < s < e <= words.len(),
        1 <= m <= e - s,
        opens_its_line(words, s, effective, 0),
        !opens_with_colon(words, s),
    ensures
        ({
            let p = packed(words, s + m, effective, 0);
            let q = packed(words.subrange(s, e), m, effective, 0);
            let front = packed(words, s + 1, effective, 0).starts.drop_last();
            &&& p.width == q.width
            &&& front.len() > 0
            &&& p.starts == front + Seq::new(q.starts.len(), |j: int| s + q.starts[j])
        }),
    decreases m,
{
    let sub = words.subrange(s, e);
    let front = packed(words, s + 1, effective, 0).starts.drop_last();
    lemma_packed_valid(words, s + 1, effective, 0);
    let first = packed(words, s + 1, effective, 0);
    assert(first.starts[0] == 0);
    if m == 1 {
        lemma_packed_valid(words, s, effective, 0);
        let before = packed(words, s, effective, 0);
        assert(first == pack_word(words, before, s, effective, 0));
        lemma_start_bounds(before.starts, s, before.starts.len() - 1);
        let q = packed(sub, 1, effective, 0);
        assert(sub[0] == words[s]);
        assert(first.starts =~= front + Seq::new(q.starts.len(), |j: int| s + q.starts[j]));
    } else {
        lemma_packed_moved(words, s, e, m - 1, effective);
        let p = packed(words, s + m - 1, effective, 0);
        let q = packed(sub, m - 1, effective, 0);
        lemma_packed_valid(sub, m - 1, effective, 0);
        lemma_start_bounds(q.starts, m - 1, q.starts.len() - 1);
        let i = m - 1;
        assert(p.starts.last() == s + q.starts.last());
        assert(colon_pending(sub, q, i) && q.starts.len() == 1 ==> opens_with_colon(words, s)) by {
            if colon_pending(sub, q, i) && q.starts.len() == 1 {
                assert(q.starts[0] == 0);
                assert(i == 1);
                assert(sub[1] == words[s + 1] && sub[0] == words[s]);
            }
        }
        lemma_pack_same(words, sub, p, q, i, s, effective, 0);
        let a = packed(words, s + m, effective, 0);
        let b = packed(sub, m, effective, 0);
        assert(a == pack_word(words, p, s + i, effective, 0));
        if a.starts == p.starts && b.starts == q.starts {
        } else {
            let k = choose|k: int|
                a.starts == p.starts.push(s + k) && b.starts == #[trigger] q.starts.push(k);
            assert(a.starts =~= front + Seq::new(b.starts.len(), |j: int| s + b.starts[j]));
        }
    }
}

proof fn lemma_moved_starts(starts: Seq<int>, q: Seq<int>, a: int, b: int, s: int)
    requires
        0 < a < b <= starts.len(),
        s == starts[a],
        starts.take(b) == starts.take(a + 1).drop_last() + Seq::new(q.len(), |j: int| s + q[j]),
    ensures
        q == part_starts(starts, a, b),
{
    let front = starts.take(a + 1).drop_last();
    let own = part_starts(starts, a, b);
    let back = Seq::new(q.len(), |j: int| s + q[j]);
    assert(front.len() == a);
    assert(starts.take(b).len() == b);
    assert((front + back).len() == a + q.len());
    assert forall|j: int| 0 <= j < q.len() implies q[j] == own[j] by {
        assert(starts.take(b)[a + j] == s + q[j]);
    }
    assert(q =~= own);
}

/// The rough lines of a part of a packing.
proof fn lemma_rough_part(
    words: Seq<Seq<char>>,
    starts: Seq<int>,
    a: int,
    b: int,
    e: int,
    effective: nat,
    hang: nat,
)
    requires
        0 <= a < b <= starts.len(),
        starts[0] == 0,
        0 <= starts[a] < e <= words.len(),
        a > 0 ==> starts[a] > 0,
        packed(words, e, effective, hang).starts == starts.take(b),
        a > 0 ==> hang == 0 && opens_its_line(words, starts[a], effective, hang)
            && !opens_with_colon(words, starts[a]) && packed(
            words,
            starts[a] + 1,
            effective,
            hang,
        ).starts == starts.take(a + 1),
    ensures
        ({
            let part = words.subrange(starts[a], e);
            packed(part, part.len() as int, effective, hang).starts == part_starts(starts, a, b)
        }),
{
    let s = starts[a];
    if a == 0 {
        lemma_packed_front(words, e, e, effective, hang);
        assert(part_starts(starts, 0, b) =~= starts.take(b));
    } else {
        lemma_packed_moved(words, s, e, e - s, effective);
        let q = packed(words.subrange(s, e), e - s, effective, 0).starts;
        lemma_moved_starts(starts, q, a, b, s);
    }
}

/// A packing whose last line is no decoration is settled.
proof fn lemma_settled_plain(words: Seq<Seq<char>>, starts: Seq<int>)
    requires
        starts.len() >= 2 ==> !is_bookend(line_text(words, starts.last(), words.len() as int)),
    ensures
        settled(words, starts) == starts,
{
}

/// What settling does to the lines of a packing.
proof fn lemma_settled_cases(words: Seq<Seq<char>>, rough: Seq<int>) -> (k: int)
    requires
        valid_starts(rough, words.len() as int),
    ensures
        ({
            let starts = settled(words, rough);
            let m = rough.len() as int;
            ||| starts == rough
            ||| {
                &&& m >= 2
                &&& is_bookend(line_text(words, rough.last(), words.len() as int))
                &&& {
                    ||| starts == rough.drop_last()
                    ||| starts == rough.take(m - 2).push(k)
                    ||| {
                        &&& starts == rough.drop_last().push(k)
                        &&& rough[m - 2] < k < rough[m - 1]
                        &&& !tag_start(words[k])
                    }
                }
            }
        }),
{
    let m = rough.len() as int;
    if m >= 2 {
        let low = rough[m - 2];
        assert(rough[m - 2] < rough[m - 2 + 1]);
        lemma_last_usable(words, rough, low, rough.last() - 1);
        last_usable(words, rough, low, rough.last() - 1)
    } else {
        0
    }
}

/// A line of a rough packing is filled by the words up to where it ends.
proof fn lemma_rough_filled(
    words: Seq<Seq<char>>,
    rough: Seq<int>,
    effective: nat,
    hang: nat,
    b: int,
)
    requires
        words.len() > 0,
        rough == packed(words, words.len() as int, effective, hang).starts,
        0 < b <= rough.len(),
    ensures
        packed(words, reach(words, rough, b), effective, hang).starts == rough.take(b),
{
    if b < rough.len() {
        lemma_line_filled(words, words.len() as int, effective, hang, b - 1);
    } else {
        assert(rough.take(b) =~= rough);
    }
}

/// A line that gave words to the one below it is filled by those it kept.
proof fn lemma_short_filled(
    words: Seq<Seq<char>>,
    rough: Seq<int>,
    effective: nat,
    hang: nat,
    k: int,
)
    requires
        words.len() > 0,
        rough == packed(words, words.len() as int, effective, hang).starts,
        valid_starts(rough, words.len() as int),
        rough.len() >= 2,
        rough[rough.len() - 2] < k < rough[rough.len() - 1],
        !tag_start(words[k]),
    ensures
        packed(words, k, effective, hang).starts == rough.drop_last(),
{
    let b = rough.len() - 1;
    let low = rough[b - 1];
    lemma_rough_filled(words, rough, effective, hang, b);
    assert(rough.take(b) =~= rough.drop_last());
    assert(rough.drop_last().last() == low);
    lemma_start_bounds(rough, words.len() as int, b - 1);
    if k - low >= 2 {
        lemma_line_filling(words, low, k, rough[b], effective, hang);
    } else {
        crate::laws::lemma_line_started(words, low, k, rough[b], effective, hang);
    }
}

/// A line that was not settled is filled by the words up to where it ends.
proof fn lemma_filled_upto(
    words: Seq<Seq<char>>,
    rough: Seq<int>,
    starts: Seq<int>,
    effective: nat,
    hang: nat,
    b: int,
)
    requires
        words.len() > 0,
        rough == packed(words, words.len() as int, effective, hang).starts,
        valid_starts(rough, words.len() as int),
        starts == settled(words, rough),
        0 < b <= starts.len(),
        !settled_line(words, rough, b - 1),
    ensures
        packed(words, reach(words, starts, b), effective, hang).starts == starts.take(b),
{
    let m = rough.len() as int;
    let k = lemma_settled_cases(words, rough);
    if starts == rough {
        lemma_rough_filled(words, rough, effective, hang, b);
    } else if b < m - 1 {
        lemma_rough_filled(words, rough, effective, hang, b);
        assert(starts[b] == rough[b]);
        assert(starts.take(b) =~= rough.take(b));
    } else {
        assert(b == m - 1);
        assert(starts == rough.drop_last().push(k));
        lemma_short_filled(words, rough, effective, hang, k);
        assert(starts.take(b) =~= rough.drop_last());
    }
}

/// A part of a paragraph's lines wraps as it stands, unless one of them was settled
/// because the last line read as decoration, or the part opens with a word that was
/// pulled ahead of a tag or with a lone name and its colon.
pub proof fn lemma_part_wraps(
    words: Seq<Seq<char>>,
    a: int,
    b: int,
    effective: nat,
    hang: nat,
)
    requires
        words.len() > 0,
        all_words(words),
        0 <= a < b <= line_starts(words, effective, hang).len(),
        a > 0 ==> {
            let s = line_starts(words, effective, hang)[a];
            hang == 0 && opens_its_line(words, s, effective, hang) && !opens_with_colon(words, s)
        },
        a == 0 && b == line_starts(words, effective, hang).len() || forall|j: int|
            a <= j < b ==> !#[trigger] settled_line(
                words,
                packed(words, words.len() as int, effective, hang).starts,
                j,
            ),
    ensures
        ({
            let starts = line_starts(words, effective, hang);
            line_starts(part_words(words, starts, a, b), effective, hang) == part_starts(
                starts,
                a,
                b,
            )
        }),
{
    let n = words.len() as int;
    let starts = line_starts(words, effective, hang);
    let rough = packed(words, n, effective, hang).starts;
    let part = part_words(words, starts, a, b);
    let own = part_starts(starts, a, b);
    lemma_packed_valid(words, n, effective, hang);
    law_lines_partition_words(words, effective, hang);
    lemma_part(words, starts, a, b);
    if a == 0 && b == starts.len() {
        assert(part =~= words);
        assert(own =~= starts);
    } else {
        assert(!settled_line(words, rough, b - 1));
        assert(!settled_line(words, rough, a));
        lemma_proper_part_wraps(words, rough, starts, a, b, effective, hang);
    }
}

/// The rough lines of a part that was not settled.
proof fn lemma_rough_own(
    words: Seq<Seq<char>>,
    rough: Seq<int>,
    starts: Seq<int>,
    a: int,
    b: int,
    effective: nat,
    hang: nat,
)
    requires
        words.len() > 0,
        rough == packed(words, words.len() as int, effective, hang).starts,
        starts == settled(words, rough),
        valid_starts(rough, words.len() as int),
        valid_starts(starts, words.len() as int),
        0 <= a < b <= starts.len(),
        a > 0 ==> hang == 0 && opens_its_line(words, starts[a], effective, hang)
            && !opens_with_colon(words, starts[a]),
        !settled_line(words, rough, a),
        !settled_line(words, rough, b - 1),
    ensures
        ({
            let part = part_words(words, starts, a, b);
            packed(part, part.len() as int, effective, hang).starts == part_starts(starts, a, b)
        }),
{
    lemma_filled_upto(words, rough, starts, effective, hang, b);
    lemma_reach(words, starts, a, b);
    crate::wrap::lemma_start_from_zero(starts, words.len() as int, a);
    if a > 0 {
        lemma_opened(words, rough, starts, effective, a);
    }
    lemma_rough_part(words, starts, a, b, reach(words, starts, b), effective, hang);
}

/// A part that is not the whole.
proof fn lemma_proper_part_wraps(
    words: Seq<Seq<char>>,
    rough: Seq<int>,
    starts: Seq<int>,
    a: int,
    b: int,
    effective: nat,
    hang: nat,
)
    requires
        words.len() > 0,
        all_words(words),
        rough == packed(words, words.len() as int, effective, hang).starts,
        starts == line_starts(words, effective, hang),
        valid_starts(rough, words.len() as int),
        valid_starts(starts, words.len() as int),
        0 <= a < b <= starts.len(),
        starts.len() >= 2,
        a > 0 ==> hang == 0 && opens_its_line(words, starts[a], effective, hang)
            && !opens_with_colon(words, starts[a]),
        !settled_line(words, rough, a),
        !settled_line(words, rough, b - 1),
    ensures
        line_starts(part_words(words, starts, a, b), effective, hang) == part_starts(starts, a, b),
{
    let part = part_words(words, starts, a, b);
    let own = part_starts(starts, a, b);
    lemma_rough_own(words, rough, starts, a, b, effective, hang);
    lemma_part(words, starts, a, b);
    assert(line_body(part, own, b - a - 1) == line_body(words, starts, b - 1));
    assert(!is_bookend(line_body(words, starts, b - 1))) by {
        if b == starts.len() {
            lemma_last_plain(words, rough, starts);
        } else {
            law_lines_read_well(words, effective, hang);
        }
    }
    lemma_settled_plain(part, own);
}

/// A last line that was not settled is no decoration.
proof fn lemma_last_plain(words: Seq<Seq<char>>, rough: Seq<int>, starts: Seq<int>)
    requires
        valid_starts(rough, words.len() as int),
        starts == settled(words, rough),
        starts.len() >= 2,
        !settled_line(words, rough, starts.len() - 1),
    ensures
        !is_bookend(line_body(words, starts, starts.len() - 1)),
{
    if rough.len() < 2 {
        assert(settled(words, rough) == rough);
    }
}

/// The lines up to one that its word opened.
proof fn lemma_opened(
    words: Seq<Seq<char>>,
    rough: Seq<int>,
    starts: Seq<int>,
    effective: nat,
    a: int,
)
    requires
        words.len() > 0,
        rough == packed(words, words.len() as int, effective, 0).starts,
        valid_starts(rough, words.len() as int),
        valid_starts(starts, words.len() as int),
        starts == settled(words, rough),
        0 < a < starts.len(),
        opens_its_line(words, starts[a], effective, 0),
        !settled_line(words, rough, a),
    ensures
        packed(words, starts[a] + 1, effective, 0).starts == starts.take(a + 1),
{
    lemma_filled_upto(words, rough, starts, effective, 0, a + 1);
    lemma_reach(words, starts, a, a + 1);
    crate::wrap::lemma_start_from_zero(starts, words.len() as int, a);
    assert(starts.take(a + 1).last() == starts[a]);
    lemma_line_back(words, starts[a], reach(words, starts, a + 1), effective, 0);
}

/// A line that its word opened has been the last one since.
proof fn lemma_line_back(words: Seq<Seq<char>>, s: int, e: int, effective: nat, hang: nat)
    requires
        0 < s < e <= words.len(),
        opens_its_line(words, s, effective, hang),
        packed(words, e, effective, hang).starts.last() == s,
    ensures
        packed(words, s + 1, effective, hang).starts == packed(words, e, effective, hang).starts,
{
    if e > s + 1 {
        if e > s + 2 {
            lemma_line_filling(words, s, s + 2, e, effective, hang);
        }
        crate::laws::lemma_pack_step(words, s + 1, effective, hang);
        lemma_packed_valid(words, s + 1, effective, hang);
        let p = packed(words, s + 1, effective, hang).starts;
        let q = packed(words, s + 2, effective, hang).starts;
        assert(q.last() == s);
    }
}

} // verus!
