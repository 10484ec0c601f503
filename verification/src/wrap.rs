//! Greedy packing of one paragraph's words into lines.
//!
//! A packing is the list of the positions at which its lines start, so the
//! lines of a packing always hold the paragraph's words, each once and in
//! order.

use crate::linekind::{
    doxy_keyword, doxy_tag, email_or_path, looks_like_email_or_path, tag_keyword, tag_shape,
};
use crate::text::{
    all_in, cat2, join_range, joined, leads_with, only_of, opens_with, repeat_char, repeated,
    skip_chars, split_words, strs, texts, words_of, CharClass,
};
use crate::textline::{bookended, is_bookend, is_kernel_doc_tag, kernel_doc_tag};
use crate::width::{clamped, text_columns, text_width};
use vstd::prelude::*;

verus! {

/// `word` would read as a Doxygen or kernel-doc tag if it opened a line.
pub open spec fn tag_start(word: Seq<char>) -> bool {
    &&& leads_with(word, CharClass::Two('@', '\\'))
    &&& {
        ||| tag_shape(tag_keyword(word.skip(1))) is Some && !email_or_path(word.skip(1))
        ||| kernel_doc_tag(word)
    }
}

fn is_tag_start(word: &str) -> (r: bool)
    ensures
        r == tag_start(word@),
{
    if !opens_with(word, CharClass::Two('@', '\\')) {
        return false;
    }
    let rest = skip_chars(word, 1);
    (doxy_tag(doxy_keyword(rest)).is_some() && !looks_like_email_or_path(rest))
        || is_kernel_doc_tag(word)
}

/// `line` is nothing but `@name`.
pub open spec fn lone_kdoc_name(line: Seq<char>) -> bool {
    leads_with(line, CharClass::One('@')) && line.len() > 1 && all_in(line.skip(1), CharClass::Word)
}

fn is_lone_kdoc_name(line: &str) -> (r: bool)
    ensures
        r == lone_kdoc_name(line@),
{
    opens_with(line, CharClass::One('@')) && line.unicode_len() > 1 && only_of(
        skip_chars(line, 1),
        CharClass::Word,
    )
}

/// The line that the words from `a` to before `b` make.
pub open spec fn line_text(words: Seq<Seq<char>>, a: int, b: int) -> Seq<char> {
    joined(words.subrange(a, b), " "@)
}

fn line_of(words: &Vec<&str>, a: usize, b: usize) -> (r: String)
    requires
        a <= b <= words.len(),
    ensures
        r@ == line_text(strs(words@), a as int, b as int),
{
    join_range(words, a, b, " ")
}

/// Lines that are packed so far: where each starts, and how wide the last one
/// counts as.
pub ghost struct Packing {
    pub starts: Seq<int>,
    pub width: nat,
}

/// The columns that the line being filled may take: continuation lines have
/// `hang` columns less.
pub open spec fn room(lines: nat, effective: nat, hang: nat) -> nat {
    if lines <= 1 {
        effective
    } else if effective > hang {
        (effective - hang) as nat
    } else {
        0
    }
}

/// The last line is a lone `@name` and word `i` would supply its colon.
pub open spec fn colon_pending(words: Seq<Seq<char>>, p: Packing, i: int) -> bool {
    &&& i - p.starts.last() == 1
    &&& leads_with(words[i], CharClass::One(':'))
    &&& lone_kdoc_name(words[i - 1])
}

/// Word `i` goes on the last line by the ordinary rule: it fits. A colon behind
/// a lone `@name` stays with it on the paragraph's first line, whatever the
/// width, and never joins it on a later one.
pub open spec fn takes_word(
    words: Seq<Seq<char>>,
    p: Packing,
    i: int,
    effective: nat,
    hang: nat,
) -> bool {
    if colon_pending(words, p, i) {
        p.starts.len() == 1
    } else {
        p.width + 1 + text_columns(words[i]) <= room(p.starts.len(), effective, hang)
    }
}

/// The last line can be broken in front of its last word, which then opens the
/// next line ahead of word `i`: that word is no tag, and what stays behind is
/// no decoration.
pub open spec fn can_peel(words: Seq<Seq<char>>, p: Packing, i: int) -> bool {
    let start = p.starts.last();
    &&& i - start >= 2
    &&& !tag_start(words[i - 1])
    &&& !is_bookend(line_text(words, start, i - 1))
}

/// Packs word `i`. A line that reads as decoration is not left as it is, and a
/// tag does not open a line: then the line overflows, or breaks one word early.
pub open spec fn pack_word(
    words: Seq<Seq<char>>,
    p: Packing,
    i: int,
    effective: nat,
    hang: nat,
) -> Packing {
    let grown = Packing { starts: p.starts, width: p.width + 1 + text_columns(words[i]) as nat };
    if takes_word(words, p, i, effective, hang) {
        grown
    } else if is_bookend(line_text(words, p.starts.last(), i)) {
        grown
    } else if !tag_start(words[i]) {
        Packing { starts: p.starts.push(i), width: text_columns(words[i]) as nat }
    } else if can_peel(words, p, i) {
        Packing {
            starts: p.starts.push(i - 1),
            width: text_columns(line_text(words, i - 1, i + 1)) as nat,
        }
    } else {
        grown
    }
}

/// The packing of the first `n` words.
pub open spec fn packed(words: Seq<Seq<char>>, n: int, effective: nat, hang: nat) -> Packing
    decreases n,
{
    if n <= 1 {
        Packing { starts: seq![0], width: text_columns(words[0]) as nat }
    } else {
        pack_word(words, packed(words, n - 1, effective, hang), n - 1, effective, hang)
    }
}

/// The text from word `k` to before word `s` may open a line.
pub open spec fn opens_line(words: Seq<Seq<char>>, k: int, s: int) -> bool {
    !tag_start(words[k]) && !kernel_doc_tag(line_text(words, k, s))
}

/// The last line can start at word `k` of the line above instead: it may open
/// with that word and is no decoration then.
pub open spec fn lends(words: Seq<Seq<char>>, starts: Seq<int>, k: int) -> bool {
    opens_line(words, k, starts.last()) && !is_bookend(line_text(words, k, words.len() as int))
}

/// With the last line starting at `k`, what the line above keeps is no
/// decoration.
pub open spec fn keeps(words: Seq<Seq<char>>, starts: Seq<int>, k: int) -> bool {
    !is_bookend(line_text(words, starts[starts.len() - 2], k))
}

/// With the last line starting at `k`, what the line above keeps can be joined
/// to the line above that one.
pub open spec fn folds(words: Seq<Seq<char>>, starts: Seq<int>, k: int) -> bool {
    starts.len() >= 3 && !is_bookend(line_text(words, starts[starts.len() - 3], k))
}

pub open spec fn usable(words: Seq<Seq<char>>, starts: Seq<int>, k: int) -> bool {
    lends(words, starts, k) && (keeps(words, starts, k) || folds(words, starts, k))
}

/// The last usable start at or before `k` and behind `low`; `low` when there is
/// none.
pub open spec fn last_usable(words: Seq<Seq<char>>, starts: Seq<int>, low: int, k: int) -> int
    decreases k - low,
{
    if k <= low {
        low
    } else if usable(words, starts, k) {
        k
    } else {
        last_usable(words, starts, low, k - 1)
    }
}

/// Starts the last line at `k` of the line above.
pub open spec fn borrowed(words: Seq<Seq<char>>, starts: Seq<int>, k: int) -> Seq<int> {
    if keeps(words, starts, k) {
        starts.drop_last().push(k)
    } else {
        starts.take(starts.len() - 2).push(k)
    }
}

/// The packing with its last line settled. A last line that reads as decoration
/// takes words from the line above, as few as will do; failing that it joins
/// the line above whole, unless that too would read as decoration.
pub open spec fn settled(words: Seq<Seq<char>>, starts: Seq<int>) -> Seq<int> {
    let n = words.len() as int;
    if starts.len() >= 2 && is_bookend(line_text(words, starts.last(), n)) {
        let low = starts[starts.len() - 2];
        let k = last_usable(words, starts, low, starts.last() - 1);
        if k > low {
            borrowed(words, starts, k)
        } else if !is_bookend(line_text(words, low, n)) {
            starts.drop_last()
        } else {
            starts
        }
    } else {
        starts
    }
}

/// Where the lines of a paragraph start.
pub open spec fn line_starts(words: Seq<Seq<char>>, effective: nat, hang: nat) -> Seq<int> {
    if words.len() == 0 {
        Seq::empty()
    } else {
        settled(words, packed(words, words.len() as int, effective, hang).starts)
    }
}

/// Where line `j` ends.
pub open spec fn line_end(words: Seq<Seq<char>>, starts: Seq<int>, j: int) -> int {
    if j + 1 < starts.len() {
        starts[j + 1]
    } else {
        words.len() as int
    }
}

/// The body of line `j` of a packing.
pub open spec fn line_body(words: Seq<Seq<char>>, starts: Seq<int>, j: int) -> Seq<char> {
    line_text(words, starts[j], line_end(words, starts, j))
}

/// What line `j` is emitted behind.
pub open spec fn line_lead(prefix: Seq<char>, hang: nat, j: int) -> Seq<char> {
    if j == 0 {
        prefix
    } else {
        prefix + repeated(' ', hang)
    }
}

/// The lines of a paragraph: the first behind `prefix` with `effective` columns,
/// the others `hang` columns further in.
pub open spec fn wrapped_lines(
    body: Seq<char>,
    prefix: Seq<char>,
    effective: nat,
    hang: nat,
) -> Seq<Seq<char>> {
    let words = words_of(body);
    let starts = line_starts(words, effective, hang);
    Seq::new(
        starts.len(),
        |j: int| line_lead(prefix, hang, j) + line_body(words, starts, j),
    )
}

/// The starts of a packing of `n` words: the first line starts at the first
/// word, and every line holds a word.
pub open spec fn valid_starts(starts: Seq<int>, n: int) -> bool {
    &&& starts.len() > 0
    &&& starts[0] == 0
    &&& starts.last() < n
    &&& forall|j: int| 0 <= j < starts.len() - 1 ==> #[trigger] starts[j] < starts[j + 1]
}

proof fn lemma_pushed_start(starts: Seq<int>, m: int, k: int, n: int)
    requires
        valid_starts(starts, n),
        1 <= m <= starts.len(),
        starts[m - 1] < k < n,
    ensures
        valid_starts(starts.take(m).push(k), n),
{
    let r = starts.take(m).push(k);
    assert forall|j: int| 0 <= j < r.len() - 1 implies #[trigger] r[j] < r[j + 1] by {
        if j + 1 < m {
            assert(starts[j] < starts[j + 1]);
        }
    }
}

pub proof fn lemma_packed_valid(words: Seq<Seq<char>>, n: int, effective: nat, hang: nat)
    requires
        1 <= n <= words.len(),
    ensures
        valid_starts(packed(words, n, effective, hang).starts, n),
    decreases n,
{
    if n > 1 {
        lemma_packed_valid(words, n - 1, effective, hang);
        let p = packed(words, n - 1, effective, hang);
        let m = p.starts.len() as int;
        assert(p.starts.take(m) == p.starts);
        let q = packed(words, n, effective, hang);
        assert(valid_starts(p.starts, n));
        lemma_pushed_start(p.starts, m, n - 1, n);
        if can_peel(words, p, n - 1) {
            lemma_pushed_start(p.starts, m, n - 2, n);
        }
    }
}

pub proof fn lemma_last_usable(words: Seq<Seq<char>>, starts: Seq<int>, low: int, k: int)
    requires
        low <= k,
    ensures
        low <= last_usable(words, starts, low, k) <= k,
        last_usable(words, starts, low, k) > low ==> usable(
            words,
            starts,
            last_usable(words, starts, low, k),
        ),
    decreases k - low,
{
    if k > low && !usable(words, starts, k) {
        lemma_last_usable(words, starts, low, k - 1);
    }
}

proof fn lemma_settled_valid(words: Seq<Seq<char>>, starts: Seq<int>)
    requires
        valid_starts(starts, words.len() as int),
    ensures
        valid_starts(settled(words, starts), words.len() as int),
{
    let n = words.len() as int;
    let m = starts.len() as int;
    if m >= 2 {
        let low = starts[m - 2];
        assert(low < starts[m - 2 + 1]);
        lemma_last_usable(words, starts, low, starts.last() - 1);
        let k = last_usable(words, starts, low, starts.last() - 1);
        assert(starts.drop_last() == starts.take(m - 1));
        if k > low {
            lemma_pushed_start(starts, m - 1, k, n);
            if m >= 3 {
                assert(starts[m - 3] < starts[m - 3 + 1]);
                lemma_pushed_start(starts, m - 2, k, n);
            }
        }
        assert forall|j: int| 0 <= j < m - 2 implies #[trigger] starts.drop_last()[j]
            < starts.drop_last()[j + 1] by {
            assert(starts[j] < starts[j + 1]);
        }
    }
}

/// Every line of a packing holds at least one word, the lines follow each other
/// without a gap, and together they hold all words.
pub proof fn law_lines_partition_words(words: Seq<Seq<char>>, effective: nat, hang: nat)
    requires
        words.len() > 0,
    ensures
        valid_starts(line_starts(words, effective, hang), words.len() as int),
{
    lemma_packed_valid(words, words.len() as int, effective, hang);
    lemma_settled_valid(words, packed(words, words.len() as int, effective, hang).starts);
}

/// The positions in `v` as integers.
pub open spec fn positions(v: Seq<usize>) -> Seq<int> {
    Seq::new(v.len(), |i: int| v[i] as int)
}

fn pack(words: &Vec<&str>, effective: usize, hang: usize) -> (starts: Vec<usize>)
    requires
        words.len() > 0,
    ensures
        positions(starts@) == packed(
            strs(words@),
            words.len() as int,
            effective as nat,
            hang as nat,
        ).starts,
{
    let ghost all = strs(words@);
    let mut starts: Vec<usize> = vec![0];
    let mut width: usize = text_width(words[0]);
    let mut i: usize = 1;
    assert(positions(starts@) =~= seq![0int]);
    while i < words.len()
        invariant
            1 <= i <= words.len(),
            all == strs(words@),
            positions(starts@) == packed(all, i as int, effective as nat, hang as nat).starts,
            width == clamped(packed(all, i as int, effective as nat, hang as nat).width),
        decreases words.len() - i,
    {
        let ghost p = packed(all, i as int, effective as nat, hang as nat);
        let ghost before = starts@;
        proof {
            lemma_packed_valid(all, i as int, effective as nat, hang as nat);
            assert(positions(starts@).len() == starts.len());
            assert(positions(starts@).last() == starts@.last());
            assert(all[i as int] == words@[i as int]@);
        }
        let w = words[i];
        let lines: usize = starts.len();
        let start: usize = starts[lines - 1];
        let avail: usize = if lines == 1 {
            effective
        } else {
            effective.saturating_sub(hang)
        };
        let w_width: usize = text_width(w);
        let single = i - start == 1;
        assert(all[i - 1] == words@[i - 1]@);
        let colon = single && opens_with(w, CharClass::One(':')) && is_lone_kdoc_name(words[i - 1]);
        let takes = if colon {
            lines == 1
        } else {
            width < avail && w_width <= avail - width - 1
        };
        assert(takes == takes_word(all, p, i as int, effective as nat, hang as nat));
        if takes || bookended(line_of(words, start, i).as_str()) {
            width = width.saturating_add(1).saturating_add(w_width);
        } else if !is_tag_start(w) {
            starts.push(i);
            width = w_width;
            assert(positions(starts@) =~= positions(before).push(i as int));
        } else if !single && !is_tag_start(words[i - 1]) && !bookended(
            line_of(words, start, i - 1).as_str(),
        ) {
            starts.push(i - 1);
            width = text_width(line_of(words, i - 1, i + 1).as_str());
            assert(positions(starts@) =~= positions(before).push(i - 1));
        } else {
            width = width.saturating_add(1).saturating_add(w_width);
        }
        i = i + 1;
    }
    starts
}

/// A last line that reads as decoration takes words from the line above, or
/// joins it.
fn settle(words: &Vec<&str>, rough: Vec<usize>) -> (r: Vec<usize>)
    requires
        words.len() > 0,
        valid_starts(positions(rough@), words.len() as int),
    ensures
        positions(r@) == settled(strs(words@), positions(rough@)),
{
    let ghost all = strs(words@);
    let ghost given = positions(rough@);
    let mut starts = rough;
    let n: usize = words.len();
    let m: usize = starts.len();
    if m < 2 {
        return starts;
    }
    let last: usize = starts[m - 1];
    let low: usize = starts[m - 2];
    proof {
        assert(given.len() == m);
        assert(given[m - 2] == low && given[m - 1] == last && given.last() == last);
        assert(given[m - 2] < given[m - 2 + 1]);
    }
    if !bookended(line_of(words, last, n).as_str()) {
        return starts;
    }
    let mut k: usize = last - 1;
    while k > low
        invariant
            low <= k < last < n == words.len(),
            m == starts.len() == given.len(),
            m >= 2,
            all == strs(words@),
            given == positions(starts@),
            given == positions(rough@),
            valid_starts(given, n as int),
            low == given[m - 2],
            last == given.last(),
            is_bookend(line_text(all, given.last(), n as int)),
            last_usable(all, given, low as int, k as int) == last_usable(
                all,
                given,
                low as int,
                last - 1,
            ),
        decreases k,
    {
        assert(all[k as int] == words@[k as int]@);
        let lends_k = !is_tag_start(words[k]) && !is_kernel_doc_tag(
            line_of(words, k, last).as_str(),
        ) && !bookended(line_of(words, k, n).as_str());
        assert(lends_k == lends(all, given, k as int));
        if lends_k {
            if !bookended(line_of(words, low, k).as_str()) {
                assert(keeps(all, given, k as int));
                let _ = starts.pop();
                starts.push(k);
                assert(positions(starts@) =~= given.drop_last().push(k as int));
                return starts;
            }
            if m >= 3 {
                let above: usize = starts[m - 3];
                proof {
                    assert(given[m - 3] == above);
                    assert(given[m - 3] < given[m - 3 + 1]);
                }
                if !bookended(line_of(words, above, k).as_str()) {
                    assert(folds(all, given, k as int));
                    assert(!keeps(all, given, k as int));
                    let _ = starts.pop();
                    let _ = starts.pop();
                    starts.push(k);
                    assert(positions(starts@) =~= given.take(m - 2).push(k as int));
                    return starts;
                }
            }
        }
        assert(!usable(all, given, k as int));
        k = k - 1;
    }
    if !bookended(line_of(words, low, n).as_str()) {
        let _ = starts.pop();
        assert(positions(starts@) =~= given.drop_last());
    }
    starts
}

/// Packs the words of `body` into lines and appends them to `out`: the first
/// line behind `prefix` with `effective` columns, every further one indented by
/// another `hang` columns.
pub fn wrap_segment_aligned(
    body: &str,
    prefix: &str,
    effective: usize,
    hang: usize,
    out: &mut Vec<String>,
)
    ensures
        texts(final(out)@) == texts(old(out)@) + wrapped_lines(
            body@,
            prefix@,
            effective as nat,
            hang as nat,
        ),
{
    let words = split_words(body);
    let ghost all = words_of(body@);
    assert(words.len() == all.len());
    if words.len() == 0 {
        assert(texts(out@) =~= texts(out@) + wrapped_lines(
            body@,
            prefix@,
            effective as nat,
            hang as nat,
        ));
        return;
    }
    let starts = pack(&words, effective, hang);
    proof {
        lemma_packed_valid(all, all.len() as int, effective as nat, hang as nat);
        law_lines_partition_words(all, effective as nat, hang as nat);
    }
    let starts = settle(&words, starts);
    let cont = cat2(prefix, repeat_char(' ', hang).as_str());
    let ghost given = texts(out@);
    let ghost lines = wrapped_lines(body@, prefix@, effective as nat, hang as nat);
    let ghost at = positions(starts@);
    let n: usize = words.len();
    let mut j: usize = 0;
    assert(texts(out@) =~= given + lines.take(0));
    while j < starts.len()
        invariant
            j <= starts.len() == lines.len(),
            n == words.len(),
            strs(words@) == all,
            all == words_of(body@),
            at == positions(starts@),
            at == line_starts(all, effective as nat, hang as nat),
            valid_starts(at, n as int),
            cont@ == prefix@ + repeated(' ', hang as nat),
            lines == wrapped_lines(body@, prefix@, effective as nat, hang as nat),
            texts(out@) == given + lines.take(j as int),
        decreases starts.len() - j,
    {
        proof {
            assert(at[j as int] == starts@[j as int]);
            lemma_start_bounds(at, n as int, j as int);
        }
        let a: usize = starts[j];
        let b: usize = if j + 1 < starts.len() {
            assert(at[j + 1] == starts@[j + 1]);
            assert(at[j as int] < at[j + 1]);
            starts[j + 1]
        } else {
            n
        };
        proof {
            if j + 1 < starts.len() {
                lemma_start_bounds(at, n as int, j + 1);
            }
        }
        let text = line_of(&words, a, b);
        let line = if j == 0 {
            cat2(prefix, text.as_str())
        } else {
            cat2(cont.as_str(), text.as_str())
        };
        let ghost before = out@;
        out.push(line);
        proof {
            assert(line@ == lines[j as int]);
            assert(texts(out@) =~= texts(before).push(lines[j as int]));
            assert(lines.take(j + 1) =~= lines.take(j as int).push(lines[j as int]));
            assert(texts(out@) =~= given + lines.take(j + 1));
        }
        j = j + 1;
    }
    assert(lines.take(j as int) =~= lines);
}

pub proof fn lemma_start_bounds(starts: Seq<int>, n: int, j: int)
    requires
        valid_starts(starts, n),
        0 <= j < starts.len(),
    ensures
        0 <= starts[j] < n,
    decreases starts.len() - j,
{
    lemma_start_from_zero(starts, n, j);
    if j + 1 < starts.len() {
        lemma_start_bounds(starts, n, j + 1);
        assert(starts[j] < starts[j + 1]);
    }
}

pub proof fn lemma_start_from_zero(starts: Seq<int>, n: int, j: int)
    requires
        valid_starts(starts, n),
        0 <= j < starts.len(),
    ensures
        j <= starts[j],
    decreases j,
{
    if j > 0 {
        lemma_start_from_zero(starts, n, j - 1);
        assert(starts[j - 1] < starts[j - 1 + 1]);
    }
}

} // verus!
