//! Replacements of stretches of a source: making them, checking them, and
//! carrying them out.

use crate::bytes::{at_boundary, lemma_source_ends, slice, span, span_ok};
use crate::comment::{comment_texts, Comment, CommentText};
use crate::text::{cat2, count_trail, same, skip_chars, trail_len, CharClass};
use vstd::prelude::*;
use vstd::utf8::encode_utf8;

verus! {

/// A stretch of the source, by byte offsets, and the text to put in its place.
#[derive(Debug, Clone)]
pub struct Replacement {
    pub start: usize,
    pub end: usize,
    pub text: String,
}

/// `Replacement` over plain text.
pub ghost struct Splice {
    pub start: int,
    pub end: int,
    pub text: Seq<char>,
}

impl View for Replacement {
    type V = Splice;

    open spec fn view(&self) -> Splice {
        Splice { start: self.start as int, end: self.end as int, text: self.text@ }
    }
}

pub open spec fn splices(v: Seq<Replacement>) -> Seq<Splice> {
    Seq::new(v.len(), |i: int| v[i]@)
}

/// The line break that a stretch of source ends in.
pub open spec fn final_break(s: Seq<char>) -> Seq<char> {
    s.skip(s.len() - trail_len(s, CharClass::Two('\r', '\n')))
}

/// The replacement of a comment by `text`, which takes over the line break that
/// the comment ends in. Nothing to emit, or nothing new, is no replacement.
pub open spec fn replacement_of(c: CommentText, text: Seq<char>, src: Seq<char>) -> Option<Splice> {
    let old_text = span(src, c.start_byte, c.end_byte);
    let new_text = text + final_break(old_text);
    if text.len() == 0 || new_text == old_text {
        None
    } else {
        Some(Splice { start: c.start_byte, end: c.end_byte, text: new_text })
    }
}

pub fn make_replacement(c: &Comment, text: &str, source: &str) -> (r: Option<Replacement>)
    requires
        c@.placed(source@),
    ensures
        (match r {
            Some(p) => replacement_of(c@, text@, source@) == Some(p@),
            None => replacement_of(c@, text@, source@) is None,
        }),
{
    if text.is_empty() {
        return None;
    }
    let old_text = slice(source, c.start_byte, c.end_byte);
    let len: usize = old_text.unicode_len();
    let n: usize = count_trail(old_text, CharClass::Two('\r', '\n'));
    let new_text = cat2(text, skip_chars(old_text, len - n));
    if same(new_text.as_str(), old_text) {
        return None;
    }
    Some(Replacement { start: c.start_byte, end: c.end_byte, text: new_text })
}

/// `a` comes no later than `b`: by its start, and then by its end.
pub open spec fn not_after(a: Splice, b: Splice) -> bool {
    a.start < b.start || (a.start == b.start && a.end <= b.end)
}

/// `s` put behind those that do not come after it.
pub open spec fn splice_inserted(v: Seq<Splice>, s: Splice) -> Seq<Splice>
    decreases v.len(),
{
    if v.len() > 0 && !not_after(v.last(), s) {
        splice_inserted(v.drop_last(), s).push(v.last())
    } else {
        v.push(s)
    }
}

/// The first `n` splices in the order of the source; equal ones keep their
/// order.
pub open spec fn ordered(v: Seq<Splice>, n: int) -> Seq<Splice>
    decreases n,
{
    if n <= 0 {
        Seq::empty()
    } else {
        splice_inserted(ordered(v, n - 1), v[n - 1])
    }
}

pub open spec fn in_source_order(v: Seq<Splice>) -> Seq<Splice> {
    ordered(v, v.len() as int)
}

proof fn lemma_splice_inserted_at(v: Seq<Splice>, s: Splice, k: int)
    requires
        0 <= k <= v.len(),
        forall|j: int| k <= j < v.len() ==> !not_after(#[trigger] v[j], s),
        k > 0 ==> not_after(v[k - 1], s),
    ensures
        splice_inserted(v, s) == v.insert(k, s),
    decreases v.len() - k,
{
    if k < v.len() {
        let w = v.drop_last();
        lemma_splice_inserted_at(w, s, k);
        assert(w.insert(k, s).push(v.last()) =~= v.insert(k, s));
    } else {
        assert(v.push(s) =~= v.insert(k, s));
    }
}

fn insert_splice(out: &mut Vec<Replacement>, r: Replacement)
    ensures
        splices(final(out)@) == splice_inserted(splices(old(out)@), r@),
{
    let ghost given = splices(out@);
    let mut k: usize = out.len();
    while k > 0 && (out[k - 1].start > r.start || (out[k - 1].start == r.start && out[k - 1].end
        > r.end))
        invariant
            k <= out.len(),
            given == splices(out@),
            forall|j: int| k <= j < given.len() ==> !not_after(#[trigger] given[j], r@),
        decreases k,
    {
        assert(given[k - 1] == out@[k - 1]@);
        k = k - 1;
    }
    proof {
        if k > 0 {
            assert(given[k - 1] == out@[k - 1]@);
        }
        lemma_splice_inserted_at(given, r@, k as int);
    }
    out.insert(k, r);
    assert(splices(out@) =~= given.insert(k as int, r@));
}

fn sort_splices(reps: &Vec<Replacement>) -> (r: Vec<Replacement>)
    ensures
        splices(r@) == in_source_order(splices(reps@)),
{
    let ghost all = splices(reps@);
    let mut out: Vec<Replacement> = Vec::new();
    let mut i: usize = 0;
    assert(splices(out@) =~= ordered(all, 0));
    while i < reps.len()
        invariant
            i <= reps.len(),
            all == splices(reps@),
            splices(out@) == ordered(all, i as int),
        decreases reps.len() - i,
    {
        let r = Replacement {
            start: reps[i].start,
            end: reps[i].end,
            text: reps[i].text.clone(),
        };
        assert(all[i as int] == r@);
        insert_splice(&mut out, r);
        i = i + 1;
    }
    out
}

/// Every splice covers a stretch of whole characters.
pub open spec fn all_fit(v: Seq<Splice>, src: Seq<char>) -> bool {
    forall|i: int| 0 <= i < v.len() ==> span_ok(src, (#[trigger] v[i]).start, v[i].end)
}

/// No splice starts before the one ahead of it ends.
pub open spec fn disjoint(v: Seq<Splice>) -> bool {
    forall|i: int| 1 <= i < v.len() ==> v[i - 1].end <= (#[trigger] v[i]).start
}

/// The splices can be carried out on the source.
pub open spec fn applicable(v: Seq<Splice>, src: Seq<char>) -> bool {
    all_fit(in_source_order(v), src) && disjoint(in_source_order(v))
}

/// Where the source goes on behind the first `n` splices.
pub open spec fn resume_at(v: Seq<Splice>, n: int) -> int {
    if n <= 0 {
        0
    } else {
        v[n - 1].end
    }
}

/// The rewritten source up to the end of the first `n` splices: what lies
/// between them is kept.
pub open spec fn rewritten_upto(src: Seq<char>, v: Seq<Splice>, n: int) -> Seq<char>
    decreases n,
{
    if n <= 0 {
        Seq::empty()
    } else {
        rewritten_upto(src, v, n - 1) + span(src, resume_at(v, n - 1), v[n - 1].start)
            + v[n - 1].text
    }
}

/// The source with the splices carried out.
pub open spec fn rewritten(src: Seq<char>, v: Seq<Splice>) -> Seq<char> {
    let o = in_source_order(v);
    rewritten_upto(src, o, o.len() as int) + span(
        src,
        resume_at(o, o.len() as int),
        encode_utf8(src).len() as int,
    )
}

/// Carries the replacements out.
pub fn apply(source: &str, reps: &Vec<Replacement>) -> (r: String)
    requires
        applicable(splices(reps@), source@),
    ensures
        r@ == rewritten(source@, splices(reps@)),
{
    let sorted_reps = sort_splices(reps);
    let ghost o = in_source_order(splices(reps@));
    let len: usize = source.as_bytes().len();
    let mut out = String::new();
    let mut pos: usize = 0;
    let mut i: usize = 0;
    proof {
        lemma_source_ends(source@);
        assert(sorted_reps.len() == o.len());
        assert(out@ =~= Seq::<char>::empty());
    }
    while i < sorted_reps.len()
        invariant
            i <= sorted_reps.len() == o.len(),
            o == splices(sorted_reps@),
            all_fit(o, source@),
            disjoint(o),
            len == encode_utf8(source@).len(),
            pos == resume_at(o, i as int),
            pos <= len,
            at_boundary(source@, pos as int),
            at_boundary(source@, len as int),
            out@ == rewritten_upto(source@, o, i as int),
        decreases sorted_reps.len() - i,
    {
        assert(o[i as int] == sorted_reps@[i as int]@);
        assert(span_ok(source@, o[i as int].start, o[i as int].end));
        out.append(slice(source, pos, sorted_reps[i].start));
        out.append(sorted_reps[i].text.as_str());
        pos = sorted_reps[i].end;
        i = i + 1;
    }
    out.append(slice(source, pos, len));
    out
}

/// Why replacements are refused.
#[derive(Debug, Clone, Copy, PartialEq, Eq, Structural)]
pub enum RewriteError {
    /// A replacement is no stretch of whole characters of the source.
    BadSpan,
    /// Two replacements overlap.
    Overlap,
    /// A replacement covers code.
    CoversCode,
    /// Text is put in where no comment moves to.
    StrayInsert,
}

impl RewriteError {
    pub open spec fn message(self) -> Seq<char> {
        match self {
            RewriteError::BadSpan => "replacement range is not inside the source"@,
            RewriteError::Overlap => "replacement ranges overlap"@,
            RewriteError::CoversCode => "replacement range covers bytes outside comments"@,
            RewriteError::StrayInsert => "insertion away from a recorded target"@,
        }
    }

    /// What to tell the user.
    pub fn describe(&self) -> (r: &'static str)
        ensures
            r@ == self.message(),
    {
        match self {
            RewriteError::BadSpan => "replacement range is not inside the source",
            RewriteError::Overlap => "replacement ranges overlap",
            RewriteError::CoversCode => "replacement range covers bytes outside comments",
            RewriteError::StrayInsert => "insertion away from a recorded target",
        }
    }
}

/// Byte `i` belongs to a comment.
pub open spec fn comment_byte(comments: Seq<CommentText>, i: int) -> bool {
    exists|k: int|
        0 <= k < comments.len() && (#[trigger] comments[k]).start_byte <= i < comments[k].end_byte
}

/// A space, a tab, a line feed or a carriage return.
pub open spec fn blank_byte(b: u8) -> bool {
    b == 32 || b == 9 || b == 10 || b == 13
}

/// Byte `i` is code: no white space, and in no comment.
pub open spec fn code_byte(src: Seq<char>, comments: Seq<CommentText>, i: int) -> bool {
    0 <= i < encode_utf8(src).len() && !blank_byte(encode_utf8(src)[i]) && !comment_byte(
        comments,
        i,
    )
}

/// The splice covers a code byte.
pub open spec fn covers_code(s: Splice, src: Seq<char>, comments: Seq<CommentText>) -> bool {
    exists|i: int| s.start <= i < s.end && #[trigger] code_byte(src, comments, i)
}

/// Some comment moves to byte offset `at`.
pub open spec fn is_target(comments: Seq<CommentText>, at: int) -> bool {
    exists|k: int| 0 <= k < comments.len() && moves_to(#[trigger] comments[k], at)
}

pub open spec fn moves_to(c: CommentText, at: int) -> bool {
    (c.relocate_before is Some && c.relocate_before->0 == at) || (c.param_shift is Some
        && c.param_shift->0.insert_at == at)
}

/// The splice puts text in where it covers nothing and no comment moves to.
pub open spec fn stray(s: Splice, comments: Seq<CommentText>) -> bool {
    s.start == s.end && s.text.len() > 0 && !is_target(comments, s.start)
}

/// What is wrong with splice `i` in the order of the source.
pub open spec fn splice_fault(
    o: Seq<Splice>,
    i: int,
    src: Seq<char>,
    comments: Seq<CommentText>,
) -> Option<RewriteError> {
    if !span_ok(src, o[i].start, o[i].end) {
        Some(RewriteError::BadSpan)
    } else if i > 0 && o[i].start < o[i - 1].end {
        Some(RewriteError::Overlap)
    } else if covers_code(o[i], src, comments) {
        Some(RewriteError::CoversCode)
    } else if stray(o[i], comments) {
        Some(RewriteError::StrayInsert)
    } else {
        None
    }
}

/// The first fault from splice `i` on.
pub open spec fn first_fault(
    o: Seq<Splice>,
    i: int,
    src: Seq<char>,
    comments: Seq<CommentText>,
) -> Option<RewriteError>
    decreases o.len() - i,
{
    if i >= o.len() {
        None
    } else if splice_fault(o, i, src, comments) is Some {
        splice_fault(o, i, src, comments)
    } else {
        first_fault(o, i + 1, src, comments)
    }
}

/// What is wrong with the splices, if anything is.
pub open spec fn fault(v: Seq<Splice>, src: Seq<char>, comments: Seq<CommentText>) -> Option<
    RewriteError,
> {
    first_fault(in_source_order(v), 0, src, comments)
}

pub proof fn lemma_no_fault(o: Seq<Splice>, i: int, src: Seq<char>, comments: Seq<CommentText>)
    requires
        0 <= i <= o.len(),
        first_fault(o, i, src, comments) is None,
    ensures
        forall|k: int| i <= k < o.len() ==> splice_fault(o, k, src, comments) is None,
    decreases o.len() - i,
{
    if i < o.len() {
        lemma_no_fault(o, i + 1, src, comments);
    }
}

/// Replacements without fault can be carried out, and none of them covers a
/// code byte.
pub proof fn law_no_code_is_covered(v: Seq<Splice>, src: Seq<char>, comments: Seq<CommentText>)
    requires
        fault(v, src, comments) is None,
    ensures
        applicable(v, src),
        forall|k: int, i: int|
            0 <= k < in_source_order(v).len() && in_source_order(v)[k].start <= i
                < in_source_order(v)[k].end ==> !#[trigger] covered_code(v, src, comments, k, i),
{
    let o = in_source_order(v);
    lemma_no_fault(o, 0, src, comments);
    assert forall|i: int| 0 <= i < o.len() implies span_ok(src, (#[trigger] o[i]).start, o[i].end) by {
        assert(splice_fault(o, i, src, comments) is None);
    }
    assert forall|i: int| 1 <= i < o.len() implies o[i - 1].end <= (#[trigger] o[i]).start by {
        assert(splice_fault(o, i, src, comments) is None);
    }
    assert forall|k: int, i: int|
        0 <= k < o.len() && o[k].start <= i < o[k].end implies !#[trigger] covered_code(
        v,
        src,
        comments,
        k,
        i,
    ) by {
        assert(splice_fault(o, k, src, comments) is None);
        if code_byte(src, comments, i) {
            assert(covers_code(o[k], src, comments));
        }
    }
}

/// Byte `i` is code, and splice `k` in the order of the source covers it.
pub open spec fn covered_code(
    v: Seq<Splice>,
    src: Seq<char>,
    comments: Seq<CommentText>,
    k: int,
    i: int,
) -> bool {
    in_source_order(v)[k].start <= i < in_source_order(v)[k].end && code_byte(src, comments, i)
}

/// Which bytes of the source may be replaced: white space and comments.
fn free_bytes(source: &str, comments: &Vec<Comment>) -> (r: Vec<bool>)
    ensures
        r.len() == encode_utf8(source@).len(),
        forall|i: int|
            0 <= i < r.len() ==> #[trigger] r@[i] == !code_byte(
                source@,
                comment_texts(comments@),
                i,
            ),
{
    let bytes = source.as_bytes();
    let ghost b = encode_utf8(source@);
    let ghost cs = comment_texts(comments@);
    let n: usize = bytes.len();
    let mut free: Vec<bool> = Vec::new();
    let mut i: usize = 0;
    while i < n
        invariant
            i <= n == b.len(),
            bytes@ == b,
            free.len() == i,
            forall|j: int| 0 <= j < i ==> #[trigger] free@[j] == blank_byte(b[j]),
        decreases n - i,
    {
        let x: u8 = bytes[i];
        free.push(x == 32 || x == 9 || x == 10 || x == 13);
        i = i + 1;
    }
    let mut k: usize = 0;
    while k < comments.len()
        invariant
            k <= comments.len(),
            cs == comment_texts(comments@),
            n == b.len(),
            free.len() == n,
            forall|j: int|
                0 <= j < n ==> #[trigger] free@[j] == (blank_byte(b[j]) || comment_byte(
                    cs.take(k as int),
                    j,
                )),
        decreases comments.len() - k,
    {
        let start: usize = comments[k].start_byte;
        let end: usize = comments[k].end_byte;
        assert(cs[k as int] == comments@[k as int]@);
        let ghost before = free@;
        let mut j: usize = start;
        while j < end && j < n
            invariant
                start <= j,
                end < start ==> j == start,
                n == b.len(),
                free.len() == n,
                before.len() == n,
                forall|t: int|
                    0 <= t < n ==> #[trigger] free@[t] == (before[t] || start <= t < j && t < end),
            decreases n - j,
        {
            free.set(j, true);
            j = j + 1;
        }
        proof {
            assert forall|t: int| 0 <= t < n implies #[trigger] free@[t] == (blank_byte(b[t])
                || comment_byte(cs.take(k + 1), t)) by {
                let upto = cs.take(k + 1);
                let less = cs.take(k as int);
                assert(free@[t] == (before[t] || start <= t < end));
                if comment_byte(less, t) {
                    let q = choose|q: int|
                        0 <= q < less.len() && (#[trigger] less[q]).start_byte <= t
                            < less[q].end_byte;
                    assert(upto[q] == less[q]);
                }
                if start <= t < end {
                    assert(upto[k as int] == cs[k as int]);
                }
                if comment_byte(upto, t) {
                    let q = choose|q: int|
                        0 <= q < upto.len() && (#[trigger] upto[q]).start_byte <= t
                            < upto[q].end_byte;
                    if q < k {
                        assert(less[q] == upto[q]);
                    } else {
                        assert(upto[q] == cs[k as int]);
                    }
                }
            }
        }
        k = k + 1;
    }
    assert(cs.take(k as int) =~= cs);
    free
}

fn covers_only_free(free: &Vec<bool>, start: usize, end: usize, Ghost(s): Ghost<Splice>, Ghost(
    src,
): Ghost<Seq<char>>, Ghost(cs): Ghost<Seq<CommentText>>) -> (r: bool)
    requires
        s.start == start,
        s.end == end,
        start <= end <= free.len(),
        free.len() == encode_utf8(src).len(),
        forall|i: int| 0 <= i < free.len() ==> #[trigger] free@[i] == !code_byte(src, cs, i),
    ensures
        r == !covers_code(s, src, cs),
{
    let mut i: usize = start;
    while i < end
        invariant
            start <= i <= end <= free.len(),
            s.start == start,
            s.end == end,
            forall|i: int| 0 <= i < free.len() ==> #[trigger] free@[i] == !code_byte(src, cs, i),
            forall|j: int| start <= j < i ==> !#[trigger] code_byte(src, cs, j),
        decreases end - i,
    {
        if !free[i] {
            assert(code_byte(src, cs, i as int));
            return false;
        }
        assert(free@[i as int]);
        i = i + 1;
    }
    true
}

fn has_target(comments: &Vec<Comment>, at: usize) -> (r: bool)
    ensures
        r == is_target(comment_texts(comments@), at as int),
{
    let ghost cs = comment_texts(comments@);
    let mut k: usize = 0;
    while k < comments.len()
        invariant
            k <= comments.len(),
            cs == comment_texts(comments@),
            forall|j: int| 0 <= j < k ==> !moves_to(#[trigger] cs[j], at as int),
        decreases comments.len() - k,
    {
        assert(cs[k as int] == comments@[k as int]@);
        let c = &comments[k];
        let hit = (match c.relocate_before {
            Some(x) => x == at,
            None => false,
        }) || (match c.param_shift {
            Some(s) => s.insert_at == at,
            None => false,
        });
        if hit {
            return true;
        }
        k = k + 1;
    }
    false
}

/// Checks that replacements cover whole characters, do not overlap, cover no
/// code, and put text in only where a comment moves to.
pub fn validate(reps: &Vec<Replacement>, source: &str, comments: &Vec<Comment>) -> (r: Result<
    (),
    RewriteError,
>)
    ensures
        (match r {
            Ok(_) => fault(splices(reps@), source@, comment_texts(comments@)) is None,
            Err(e) => fault(splices(reps@), source@, comment_texts(comments@)) == Some(e),
        }),
{
    let o_reps = sort_splices(reps);
    let ghost o = in_source_order(splices(reps@));
    let ghost cs = comment_texts(comments@);
    let free = free_bytes(source, comments);
    let len: usize = source.as_bytes().len();
    let mut i: usize = 0;
    assert(o_reps.len() == o.len());
    while i < o_reps.len()
        invariant
            i <= o_reps.len() == o.len(),
            o == splices(o_reps@),
            o == in_source_order(splices(reps@)),
            cs == comment_texts(comments@),
            len == encode_utf8(source@).len(),
            free.len() == len,
            forall|j: int| 0 <= j < free.len() ==> #[trigger] free@[j] == !code_byte(source@, cs, j),
            first_fault(o, 0, source@, cs) == first_fault(o, i as int, source@, cs),
        decreases o_reps.len() - i,
    {
        assert(o[i as int] == o_reps@[i as int]@);
        let start: usize = o_reps[i].start;
        let end: usize = o_reps[i].end;
        if start > end || end > len || !source.is_char_boundary(start) || !source.is_char_boundary(
            end,
        ) {
            return Err(RewriteError::BadSpan);
        }
        if i > 0 {
            assert(o[i - 1] == o_reps@[i - 1]@);
            if start < o_reps[i - 1].end {
                return Err(RewriteError::Overlap);
            }
        }
        if !covers_only_free(
            &free,
            start,
            end,
            Ghost(o[i as int]),
            Ghost(source@),
            Ghost(cs),
        ) {
            return Err(RewriteError::CoversCode);
        }
        if start == end && !o_reps[i].text.as_str().is_empty() && !has_target(comments, start) {
            return Err(RewriteError::StrayInsert);
        }
        i = i + 1;
    }
    Ok(())
}

} // verus!
