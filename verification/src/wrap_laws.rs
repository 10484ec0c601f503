//! What holds of the lines that a paragraph is packed into: none of them reads
//! as something that the words did not say.

use crate::text::{
    all_in, in_class, is_white, lead_len, leads_with, lemma_lead_len, lemma_lead_len_facts,
    lemma_trail_len_facts, trimmed, trimmed_start, CharClass,
};
use crate::textline::{is_bookend, kernel_doc_tag, rule_leads};
use crate::words::{all_words, is_word};
use crate::wrap::{
    colon_pending, keeps, last_usable, lemma_last_usable, lemma_packed_valid, lemma_start_bounds,
    line_body, line_end, line_starts, line_text, lone_kdoc_name, packed, settled, tag_start,
    takes_word, usable, valid_starts,
};
use vstd::prelude::*;

verus! {

/// The line from word `a` to before word `b` opens with a lone `@name` and its
/// colon.
pub open spec fn forged(words: Seq<Seq<char>>, a: int, b: int) -> bool {
    a + 1 < b && lone_kdoc_name(words[a]) && leads_with(words[a + 1], CharClass::One(':'))
}

/// The lines behind the first open with no tag and forge none.
spec fn openings_ok(words: Seq<Seq<char>>, starts: Seq<int>, n: int) -> bool {
    forall|j: int| #![trigger starts[j]]
        1 <= j < starts.len() ==> !tag_start(words[starts[j]]) && !forged(
            words,
            starts[j],
            if j + 1 < starts.len() {
                starts[j + 1]
            } else {
                n
            },
        )
}

/// No line but the last reads as decoration.
spec fn inner_ok(words: Seq<Seq<char>>, starts: Seq<int>) -> bool {
    forall|j: int| #![trigger starts[j]]
        0 <= j < starts.len() - 1 ==> !is_bookend(line_text(words, starts[j], starts[j + 1]))
}

/// A line starts with its first word.
proof fn lemma_line_opens(words: Seq<Seq<char>>, a: int, b: int)
    requires
        all_words(words),
        0 <= a < b <= words.len(),
    ensures
        ({
            let line = line_text(words, a, b);
            &&& line.len() >= words[a].len()
            &&& forall|i: int| 0 <= i < words[a].len() ==> #[trigger] line[i] == words[a][i]
            &&& a + 1 == b ==> line == words[a]
            &&& a + 1 < b ==> line.len() > words[a].len() + 1 && line[words[a].len() as int] == ' '
                && line[words[a].len() as int + 1] == words[a + 1][0]
        }),
    decreases b - a,
{
    reveal_strlit(" ");
    let part = words.subrange(a, b);
    let line = line_text(words, a, b);
    assert(is_word(words[a]));
    if a + 1 == b {
        assert(part[0] == words[a]);
    } else {
        lemma_line_opens(words, a, b - 1);
        assert(part.drop_last() =~= words.subrange(a, b - 1));
        assert(is_word(words[b - 1]));
        assert(is_word(words[a + 1]));
        let head = line_text(words, a, b - 1);
        assert(line == head + " "@ + words[b - 1]);
        assert forall|i: int| 0 <= i < words[a].len() implies #[trigger] line[i] == words[a][i] by {
            assert(line[i] == head[i]);
        }
        if a + 2 == b {
            assert(head == words[a]);
        } else {
            assert(line[words[a].len() as int] == head[words[a].len() as int]);
            assert(line[words[a].len() as int + 1] == head[words[a].len() as int + 1]);
        }
    }
}

/// Decoration opens with a rule character.
proof fn lemma_bookend_opens(s: Seq<char>)
    requires
        is_bookend(s),
        s.len() > 0,
        !is_white(s[0]),
    ensures
        in_class(s[0], CharClass::Rule),
{
    lemma_lead_len(s, CharClass::White, 0);
    assert(trimmed_start(s) =~= s);
    let t = trimmed(s);
    lemma_trail_len_facts(s, CharClass::White);
    if all_in(t, CharClass::Rule) {
        assert(in_class(t[0], CharClass::Rule));
    } else {
        lemma_lead_len_facts(t, CharClass::Rule);
        assert(rule_leads(t));
        assert(in_class(t[0], CharClass::Rule));
    }
    assert(t[0] == s[0]);
}

/// A line that reads as decoration opens with a word that starts with a rule
/// character.
proof fn lemma_bookend_line(words: Seq<Seq<char>>, a: int, b: int)
    requires
        all_words(words),
        0 <= a < b <= words.len(),
        is_bookend(line_text(words, a, b)),
    ensures
        in_class(words[a][0], CharClass::Rule),
{
    lemma_line_opens(words, a, b);
    assert(is_word(words[a]));
    let line = line_text(words, a, b);
    assert(line[0] == words[a][0]);
    assert(in_class(words[a][0], CharClass::Solid));
    lemma_bookend_opens(line);
}

/// A line is a kernel-doc tag line when its first word is one by itself, or when
/// it opens with a lone name and a colon.
proof fn lemma_tag_line(words: Seq<Seq<char>>, a: int, b: int)
    requires
        all_words(words),
        0 <= a < b <= words.len(),
    ensures
        kernel_doc_tag(line_text(words, a, b)) <==> kernel_doc_tag(words[a]) || forged(
            words,
            a,
            b,
        ),
{
    lemma_line_opens(words, a, b);
    let line = line_text(words, a, b);
    let w = words[a];
    assert(is_word(w));
    if a + 1 == b {
        lemma_one_word_line(words, a);
    } else {
        assert(is_word(words[a + 1]));
        let rest = line.skip(1);
        let own = w.skip(1);
        let n = lead_len(own, CharClass::Word) as int;
        lemma_lead_len_facts(own, CharClass::Word);
        assert forall|i: int| 0 <= i < n implies in_class(#[trigger] rest[i], CharClass::Word) by {
            assert(rest[i] == line[i + 1]);
            assert(own[i] == w[i + 1]);
        }
        if n < own.len() {
            assert(rest[n] == own[n]);
            assert(line[n + 1] == w[n + 1]);
        } else {
            assert(rest[n] == line[w.len() as int]);
        }
        lemma_lead_len(rest, CharClass::Word, n);
        if n < own.len() {
            let tail = rest.skip(n);
            let own_tail = own.skip(n);
            assert(tail[0] == own_tail[0]);
            assert(own_tail[0] == w[n + 1]);
            assert(in_class(w[n + 1], CharClass::Solid));
            lemma_lead_len(tail, CharClass::White, 0);
            lemma_lead_len(own_tail, CharClass::White, 0);
            assert(trimmed_start(tail) =~= tail);
            assert(trimmed_start(own_tail) =~= own_tail);
            assert(!all_in(own, CharClass::Word)) by {
                assert(!in_class(own[n], CharClass::Word));
            }
            assert(w.skip(1) == own);
        } else {
            let tail = rest.skip(n);
            assert(tail[0] == ' ');
            assert(tail[1] == words[a + 1][0]);
            assert(in_class(words[a + 1][0], CharClass::Solid));
            lemma_lead_len(tail, CharClass::White, 1);
            assert(trimmed_start(tail)[0] == words[a + 1][0]);
            let none = own.skip(n);
            assert(none.len() == 0);
            lemma_lead_len(none, CharClass::White, 0);
            assert(trimmed_start(none).len() == 0);
            assert(all_in(own, CharClass::Word)) by {
                assert forall|i: int| 0 <= i < own.len() implies in_class(
                    #[trigger] own[i],
                    CharClass::Word,
                ) by {}
            }
        }
    }
}

proof fn lemma_one_word_line(words: Seq<Seq<char>>, a: int)
    requires
        all_words(words),
        0 <= a < words.len(),
    ensures
        line_text(words, a, a + 1) == words[a],
{
    lemma_line_opens(words, a, a + 1);
}

proof fn lemma_packed_ok(words: Seq<Seq<char>>, n: int, effective: nat, hang: nat)
    requires
        all_words(words),
        1 <= n <= words.len(),
    ensures
        inner_ok(words, packed(words, n, effective, hang).starts),
        openings_ok(words, packed(words, n, effective, hang).starts, n),
    decreases n,
{
    if n > 1 {
        let i = n - 1;
        lemma_packed_ok(words, i, effective, hang);
        lemma_packed_valid(words, i, effective, hang);
        let p = packed(words, i, effective, hang);
        let q = packed(words, n, effective, hang);
        let s = p.starts;
        let m = s.len() as int;
        let start = s.last();
        lemma_start_bounds(s, i, m - 1);
        assert(s[m - 1] == start);
        if q.starts == s {
            assert forall|j: int| 1 <= j < m implies !tag_start(words[#[trigger] s[j]]) && !forged(
                words,
                s[j],
                if j + 1 < m {
                    s[j + 1]
                } else {
                    n
                },
            ) by {
                if j == m - 1 && forged(words, start, n) {
                    if i > start + 1 {
                        assert(forged(words, start, i));
                    } else {
                        assert(i == start + 1);
                        assert(colon_pending(words, p, i));
                        lemma_one_word_line(words, start);
                        if is_bookend(line_text(words, start, i)) {
                            lemma_bookend_line(words, start, i);
                        }
                        assert(!takes_word(words, p, i, effective, hang));
                        assert(tag_start(words[i]));
                    }
                }
            }
        } else {
            let k = q.starts.last();
            assert(q.starts == s.push(k));
            assert forall|j: int| 0 <= j < q.starts.len() - 1 implies !is_bookend(
                line_text(words, #[trigger] q.starts[j], q.starts[j + 1]),
            ) by {
                if j < m - 1 {
                    assert(q.starts[j] == s[j] && q.starts[j + 1] == s[j + 1]);
                    assert(!is_bookend(line_text(words, s[j], s[j + 1])));
                }
            }
            assert forall|j: int| 1 <= j < q.starts.len() implies !tag_start(
                words[#[trigger] q.starts[j]],
            ) && !forged(
                words,
                q.starts[j],
                if j + 1 < q.starts.len() {
                    q.starts[j + 1]
                } else {
                    n
                },
            ) by {
                if j < m {
                    assert(q.starts[j] == s[j]);
                    assert(!tag_start(words[s[j]]));
                    if j == m - 1 && forged(words, s[j], k) {
                        assert(forged(words, s[j], i));
                    }
                }
            }
        }
    }
}

/// What holds of the lines of a paragraph of `n` words that start at `starts`.
pub open spec fn lines_read_well(words: Seq<Seq<char>>, starts: Seq<int>) -> bool {
    let n = words.len() as int;
    let m = starts.len() as int;
    &&& forall|j: int|
        0 <= j < m - 1 ==> !is_bookend(#[trigger] line_body(words, starts, j))
    &&& forall|j: int|
        1 <= j < m ==> !kernel_doc_tag(#[trigger] line_body(words, starts, j)) && !tag_start(
            words[starts[j]],
        )
    &&& m >= 2 && is_bookend(line_body(words, starts, m - 1)) ==> is_bookend(
        line_text(words, starts[m - 2], n),
    )
}

proof fn lemma_reads_well(words: Seq<Seq<char>>, starts: Seq<int>)
    requires
        all_words(words),
        valid_starts(starts, words.len() as int),
        inner_ok(words, starts),
        openings_ok(words, starts, words.len() as int),
        starts.len() >= 2 && is_bookend(line_text(words, starts.last(), words.len() as int))
            ==> is_bookend(line_text(words, starts[starts.len() - 2], words.len() as int)),
    ensures
        lines_read_well(words, starts),
{
    let n = words.len() as int;
    let m = starts.len() as int;
    assert forall|j: int| 0 <= j < m - 1 implies !is_bookend(
        #[trigger] line_body(words, starts, j),
    ) by {
        assert(!is_bookend(line_text(words, starts[j], starts[j + 1])));
    }
    assert forall|j: int| 1 <= j < m implies !kernel_doc_tag(
        #[trigger] line_body(words, starts, j),
    ) && !tag_start(words[starts[j]]) by {
        lemma_start_bounds(starts, n, j);
        if j + 1 < m {
            lemma_start_bounds(starts, n, j + 1);
            assert(starts[j] < starts[j + 1]);
        }
        lemma_tag_line(words, starts[j], line_end(words, starts, j));
        assert(!tag_start(words[starts[j]]));
        if kernel_doc_tag(words[starts[j]]) {
            assert(leads_with(words[starts[j]], CharClass::Two('@', '\\')));
        }
    }
}

proof fn lemma_settled_ok(words: Seq<Seq<char>>, s: Seq<int>)
    requires
        all_words(words),
        valid_starts(s, words.len() as int),
        inner_ok(words, s),
        openings_ok(words, s, words.len() as int),
    ensures
        inner_ok(words, settled(words, s)),
        openings_ok(words, settled(words, s), words.len() as int),
        ({
            let r = settled(words, s);
            r.len() >= 2 && is_bookend(line_text(words, r.last(), words.len() as int))
                ==> is_bookend(line_text(words, r[r.len() - 2], words.len() as int))
        }),
{
    let n = words.len() as int;
    let m = s.len() as int;
    let r = settled(words, s);
    if m >= 2 && is_bookend(line_text(words, s.last(), n)) {
        let last = s[m - 1];
        let low = s[m - 2];
        lemma_start_bounds(s, n, m - 1);
        lemma_start_bounds(s, n, m - 2);
        assert(s[m - 2] < s[m - 2 + 1]);
        lemma_bookend_line(words, last, n);
        lemma_last_usable(words, s, low, last - 1);
        let k = last_usable(words, s, low, last - 1);
        if k > low {
            assert(usable(words, s, k));
            let kept = if keeps(words, s, k) {
                m - 1
            } else {
                m - 2
            };
            assert(r =~= s.take(kept).push(k));
            if kept == m - 2 {
                lemma_bookend_line(words, low, k);
            }
            lemma_tag_line(words, k, last);
            assert forall|j: int| 0 <= j < r.len() - 1 implies !is_bookend(
                line_text(words, #[trigger] r[j], r[j + 1]),
            ) by {
                assert(r[j] == s[j]);
                if j + 1 < kept {
                    assert(r[j + 1] == s[j + 1]);
                    assert(!is_bookend(line_text(words, s[j], s[j + 1])));
                } else {
                    assert(j == kept - 1);
                }
            }
            assert forall|j: int| 1 <= j < r.len() implies !tag_start(words[#[trigger] r[j]])
                && !forged(
                words,
                r[j],
                if j + 1 < r.len() {
                    r[j + 1]
                } else {
                    n
                },
            ) by {
                if j < kept {
                    assert(r[j] == s[j]);
                    assert(!tag_start(words[s[j]]));
                    if j + 1 < kept {
                        assert(r[j + 1] == s[j + 1]);
                    } else if forged(words, s[j], k) {
                        if kept == m - 1 {
                            assert(forged(words, s[j], s[j + 1]));
                        } else {
                            assert(s[j + 1] == low);
                            assert(s[j] < s[j + 1]);
                            if s[j] + 1 < low {
                                assert(forged(words, s[j], s[j + 1]));
                            } else {
                                assert(in_class(words[low][0], CharClass::Rule));
                            }
                        }
                    }
                } else {
                    assert(r[j] == k);
                    if forged(words, k, n) {
                        if k + 1 < last {
                            assert(forged(words, k, last));
                        } else {
                            assert(words[k + 1] == words[last]);
                        }
                    }
                }
            }
        } else if !is_bookend(line_text(words, low, n)) {
            assert(r =~= s.take(m - 1));
            assert forall|j: int| 0 <= j < r.len() - 1 implies !is_bookend(
                line_text(words, #[trigger] r[j], r[j + 1]),
            ) by {
                assert(!is_bookend(line_text(words, s[j], s[j + 1])));
            }
            assert forall|j: int| 1 <= j < r.len() implies !tag_start(words[#[trigger] r[j]])
                && !forged(
                words,
                r[j],
                if j + 1 < r.len() {
                    r[j + 1]
                } else {
                    n
                },
            ) by {
                assert(r[j] == s[j]);
                assert(!tag_start(words[s[j]]));
                if j == m - 2 && forged(words, low, n) {
                    if low + 1 < last {
                        assert(forged(words, low, last));
                    }
                }
            }
        }
    }
}

/// The lines of a wrapped paragraph read as what they are. No line but the last
/// reads as decoration, and the last one does only where joining it to the line
/// above would read so too, or where it is the only line. No line behind the
/// first opens with a tag or reads as a kernel-doc tag line.
pub proof fn law_lines_read_well(words: Seq<Seq<char>>, effective: nat, hang: nat)
    requires
        words.len() > 0,
        all_words(words),
    ensures
        lines_read_well(words, line_starts(words, effective, hang)),
{
    let n = words.len() as int;
    let rough = packed(words, n, effective, hang).starts;
    lemma_packed_ok(words, n, effective, hang);
    lemma_packed_valid(words, n, effective, hang);
    lemma_settled_ok(words, rough);
    crate::wrap::law_lines_partition_words(words, effective, hang);
    lemma_reads_well(words, line_starts(words, effective, hang));
}

} // verus!
