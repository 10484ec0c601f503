//! The pieces of prose have words.

use crate::text::{
    in_class, is_white, lead_len, lemma_lead_len_facts, lemma_trail_len_facts, trimmed,
    trimmed_start, words_of, CharClass,
};
use crate::textline::{past_blanks, return_boundary, return_groups, return_pieces};
use vstd::prelude::*;

verus! {

/// A text that trimming leaves something of has words.
pub proof fn lemma_has_words(s: Seq<char>)
    ensures
        (words_of(s).len() > 0) == (trimmed(s).len() > 0),
{
    let t = trimmed_start(s);
    lemma_lead_len_facts(s, CharClass::White);
    lemma_lead_len_facts(t, CharClass::Solid);
    lemma_trail_len_facts(t, CharClass::White);
    if t.len() > 0 {
        assert(!is_white(t[0]));
        assert(lead_len(t, CharClass::Solid) > 0);
        if trimmed(s).len() == 0 {
            assert(in_class(t[0], CharClass::White));
        }
    }
}

pub proof fn lemma_solid_inside(s: Seq<char>, i: int)
    requires
        0 <= i < s.len(),
        !is_white(s[i]),
    ensures
        trimmed(s).len() > 0,
{
    lemma_lead_len_facts(s, CharClass::White);
    let n = lead_len(s, CharClass::White) as int;
    let t = trimmed_start(s);
    if n > i {
        assert(in_class(s[i], CharClass::White));
    }
    assert(t[i - n] == s[i]);
    lemma_trail_len_facts(t, CharClass::White);
    if trimmed(s).len() == 0 {
        assert(in_class(t[i - n], CharClass::White));
    }
}

proof fn lemma_groups_have_text(body: Seq<char>, start: int, i: int)
    requires
        0 <= i <= body.len(),
        0 <= start <= body.len(),
        forall|t: int| i <= t < start ==> in_class(#[trigger] body[t], CharClass::Blank),
    ensures
        forall|k: int|
            0 <= k < return_groups(body, start, i).len() ==> trimmed(
                #[trigger] return_groups(body, start, i)[k],
            ).len() > 0,
    decreases body.len() - i,
{
    let all = return_groups(body, start, i);
    if i >= body.len() {
        let tail = trimmed(body.skip(start));
        crate::second_pass::lemma_trimmed_twice(body.skip(start));
        assert forall|k: int| 0 <= k < all.len() implies trimmed(#[trigger] all[k]).len() > 0 by {
            assert(all[k] == tail);
        }
    } else if return_boundary(body, i) {
        let j = past_blanks(body, i + 1);
        let rest = body.skip(i + 1);
        lemma_lead_len_facts(rest, CharClass::Blank);
        assert(start <= i) by {
            if start > i {
                assert(in_class(body[i], CharClass::Blank));
            }
        }
        assert forall|t: int| i + 1 <= t < j implies in_class(
            #[trigger] body[t],
            CharClass::Blank,
        ) by {
            assert(body[t] == rest[t - i - 1]);
        }
        lemma_groups_have_text(body, j, i + 1);
        let first = body.subrange(start, j);
        assert(first[i - start] == body[i]);
        lemma_solid_inside(first, i - start);
        crate::second_pass::lemma_trimmed_twice(first);
        let others = return_groups(body, j, i + 1);
        assert forall|k: int| 0 <= k < all.len() implies trimmed(#[trigger] all[k]).len() > 0 by {
            if k > 0 {
                assert(all[k] == others[k - 1]);
            }
        }
    } else {
        lemma_groups_have_text(body, start, i + 1);
        assert(all == return_groups(body, start, i + 1));
    }
}

/// Every piece of a text with words has words.
pub proof fn lemma_pieces_have_words(body: Seq<char>)
    requires
        words_of(body).len() > 0,
    ensures
        forall|k: int|
            0 <= k < return_pieces(body).len() ==> words_of(#[trigger] return_pieces(body)[k]).len()
                > 0,
{
    lemma_groups_have_text(body, 0, 0);
    let all = return_pieces(body);
    assert forall|k: int| 0 <= k < all.len() implies words_of(#[trigger] all[k]).len() > 0 by {
        lemma_has_words(all[k]);
    }
}

} // verus!
