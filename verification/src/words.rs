//! How the words of a text follow from the words of its parts.

use crate::reflow::spaces_collapsed;
use crate::text::{
    all_in, in_class, is_white, joined, lead_len, lemma_lead_len, lemma_lead_len_facts,
    lemma_trail_len_facts, lemma_words_step, trail_len, trimmed, trimmed_end, trimmed_start,
    words_of, CharClass,
};
use vstd::prelude::*;

verus! {

/// A word: some characters, and no white space.
pub open spec fn is_word(w: Seq<char>) -> bool {
    w.len() > 0 && all_in(w, CharClass::Solid)
}

pub open spec fn all_words(ws: Seq<Seq<char>>) -> bool {
    forall|i: int| 0 <= i < ws.len() ==> is_word(#[trigger] ws[i])
}

/// The words of the first `n` texts, in order.
pub open spec fn flat_words(texts: Seq<Seq<char>>, n: int) -> Seq<Seq<char>>
    decreases n,
{
    if n <= 0 {
        Seq::empty()
    } else {
        flat_words(texts, n - 1) + words_of(texts[n - 1])
    }
}

/// The words of all texts, in order.
pub open spec fn all_words_of(texts: Seq<Seq<char>>) -> Seq<Seq<char>> {
    flat_words(texts, texts.len() as int)
}

/// White space in front of a text adds no word.
pub proof fn lemma_white_front(a: Seq<char>, b: Seq<char>)
    requires
        all_in(a, CharClass::White),
    ensures
        words_of(a + b) == words_of(b),
        trimmed_start(a + b) == trimmed_start(b),
{
    let n = lead_len(b, CharClass::White) as int;
    lemma_lead_len_facts(b, CharClass::White);
    let s = a + b;
    assert forall|i: int| 0 <= i < a.len() + n implies in_class(#[trigger] s[i], CharClass::White) by {
        if i < a.len() {
            assert(s[i] == a[i]);
        } else {
            assert(s[i] == b[i - a.len()]);
        }
    }
    if n < b.len() {
        assert(s[a.len() + n] == b[n]);
    }
    lemma_lead_len(s, CharClass::White, a.len() + n);
    assert(trimmed_start(s) =~= trimmed_start(b));
}

/// The first word and what follows it.
pub proof fn lemma_first_word(word: Seq<char>, rest: Seq<char>)
    requires
        is_word(word),
        rest.len() == 0 || is_white(rest[0]),
    ensures
        words_of(word + rest) == seq![word] + words_of(rest),
{
    let s = word + rest;
    assert(s[0] == word[0]);
    assert(in_class(word[0], CharClass::Solid));
    lemma_lead_len(s, CharClass::White, 0);
    assert(trimmed_start(s) =~= s);
    assert forall|i: int| 0 <= i < word.len() implies in_class(#[trigger] s[i], CharClass::Solid) by {
        assert(s[i] == word[i]);
    }
    if rest.len() > 0 {
        assert(s[word.len() as int] == rest[0]);
    }
    lemma_lead_len(s, CharClass::Solid, word.len() as int);
    assert(s.take(word.len() as int) =~= word);
    assert(s.skip(word.len() as int) =~= rest);
}

/// White space in the middle keeps the words of both sides apart.
pub proof fn lemma_words_apart(a: Seq<char>, w: char, b: Seq<char>)
    requires
        is_white(w),
    ensures
        words_of(a + seq![w] + b) == words_of(a) + words_of(b),
    decreases a.len(),
{
    let t = trimmed_start(a);
    let n = lead_len(a, CharClass::White) as int;
    lemma_lead_len_facts(a, CharClass::White);
    lemma_words_step(a);
    let front = a.take(n);
    assert(all_in(front, CharClass::White)) by {
        assert forall|i: int| 0 <= i < front.len() implies in_class(
            #[trigger] front[i],
            CharClass::White,
        ) by {
            assert(front[i] == a[i]);
        }
    }
    if t.len() == 0 {
        let all = front + seq![w];
        assert(all_in(all, CharClass::White)) by {
            assert forall|i: int| 0 <= i < all.len() implies in_class(
                #[trigger] all[i],
                CharClass::White,
            ) by {
                if i < front.len() {
                    assert(all[i] == front[i]);
                }
            }
        }
        lemma_white_front(all, b);
        assert(a + seq![w] + b =~= all + b);
        assert(words_of(a) + words_of(b) =~= words_of(b));
    } else {
        let m = lead_len(t, CharClass::Solid) as int;
        lemma_lead_len_facts(t, CharClass::Solid);
        let word = t.take(m);
        let rest = t.skip(m);
        assert(is_word(word)) by {
            assert forall|i: int| 0 <= i < word.len() implies in_class(
                #[trigger] word[i],
                CharClass::Solid,
            ) by {
                assert(word[i] == t[i]);
            }
        }
        if rest.len() > 0 {
            assert(rest[0] == t[m]);
        }
        let tail = rest + seq![w] + b;
        assert(tail[0] == if rest.len() > 0 { rest[0] } else { w });
        lemma_first_word(word, tail);
        lemma_words_apart(rest, w, b);
        lemma_white_front(front, word + tail);
        assert(a + seq![w] + b =~= front + (word + tail));
        assert(words_of(a) =~= seq![word] + words_of(rest));
        assert(words_of(a + seq![w] + b) =~= words_of(a) + words_of(b));
    }
}

/// A word alone is its only word.
pub proof fn lemma_one_word(w: Seq<char>)
    requires
        is_word(w),
    ensures
        words_of(w) == seq![w],
{
    lemma_first_word(w, Seq::empty());
    assert(w + Seq::<char>::empty() =~= w);
    assert(words_of(Seq::<char>::empty()) =~= Seq::<Seq<char>>::empty()) by {
        lemma_words_step(Seq::<char>::empty());
    }
    assert(seq![w] + words_of(Seq::<char>::empty()) =~= seq![w]);
}

pub proof fn lemma_no_words(s: Seq<char>)
    requires
        all_in(s, CharClass::White),
    ensures
        words_of(s) == Seq::<Seq<char>>::empty(),
{
    lemma_white_front(s, Seq::empty());
    assert(s + Seq::<char>::empty() =~= s);
    lemma_words_step(Seq::<char>::empty());
    assert(words_of(s) =~= Seq::<Seq<char>>::empty());
}

/// White space behind a text adds no word.
pub proof fn lemma_white_back(a: Seq<char>, b: Seq<char>)
    requires
        all_in(b, CharClass::White),
    ensures
        words_of(a + b) == words_of(a),
{
    if b.len() == 0 {
        assert(a + b =~= a);
    } else {
        let rest = b.skip(1);
        assert(in_class(b[0], CharClass::White));
        assert(all_in(rest, CharClass::White)) by {
            assert forall|i: int| 0 <= i < rest.len() implies in_class(
                #[trigger] rest[i],
                CharClass::White,
            ) by {
                assert(rest[i] == b[i + 1]);
                assert(in_class(b[i + 1], CharClass::White));
            }
        }
        lemma_words_apart(a, b[0], rest);
        lemma_no_words(rest);
        assert(a + b =~= a + seq![b[0]] + rest);
        assert(words_of(a) + words_of(rest) =~= words_of(a));
    }
}

/// Trimming keeps the words.
pub proof fn lemma_words_trimmed(s: Seq<char>)
    ensures
        words_of(trimmed(s)) == words_of(s),
        words_of(trimmed_end(s)) == words_of(s),
        words_of(trimmed_start(s)) == words_of(s),
{
    let n = lead_len(s, CharClass::White) as int;
    lemma_lead_len_facts(s, CharClass::White);
    let front = s.take(n);
    assert(all_in(front, CharClass::White)) by {
        assert forall|i: int| 0 <= i < front.len() implies in_class(
            #[trigger] front[i],
            CharClass::White,
        ) by {
            assert(front[i] == s[i]);
        }
    }
    let t = trimmed_start(s);
    assert(s =~= front + t);
    lemma_white_front(front, t);
    lemma_words_end(s);
    lemma_words_end(t);
}

proof fn lemma_words_end(s: Seq<char>)
    ensures
        words_of(trimmed_end(s)) == words_of(s),
{
    let n = trail_len(s, CharClass::White) as int;
    lemma_trail_len_facts(s, CharClass::White);
    let back = s.skip(s.len() - n);
    assert(all_in(back, CharClass::White)) by {
        assert forall|i: int| 0 <= i < back.len() implies in_class(
            #[trigger] back[i],
            CharClass::White,
        ) by {
            assert(back[i] == s[s.len() - n + i]);
        }
    }
    assert(s =~= trimmed_end(s) + back);
    lemma_white_back(trimmed_end(s), back);
}

/// The words of a text are words.
pub proof fn lemma_words_are_words(s: Seq<char>)
    ensures
        all_words(words_of(s)),
    decreases s.len(),
{
    lemma_words_step(s);
    lemma_lead_len_facts(s, CharClass::White);
    let t = trimmed_start(s);
    if t.len() > 0 {
        let m = lead_len(t, CharClass::Solid) as int;
        lemma_lead_len_facts(t, CharClass::Solid);
        let word = t.take(m);
        assert forall|i: int| 0 <= i < word.len() implies in_class(
            #[trigger] word[i],
            CharClass::Solid,
        ) by {
            assert(word[i] == t[i]);
        }
        lemma_words_are_words(t.skip(m));
        let rest = words_of(t.skip(m));
        let all = words_of(s);
        assert forall|i: int| 0 <= i < all.len() implies is_word(#[trigger] all[i]) by {
            if i > 0 {
                assert(all[i] == rest[i - 1]);
            }
        }
    }
}

/// Words set apart by one space are the words of what they make.
pub proof fn lemma_words_joined(ws: Seq<Seq<char>>)
    requires
        all_words(ws),
    ensures
        words_of(joined(ws, " "@)) == ws,
    decreases ws.len(),
{
    reveal_strlit(" ");
    assert(" "@ =~= seq![' ']);
    if ws.len() == 0 {
        lemma_no_words(Seq::empty());
        assert(words_of(joined(ws, " "@)) =~= ws);
    } else if ws.len() == 1 {
        lemma_one_word(ws[0]);
        assert(ws =~= seq![ws[0]]);
    } else {
        let head = ws.drop_last();
        assert(all_words(head)) by {
            assert forall|i: int| 0 <= i < head.len() implies is_word(#[trigger] head[i]) by {
                assert(is_word(ws[i]));
            }
        }
        lemma_words_joined(head);
        assert(is_word(ws[ws.len() - 1]));
        lemma_one_word(ws.last());
        lemma_words_apart(joined(head, " "@), ' ', ws.last());
        assert(head + seq![ws.last()] =~= ws);
    }
}

/// `s` is empty or ends in white space.
pub open spec fn ends_white(s: Seq<char>) -> bool {
    s.len() == 0 || is_white(s.last())
}

/// The words behind which one more solid character has been written.
pub open spec fn words_pushed(ws: Seq<Seq<char>>, fresh: bool, c: char) -> Seq<Seq<char>> {
    if fresh {
        ws.push(seq![c])
    } else {
        ws.drop_last().push(ws.last().push(c))
    }
}

/// A solid character opens a new word behind white space, and else goes on with
/// the last one.
proof fn lemma_words_push(s: Seq<char>, c: char)
    requires
        !is_white(c),
    ensures
        words_of(s.push(c)) == words_pushed(words_of(s), ends_white(s), c),
        !ends_white(s) ==> words_of(s).len() > 0,
{
    let one = seq![c];
    assert(is_word(one));
    lemma_one_word(one);
    if s.len() == 0 {
        assert(s.push(c) =~= one);
        lemma_no_words(s);
        assert(words_of(s).push(one) =~= seq![one]);
    } else if is_white(s.last()) {
        let head = s.drop_last();
        lemma_words_apart(head, s.last(), one);
        lemma_words_apart(head, s.last(), Seq::empty());
        lemma_no_words(Seq::empty());
        assert(s.push(c) =~= head + seq![s.last()] + one);
        assert(s =~= head + seq![s.last()] + Seq::<char>::empty());
        assert(words_of(s) =~= words_of(head));
        assert(words_of(s.push(c)) =~= words_of(s).push(one));
    } else {
        let n = trail_len(s, CharClass::Solid) as int;
        lemma_trail_len_facts(s, CharClass::Solid);
        if n == 0 {
            assert(!in_class(s[s.len() - 1], CharClass::Solid));
        }
        let word = s.skip(s.len() - n);
        let longer = word.push(c);
        assert(is_word(word)) by {
            assert forall|i: int| 0 <= i < word.len() implies in_class(
                #[trigger] word[i],
                CharClass::Solid,
            ) by {
                assert(word[i] == s[s.len() - n + i]);
            }
        }
        assert(is_word(longer)) by {
            assert forall|i: int| 0 <= i < longer.len() implies in_class(
                #[trigger] longer[i],
                CharClass::Solid,
            ) by {
                if i < word.len() {
                    assert(longer[i] == word[i]);
                }
            }
        }
        lemma_one_word(word);
        lemma_one_word(longer);
        if n == s.len() {
            assert(s =~= word);
            assert(s.push(c) =~= longer);
            assert(words_of(s).drop_last().push(longer) =~= seq![longer]);
        } else {
            let gap = s[s.len() - n - 1];
            let head = s.take(s.len() - n - 1);
            lemma_words_apart(head, gap, word);
            lemma_words_apart(head, gap, longer);
            assert(s =~= head + seq![gap] + word);
            assert(s.push(c) =~= head + seq![gap] + longer);
            assert(words_of(s).drop_last() =~= words_of(head));
            assert(words_of(s.push(c)) =~= words_of(s).drop_last().push(longer));
        }
    }
}

proof fn lemma_words_push_white(s: Seq<char>, w: char)
    requires
        is_white(w),
    ensures
        words_of(s.push(w)) == words_of(s),
{
    let back = seq![w];
    assert(s.push(w) =~= s + back);
    lemma_white_back(s, back);
}

/// Collapsing blanks keeps the words.
pub proof fn lemma_words_collapsed(s: Seq<char>)
    ensures
        words_of(spaces_collapsed(s)) == words_of(s),
        ends_white(spaces_collapsed(s)) == ends_white(s),
    decreases s.len(),
{
    if s.len() > 0 {
        let head = s.drop_last();
        lemma_words_collapsed(head);
        let c = s.last();
        let r = spaces_collapsed(head);
        assert(s =~= head.push(c));
        if !in_class(c, CharClass::Blank) {
            if is_white(c) {
                lemma_words_push_white(head, c);
                lemma_words_push_white(r, c);
            } else {
                lemma_words_push(head, c);
                lemma_words_push(r, c);
            }
        } else {
            lemma_words_push_white(head, c);
            if s.len() > 1 && in_class(s[s.len() - 2], CharClass::Blank) {
                assert(head.last() == s[s.len() - 2]);
                assert(ends_white(head));
                lemma_collapsed_len(head);
            } else {
                lemma_words_push_white(r, ' ');
            }
        }
    }
}

proof fn lemma_collapsed_len(s: Seq<char>)
    ensures
        spaces_collapsed(s).len() > 0 <==> s.len() > 0,
    decreases s.len(),
{
    if s.len() > 0 {
        lemma_collapsed_len(s.drop_last());
        if s.len() > 1 {
            assert(spaces_collapsed(s.drop_last()).len() > 0);
        }
    }
}

} // verus!
