//! Doxygen parameter and return blocks come out in kernel-doc form.

use crate::classify::kind_of;
use crate::comment::CommentText;
use crate::final_form::first_doc;
use crate::kdoc::{
    any_blocks, blocks, declared_names, emitted, foreign_tag, good_entries, good_entry,
    hoists_return, kdoc_name, kernel_doc, keyword_tag, line_blocks, made_line, opens_region,
    param_lines, param_xref, region_start, region_words, return_lines, return_split, returned_lines,
    scan_words, scanned, word_tag, xref_name, EntryText, KTag, Scan,
};
use crate::language::Language;
use crate::laws::law_return_split_keeps_words;
use crate::linekind::tag_shape;
use crate::normalize::{LineKind, LineText};
use crate::pieces::lemma_pieces_have_words;
use crate::text::{before_trail, in_class, joined, lemma_trail_len, words_of, CharClass};
use crate::textline::return_pieces;
use crate::words::{all_words, flat_words, is_word, lemma_words_are_words, lemma_words_joined};
use vstd::prelude::*;

verus! {

/// The word is one of the Doxygen tags for a parameter, in either spelling and with or
/// without a direction.
pub open spec fn opens_param(w: Seq<char>) -> bool {
    &&& w.len() > 0
    &&& w[0] == '@' || w[0] == '\\'
    &&& {
        ||| w.skip(1) == "param"@
        ||| w.skip(1) == "param[in]"@
        ||| w.skip(1) == "param[out]"@
        ||| w.skip(1) == "param[in,out]"@
    }
}

/// The word is one of the Doxygen tags for the returned value.
pub open spec fn opens_return(w: Seq<char>) -> bool {
    &&& w.len() > 0
    &&& w[0] == '@' || w[0] == '\\'
    &&& w.skip(1) == "return"@ || w.skip(1) == "returns"@
}

/// A name: letters, digits and underscores of ASCII.
pub open spec fn is_name(s: Seq<char>) -> bool {
    &&& s.len() > 0
    &&& forall|i: int|
        0 <= i < s.len() ==> 'a' <= #[trigger] s[i] <= 'z' || 'A' <= s[i] <= 'Z' || '0' <= s[i]
            <= '9' || s[i] == '_'
}

/// A tag of a block, with the words behind it.
pub ghost struct Tagged {
    pub tag: Seq<char>,
    pub words: Seq<Seq<char>>,
}

/// The words of the entries from `k` on.
pub open spec fn spoken_from(es: Seq<Tagged>, k: int) -> Seq<Seq<char>>
    decreases es.len() - k,
{
    if k >= es.len() || k < 0 {
        Seq::empty()
    } else {
        seq![es[k].tag] + es[k].words + spoken_from(es, k + 1)
    }
}

/// The word refers to a parameter of one of the entries: its name behind a marker.
pub open spec fn refers(w: Seq<char>, es: Seq<Tagged>) -> bool {
    let name = w.skip(1);
    &&& w.len() > 1
    &&& w[0] == '@' || (w[0] == '\\' && w.len() > 2)
    &&& is_name(name)
    &&& !('0' <= name[0] <= '9')
    &&& tag_shape(name) is None
    &&& exists|k: int|
        0 <= k < es.len() && opens_param((#[trigger] es[k]).tag) && es[k].words.len() > 0
            && es[k].words[0] == name
}

/// The word is no tag of any kind: it does not start with a marker, or it refers to one of
/// the parameters.
pub open spec fn is_no_tag(w: Seq<char>, es: Seq<Tagged>) -> bool {
    w.len() > 0 && (w[0] != '@' && w[0] != '\\' || refers(w, es))
}

/// An entry that can be converted: a parameter with a name, which is no keyword itself, or
/// a returned value, and behind it words that are no tags.
pub open spec fn converts(e: Tagged, es: Seq<Tagged>) -> bool {
    &&& opens_param(e.tag) || opens_return(e.tag)
    &&& opens_param(e.tag) ==> e.words.len() > 0 && is_name(e.words[0]) && e.words[0] != "param"@
        && e.words[0] != "return"@ && e.words[0] != "returns"@
    &&& forall|i: int| 0 <= i < e.words.len() ==> is_no_tag(#[trigger] e.words[i], es)
}

/// The lines hold a description of `first` lines without a tag, and behind it the entries:
/// the first of them opens the line, and one that follows a blank line opens its line too.
#[verifier::opaque]
pub open spec fn is_tag_block(lines: Seq<LineText>, first: int, es: Seq<Tagged>) -> bool {
    &&& 0 <= first < lines.len()
    &&& es.len() > 0
    &&& forall|k: int| 0 <= k < es.len() ==> converts(#[trigger] es[k], es)
    &&& forall|i: int, j: int|
        0 <= i < first && 0 <= j < words_of(lines[i].text).len() ==> (#[trigger] words_of(
            lines[i].text,
        )[j])[0] != '@' && words_of(lines[i].text)[j][0] != '\\'
    &&& region_words(lines, first, lines.len() as int) == spoken_from(es, 0)
    &&& words_of(lines[first].text).len() > 0
    &&& forall|i: int|
        first <= i < lines.len() ==> ((#[trigger] lines[i]).kind == LineKind::Blank ==> words_of(
            lines[i].text,
        ).len() == 0)
    &&& forall|i: int|
        first < i < lines.len() && words_of((#[trigger] lines[i]).text).len() > 0 ==> {
            let w = words_of(lines[i].text)[0];
            &&& w != "Return"@ && w != "Returns"@
            &&& words_of(lines[i - 1].text).len() == 0 ==> opens_param(w) || opens_return(w)
        }
}

/// The lines of the parameters among the first `n` entries, in kernel-doc form.
pub open spec fn params_said(es: Seq<Tagged>, n: int) -> Seq<Seq<char>>
    decreases n,
{
    if n <= 0 {
        Seq::empty()
    } else if opens_param(es[n - 1].tag) {
        let e = es[n - 1];
        params_said(es, n - 1).push(
            if e.words.len() == 1 {
                "@"@ + e.words[0] + " :"@
            } else {
                "@"@ + e.words[0] + " : "@ + joined(e.words.skip(1), " "@)
            },
        )
    } else {
        params_said(es, n - 1)
    }
}

/// The sentences of the returned values among the first `n` entries.
pub open spec fn returns_said(es: Seq<Tagged>, n: int) -> Seq<Seq<char>>
    decreases n,
{
    if n <= 0 {
        Seq::empty()
    } else if opens_return(es[n - 1].tag) {
        let e = es[n - 1];
        returns_said(es, n - 1).push(
            if e.words.len() == 0 {
                "Return"@
            } else {
                "Return "@ + joined(e.words, " "@)
            },
        )
    } else {
        returns_said(es, n - 1)
    }
}

/// The texts of the lines.
pub open spec fn texts_of(lines: Seq<LineText>) -> Seq<Seq<char>> {
    Seq::new(lines.len(), |i: int| lines[i].text)
}

proof fn lemma_tags(w: Seq<char>)
    ensures
        opens_param(w) ==> word_tag(w) == Some(KTag::Param) && !opens_return(w),
        opens_return(w) ==> word_tag(w) == Some(KTag::Return),
        !opens_param(w) && !opens_return(w) ==> word_tag(w) is None,
{
    reveal_strlit("param");
    reveal_strlit("param[in]");
    reveal_strlit("param[out]");
    reveal_strlit("param[in,out]");
    reveal_strlit("return");
    reveal_strlit("returns");
    if w.len() > 0 {
        let k = w.skip(1);
        if opens_param(w) {
            assert(k[0] == 'p');
            assert("return"@[0] == 'r' && "returns"@[0] == 'r');
        }
    }
}

/// A word that is no tag is none.
proof fn lemma_no_tag(w: Seq<char>, es: Seq<Tagged>)
    requires
        is_no_tag(w, es),
        forall|k: int| 0 <= k < es.len() ==> converts(#[trigger] es[k], es),
    ensures
        word_tag(w) is None,
        w[0] != '@' && w[0] != '\\' ==> !foreign_tag(w),
{
    reveal_strlit("param[in]");
    reveal_strlit("param[out]");
    reveal_strlit("param[in,out]");
    if refers(w, es) {
        let k = choose|k: int|
            0 <= k < es.len() && opens_param((#[trigger] es[k]).tag) && es[k].words.len() > 0
                && es[k].words[0] == w.skip(1);
        assert(converts(es[k], es));
        let name = w.skip(1);
        if name == "param[in]"@ || name == "param[out]"@ || name == "param[in,out]"@ {
            assert(name[5] == '[');
        }
    }
}

/// The words of the first `n` entries.
pub open spec fn spoken_upto(es: Seq<Tagged>, n: int) -> Seq<Seq<char>>
    decreases n,
{
    if n <= 0 {
        Seq::empty()
    } else {
        spoken_upto(es, n - 1) + seq![es[n - 1].tag] + es[n - 1].words
    }
}

proof fn lemma_spoken(es: Seq<Tagged>, n: int)
    requires
        0 <= n <= es.len(),
    ensures
        spoken_upto(es, n) + spoken_from(es, n) == spoken_from(es, 0),
    decreases n,
{
    if n > 0 {
        lemma_spoken(es, n - 1);
        assert(spoken_upto(es, n) + spoken_from(es, n) =~= spoken_upto(es, n - 1) + spoken_from(
            es,
            n - 1,
        ));
    } else {
        assert(spoken_upto(es, 0) + spoken_from(es, 0) =~= spoken_from(es, 0));
    }
}

/// The entries that a run of words makes.
spec fn taken(words: Seq<Seq<char>>, n: int) -> Seq<EntryText>
    decreases n,
{
    if n <= 0 {
        Seq::empty()
    } else {
        take_word(taken(words, n - 1), words[n - 1])
    }
}

spec fn take_word(es: Seq<EntryText>, w: Seq<char>) -> Seq<EntryText> {
    match word_tag(w) {
        Some(tag) => es.push(EntryText { tag, words: Seq::empty() }),
        None => es.drop_last().push(
            EntryText { tag: es.last().tag, words: es.last().words.push(w) },
        ),
    }
}

proof fn lemma_taken_front(a: Seq<Seq<char>>, b: Seq<Seq<char>>, n: int)
    requires
        0 <= n <= a.len(),
    ensures
        taken(a + b, n) == taken(a, n),
    decreases n,
{
    if n > 0 {
        lemma_taken_front(a, b, n - 1);
        assert((a + b)[n - 1] == a[n - 1]);
    }
}

/// An entry as the scan keeps it.
spec fn kept(e: Tagged) -> EntryText {
    EntryText {
        tag: if opens_param(e.tag) {
            KTag::Param
        } else {
            KTag::Return
        },
        words: e.words,
    }
}

/// The entries that the words of entries make are these.
proof fn lemma_taken_entries(es: Seq<Tagged>, n: int)
    requires
        0 <= n <= es.len(),
        forall|k: int| 0 <= k < es.len() ==> converts(#[trigger] es[k], es),
    ensures
        taken(spoken_upto(es, n), spoken_upto(es, n).len() as int) == Seq::new(
            n as nat,
            |k: int| kept(es[k]),
        ),
    decreases n,
{
    let all = spoken_upto(es, n);
    let want = Seq::new(n as nat, |k: int| kept(es[k]));
    if n > 0 {
        lemma_taken_entries(es, n - 1);
        let before = spoken_upto(es, n - 1);
        let e = es[n - 1];
        assert(converts(es[n - 1], es));
        lemma_entry_taken(before, e, es, e.words.len() as int);
        assert(e.words.take(e.words.len() as int) =~= e.words);
        assert(taken(before, before.len() as int).push(kept(e)) =~= want);
    } else {
        assert(taken(all, 0) =~= want);
    }
}

proof fn lemma_entry_taken(before: Seq<Seq<char>>, e: Tagged, es: Seq<Tagged>, m: int)
    requires
        converts(e, es),
        forall|k: int| 0 <= k < es.len() ==> converts(#[trigger] es[k], es),
        0 <= m <= e.words.len(),
    ensures
        ({
            let all = before + seq![e.tag] + e.words;
            let k = kept(e);
            taken(all, before.len() + 1 + m) == taken(before, before.len() as int).push(
                EntryText { tag: k.tag, words: e.words.take(m) },
            )
        }),
    decreases m,
{
    let all = before + seq![e.tag] + e.words;
    let b = before.len() as int;
    let t = taken(before, b);
    assert(all =~= before + (seq![e.tag] + e.words));
    lemma_taken_front(before, seq![e.tag] + e.words, b);
    lemma_tags(e.tag);
    if m == 0 {
        assert(all[b] == e.tag);
        assert(e.words.take(0) =~= Seq::empty());
        assert(taken(all, b + 1) == take_word(t, e.tag));
    } else {
        lemma_entry_taken(before, e, es, m - 1);
        let w = e.words[m - 1];
        assert(all[b + m] == w);
        lemma_no_tag(w, es);
        let one = EntryText { tag: kept(e).tag, words: e.words.take(m - 1) };
        assert(t.push(one).drop_last() =~= t);
        assert(one.words.push(w) =~= e.words.take(m));
    }
}

/// The scan of a line takes its words.
proof fn lemma_line_taken(s: Scan, before: Seq<Seq<char>>, ws: Seq<Seq<char>>, k: int)
    requires
        0 <= k <= ws.len(),
        !s.stray,
        s.entries == taken(before, before.len() as int),
        before.len() > 0 ==> s.entries.len() > 0,
        before.len() == 0 && ws.len() > 0 ==> word_tag(ws[0]) is Some,
        s.blank && ws.len() > 0 ==> word_tag(ws[0]) is Some,
        ws.len() > 0 ==> ws[0] != "Return"@ && ws[0] != "Returns"@,
    ensures
        ({
            let r = scan_words(s, ws, k);
            &&& !r.stray
            &&& r.entries == taken(before + ws, before.len() + k)
            &&& k > 0 ==> r.entries.len() > 0 && !r.blank
        }),
    decreases k,
{
    let b = before.len() as int;
    if k == 0 {
        lemma_taken_front(before, ws, b);
    } else {
        lemma_line_taken(s, before, ws, k - 1);
        assert((before + ws)[b + k - 1] == ws[k - 1]);
    }
}

/// The scan of the lines of a block takes its words.
proof fn lemma_lines_taken(lines: Seq<LineText>, first: int, es: Seq<Tagged>, n: int)
    requires
        is_tag_block(lines, first, es),
        first <= n <= lines.len(),
    ensures
        ({
            let s = scanned(lines, first, n);
            let ws = region_words(lines, first, n);
            &&& !s.stray
            &&& s.entries == taken(ws, ws.len() as int)
            &&& ws.len() > 0 ==> s.entries.len() > 0
            &&& n > first ==> ws.len() > 0
            &&& n > first && words_of(lines[n - 1].text).len() > 0 ==> !s.blank
            &&& n == first ==> !s.blank
        }),
    decreases n,
{
    reveal(is_tag_block);
    if n > first {
        lemma_lines_taken(lines, first, es, n - 1);
        let l = lines[n - 1];
        let s = scanned(lines, first, n - 1);
        let before = region_words(lines, first, n - 1);
        let ws = words_of(l.text);
        if l.kind == LineKind::Blank {
            assert(ws.len() == 0);
            assert(before + ws =~= before);
        } else if ws.len() > 0 {
            if n - 1 == first {
                lemma_opens(lines, first, es);
            } else {
                lemma_tags(ws[0]);
                assert(words_of(lines[n - 1].text).len() > 0);
            }
            reveal_strlit("Return");
            reveal_strlit("Returns");
            lemma_line_taken(s, before, ws, ws.len() as int);
        } else {
            assert(before + ws =~= before);
        }
    }
}

/// The first line of the region opens with the first tag.
proof fn lemma_opens(lines: Seq<LineText>, first: int, es: Seq<Tagged>)
    requires
        is_tag_block(lines, first, es),
    ensures
        words_of(lines[first].text)[0] == es[0].tag,
        word_tag(es[0].tag) is Some,
        es[0].tag != "Return"@ && es[0].tag != "Returns"@,
{
    reveal(is_tag_block);
    reveal_strlit("Return");
    reveal_strlit("Returns");
    let n = lines.len() as int;
    lemma_region_part(lines, first, n, first, 0);
    assert(converts(es[0], es));
    lemma_tags(es[0].tag);
    assert(region_words(lines, first, first) =~= Seq::empty());
    assert(spoken_from(es, 0)[0] == es[0].tag);
}

/// Where a word of a line stands among the words of the region.
proof fn lemma_region_part(lines: Seq<LineText>, first: int, n: int, i: int, j: int)
    requires
        first <= i < n,
        0 <= j < words_of(lines[i].text).len(),
    ensures
        ({
            let p = region_words(lines, first, i).len() + j;
            p < region_words(lines, first, n).len() && region_words(lines, first, n)[p as int]
                == words_of(lines[i].text)[j]
        }),
    decreases n - i,
{
    if i < n - 1 {
        lemma_region_part(lines, first, n - 1, i, j);
    }
}

/// Each word of the entries is a tag or none.
proof fn lemma_spoken_word(es: Seq<Tagged>, k: int, p: int)
    requires
        0 <= k <= es.len(),
        0 <= p < spoken_from(es, k).len(),
        forall|k: int| 0 <= k < es.len() ==> converts(#[trigger] es[k], es),
    ensures
        ({
            let w = spoken_from(es, k)[p];
            opens_param(w) || opens_return(w) || is_no_tag(w, es)
        }),
    decreases es.len() - k,
{
    assert(converts(es[k], es));
    let m = es[k].words.len() as int;
    if p > 0 {
        if p <= m {
            assert(spoken_from(es, k)[p] == es[k].words[p - 1]);
        } else {
            assert(spoken_from(es, k)[p] == spoken_from(es, k + 1)[p - 1 - m]);
            lemma_spoken_word(es, k + 1, p - 1 - m);
        }
    }
}

/// Words that are no parameter tags declare nothing.
proof fn lemma_declares_nothing(words: Seq<Seq<char>>, a: int, b: int)
    requires
        0 <= a <= b <= words.len(),
        forall|i: int| a <= i < b ==> word_tag(#[trigger] words[i]) != Some(KTag::Param),
    ensures
        declared_names(words, a) == declared_names(words, b),
    decreases b - a,
{
    if a < b {
        assert(word_tag(words[a]) != Some(KTag::Param));
        lemma_declares_nothing(words, a + 1, b);
    }
}

/// Every parameter of the entries is declared.
proof fn lemma_declared(es: Seq<Tagged>, k: int, j: int)
    requires
        0 <= k <= j < es.len(),
        forall|k: int| 0 <= k < es.len() ==> converts(#[trigger] es[k], es),
        opens_param(es[j].tag),
    ensures
        declared_names(spoken_from(es, 0), spoken_upto(es, k).len() as int).contains(
            es[j].words[0],
        ),
    decreases j - k,
{
    let all = spoken_from(es, 0);
    let p = spoken_upto(es, k).len() as int;
    let e = es[k];
    let m = e.words.len() as int;
    assert(converts(es[k], es));
    assert(converts(es[j], es));
    lemma_spoken(es, k);
    lemma_spoken(es, k + 1);
    lemma_tags(e.tag);
    assert(all[p] == e.tag) by {
        assert((spoken_upto(es, k) + spoken_from(es, k))[p] == spoken_from(es, k)[0]);
    }
    assert forall|i: int| 0 <= i < m implies all[p + 1 + i] == #[trigger] e.words[i] by {
        assert((spoken_upto(es, k) + spoken_from(es, k))[p + 1 + i] == spoken_from(es, k)[1 + i]);
    }
    let q = p + 1 + m;
    assert(q == spoken_upto(es, k + 1).len());
    assert(q <= all.len());
    assert forall|i: int| p + 1 <= i < q implies word_tag(#[trigger] all[i]) != Some(
        KTag::Param,
    ) by {
        assert(all[p + 1 + (i - p - 1)] == e.words[i - p - 1]);
        lemma_no_tag(e.words[i - p - 1], es);
    }
    if opens_param(e.tag) {
        let name = e.words[0];
        assert(all[p + 1 + 0] == e.words[0]);
        lemma_name(name);
        lemma_declares_nothing(all, p + 2, q);
        let rest = declared_names(all, p + 2);
        let got = declared_names(all, p);
        assert(got == seq![name] + rest);
        if k == j {
            assert(got[0] == name);
        } else {
            lemma_declared(es, k + 1, j);
            let i = choose|i: int| 0 <= i < rest.len() && rest[i] == es[j].words[0];
            assert(got[i + 1] == rest[i]);
        }
    } else {
        lemma_declares_nothing(all, p + 1, q);
        lemma_declared(es, k + 1, j);
    }
}

proof fn lemma_name(s: Seq<char>)
    requires
        is_name(s),
    ensures
        kdoc_name(s),
{
    assert forall|i: int| 0 <= i < s.len() implies in_class(#[trigger] s[i], CharClass::Word) by {}
}

/// A word that refers to a parameter stops nothing.
proof fn lemma_refers(w: Seq<char>, es: Seq<Tagged>, names: Seq<Seq<char>>)
    requires
        refers(w, es),
        names.contains(w.skip(1)),
    ensures
        param_xref(w, names),
{
    reveal_strlit("a");
    reveal_strlit("b");
    reveal_strlit("e");
    reveal_strlit("f");
    reveal_strlit("n");
    reveal_strlit("r");
    reveal_strlit("t");
    reveal_strlit("v");
    let name = w.skip(1);
    lemma_name(name);
    assert(in_class(name[name.len() - 1], CharClass::Word));
    lemma_trail_len(name, CharClass::NonWord, 0);
    assert(before_trail(name, CharClass::NonWord) =~= name);
}

/// A word of the entries stops nothing.
proof fn lemma_word_passes(es: Seq<Tagged>, p: int)
    requires
        0 <= p < spoken_from(es, 0).len(),
        forall|k: int| 0 <= k < es.len() ==> converts(#[trigger] es[k], es),
    ensures
        !blocks(spoken_from(es, 0)[p], declared_names(spoken_from(es, 0), 0)),
{
    let w = spoken_from(es, 0)[p];
    let names = declared_names(spoken_from(es, 0), 0);
    lemma_spoken_word(es, 0, p);
    lemma_tags(w);
    if is_no_tag(w, es) {
        lemma_no_tag(w, es);
        if refers(w, es) {
            let k = choose|k: int|
                0 <= k < es.len() && opens_param((#[trigger] es[k]).tag) && es[k].words.len() > 0
                    && es[k].words[0] == w.skip(1);
            assert(spoken_upto(es, 0).len() == 0);
            lemma_declared(es, 0, k);
            lemma_refers(w, es, names);
        }
    }
}

/// No word of line `i` stops the conversion.
proof fn lemma_line_passes(lines: Seq<LineText>, first: int, es: Seq<Tagged>, i: int)
    requires
        is_tag_block(lines, first, es),
        0 <= i < lines.len(),
    ensures
        !line_blocks(
            lines[i],
            declared_names(region_words(lines, first, lines.len() as int), 0),
        ),
{
    reveal(is_tag_block);
    let n = lines.len() as int;
    let names = declared_names(region_words(lines, first, n), 0);
    let ws = words_of(lines[i].text);
    assert forall|j: int| 0 <= j < ws.len() implies !blocks(#[trigger] ws[j], names) by {
        if i < first {
            assert(words_of(lines[i].text)[j][0] != '@');
        } else {
            lemma_region_part(lines, first, n, i, j);
            let p = region_words(lines, first, i).len() + j;
            lemma_word_passes(es, p as int);
        }
    }
}

/// Nothing in the block stops the conversion.
proof fn lemma_nothing_blocks(lines: Seq<LineText>, first: int, es: Seq<Tagged>)
    requires
        is_tag_block(lines, first, es),
    ensures
        ({
            let n = lines.len() as int;
            !any_blocks(lines, declared_names(region_words(lines, first, n), 0))
        }),
{
    reveal(is_tag_block);
    let n = lines.len() as int;
    let names = declared_names(region_words(lines, first, n), 0);
    assert forall|i: int| 0 <= i < n implies !line_blocks(#[trigger] lines[i], names) by {
        lemma_line_passes(lines, first, es, i);
    }
}

/// Where the region starts.
proof fn lemma_region_starts(lines: Seq<LineText>, first: int, es: Seq<Tagged>, i: int)
    requires
        is_tag_block(lines, first, es),
        0 <= i <= first,
    ensures
        region_start(lines, i) == first,
    decreases first - i,
{
    reveal(is_tag_block);
    if i == first {
        lemma_opens(lines, first, es);
    } else {
        if words_of(lines[i].text).len() > 0 {
            assert(words_of(lines[i].text)[0][0] != '@');
        }
        lemma_region_starts(lines, first, es, i + 1);
    }
}

/// The lines that the entries come out as.
proof fn lemma_said(es: Seq<Tagged>, n: int, had_crlf: bool)
    requires
        0 <= n <= es.len(),
        forall|k: int| 0 <= k < es.len() ==> converts(#[trigger] es[k], es),
    ensures
        ({
            let ks = Seq::new(es.len(), |k: int| kept(es[k]));
            let ps = param_lines(ks, n, had_crlf);
            let rs = returned_lines(ks, n, had_crlf);
            &&& texts_of(ps) == params_said(es, n)
            &&& texts_of(rs) == returns_said(es, n)
            &&& forall|i: int| 0 <= i < ps.len() ==> (#[trigger] ps[i]).kind != LineKind::Blank
        }),
    decreases n,
{
    let ks = Seq::new(es.len(), |k: int| kept(es[k]));
    if n > 0 {
        lemma_said(es, n - 1, had_crlf);
        let e = es[n - 1];
        assert(converts(es[n - 1], es));
        lemma_tags(e.tag);
        assert(ks[n - 1] == kept(e));
        let ps = param_lines(ks, n - 1, had_crlf);
        let rs = returned_lines(ks, n - 1, had_crlf);
        if opens_param(e.tag) {
            lemma_rest_said(e.words.skip(1));
            if e.words.len() > 1 {
                lemma_says(e.words, es, 1);
            }
            assert(texts_of(param_lines(ks, n, had_crlf)) =~= params_said(es, n));
        } else {
            lemma_rest_said(e.words);
            if e.words.len() > 0 {
                lemma_says(e.words, es, 0);
                assert(e.words.skip(0) =~= e.words);
            }
            assert(texts_of(returned_lines(ks, n, had_crlf)) =~= returns_said(es, n));
        }
    } else {
        assert(texts_of(param_lines(ks, 0, had_crlf)) =~= params_said(es, 0));
        assert(texts_of(returned_lines(ks, 0, had_crlf)) =~= returns_said(es, 0));
    }
}

proof fn lemma_rest_said(ws: Seq<Seq<char>>)
    ensures
        ws.len() == 0 ==> joined(ws, " "@).len() == 0,
{
}

/// Words from `k` on say something.
proof fn lemma_says(ws: Seq<Seq<char>>, es: Seq<Tagged>, k: int)
    requires
        0 <= k < ws.len(),
        forall|i: int| 0 <= i < ws.len() ==> is_no_tag(#[trigger] ws[i], es),
    ensures
        joined(ws.skip(k), " "@).len() > 0,
{
    let rest = ws.skip(k);
    assert(is_no_tag(ws[k], es));
    assert(rest[0] == ws[k]);
    crate::rows::lemma_joined_opens(rest, " "@);
}

/// The conversion: a description and a list of `@param` and `@return` entries come out as the
/// description, one `@name : description` line for each parameter in order, and behind a
/// blank line one `Return` sentence for each returned value. Both markers are accepted, and a
/// direction is dropped. References to the parameters stay.
pub proof fn law_tag_blocks_are_converted(lines: Seq<LineText>, first: int, es: Seq<Tagged>)
    requires
        is_tag_block(lines, first, es),
    ensures
        ({
            let n = es.len() as int;
            let r = kernel_doc(lines);
            let head = texts_of(lines.take(first)) + params_said(es, n);
            let rets = returns_said(es, n);
            let ends_blank = params_said(es, n).len() == 0 && (first == 0 || lines[first - 1].kind
                == LineKind::Blank);
            texts_of(r) == if rets.len() == 0 {
                head
            } else if ends_blank {
                head + rets
            } else {
                head + seq![Seq::<char>::empty()] + rets
            }
        }),
        forall|i: int|
            0 <= i < first ==> #[trigger] kernel_doc(lines)[i] == lines[i],
{
    lemma_facts(lines, first, es);
    lemma_converted(lines, first, es);
    lemma_all_said(lines.take(first), es, lines[first].had_crlf);
    let r = kernel_doc(lines);
    assert forall|i: int| 0 <= i < first implies #[trigger] r[i] == lines[i] by {
        assert(lines.take(first)[i] == lines[i]);
    }
    if first > 0 {
        assert(lines.take(first).last() == lines[first - 1]);
    }
}

/// What a block of tags is made of.
proof fn lemma_facts(lines: Seq<LineText>, first: int, es: Seq<Tagged>)
    requires
        is_tag_block(lines, first, es),
    ensures
        0 <= first < lines.len(),
        forall|k: int| 0 <= k < es.len() ==> converts(#[trigger] es[k], es),
{
    reveal(is_tag_block);
}

/// What the entries come out as behind a description.
proof fn lemma_all_said(head: Seq<LineText>, es: Seq<Tagged>, crlf: bool)
    requires
        forall|k: int| 0 <= k < es.len() ==> converts(#[trigger] es[k], es),
    ensures
        ({
            let n = es.len() as int;
            let r = emitted(head, Seq::new(es.len(), |k: int| kept(es[k])), crlf);
            let front = texts_of(head) + params_said(es, n);
            let rets = returns_said(es, n);
            let ends_blank = params_said(es, n).len() == 0 && (head.len() == 0 || head.last().kind
                == LineKind::Blank);
            &&& texts_of(r) == if rets.len() == 0 {
                front
            } else if ends_blank {
                front + rets
            } else {
                front + seq![Seq::<char>::empty()] + rets
            }
            &&& forall|i: int| 0 <= i < head.len() ==> #[trigger] r[i] == head[i]
        }),
{
    let n = es.len() as int;
    let ks = Seq::new(es.len(), |k: int| kept(es[k]));
    lemma_said(es, n, crlf);
    lemma_put_out(head, ks, crlf);
    let ps = param_lines(ks, n, crlf);
    let params = head + ps;
    assert(texts_of(params) =~= texts_of(head) + texts_of(ps));
    assert(texts_of(ps).len() == ps.len());
    if ps.len() > 0 {
        assert(params.last() == ps[ps.len() - 1]);
    } else if head.len() > 0 {
        assert(params.last() == head.last());
    }
}

/// What is put out: the head, the parameters, and the returns behind a blank line.
proof fn lemma_put_out(head: Seq<LineText>, ks: Seq<EntryText>, crlf: bool)
    ensures
        ({
            let n = ks.len() as int;
            let params = head + param_lines(ks, n, crlf);
            let rs = returned_lines(ks, n, crlf);
            let r = emitted(head, ks, crlf);
            &&& texts_of(r) == if rs.len() == 0 {
                texts_of(params)
            } else if params.len() > 0 && params.last().kind != LineKind::Blank {
                texts_of(params) + seq![Seq::<char>::empty()] + texts_of(rs)
            } else {
                texts_of(params) + texts_of(rs)
            }
            &&& texts_of(rs).len() == rs.len()
            &&& forall|i: int| 0 <= i < head.len() ==> #[trigger] r[i] == head[i]
        }),
{
    let n = ks.len() as int;
    let params = head + param_lines(ks, n, crlf);
    let rs = returned_lines(ks, n, crlf);
    let r = emitted(head, ks, crlf);
    let blank = made_line(LineKind::Blank, Seq::empty(), crlf);
    if rs.len() > 0 {
        if params.len() > 0 && params.last().kind != LineKind::Blank {
            assert(r == params.push(blank) + rs);
            assert(texts_of(r) =~= texts_of(params) + seq![Seq::<char>::empty()] + texts_of(rs));
        } else {
            assert(texts_of(r) =~= texts_of(params) + texts_of(rs));
        }
    }
    assert forall|i: int| 0 <= i < head.len() implies #[trigger] r[i] == head[i] by {
        assert(params[i] == head[i]);
    }
}

/// The block is converted.
proof fn lemma_converted(lines: Seq<LineText>, first: int, es: Seq<Tagged>)
    requires
        is_tag_block(lines, first, es),
    ensures
        kernel_doc(lines) == emitted(
            lines.take(first),
            Seq::new(es.len(), |k: int| kept(es[k])),
            lines[first].had_crlf,
        ),
{
    reveal(is_tag_block);
    let n = es.len() as int;
    let m = lines.len() as int;
    let ks = Seq::new(es.len(), |k: int| kept(es[k]));
    lemma_region_starts(lines, first, es, 0);
    lemma_nothing_blocks(lines, first, es);
    lemma_lines_taken(lines, first, es, m);
    lemma_spoken(es, n);
    assert(spoken_from(es, n) =~= Seq::empty());
    assert(spoken_upto(es, n) =~= spoken_from(es, 0));
    lemma_taken_entries(es, n);
    let s = scanned(lines, first, m);
    assert(s.entries =~= ks);
    assert(good_entries(ks)) by {
        assert forall|k: int| 0 <= k < ks.len() implies good_entry(#[trigger] ks[k]) by {
            assert(converts(es[k], es));
            if opens_param(es[k].tag) {
                lemma_name(es[k].words[0]);
                lemma_no_keyword(es[k].words[0]);
            }
        }
    }
}

proof fn lemma_no_keyword(s: Seq<char>)
    requires
        is_name(s),
        s != "param"@ && s != "return"@ && s != "returns"@,
    ensures
        keyword_tag(s) is None,
{
    reveal_strlit("param[in]");
    reveal_strlit("param[out]");
    reveal_strlit("param[in,out]");
    if s == "param[in]"@ || s == "param[out]"@ || s == "param[in,out]"@ {
        assert(s[5] == '[');
    }
}

/// No word of the text is one of the tags.
pub open spec fn without_tags(text: Seq<char>) -> bool {
    forall|j: int|
        0 <= j < words_of(text).len() ==> !opens_param(#[trigger] words_of(text)[j])
            && !opens_return(words_of(text)[j])
}

pub open spec fn all_without_tags(texts: Seq<Seq<char>>) -> bool {
    forall|i: int| 0 <= i < texts.len() ==> without_tags(#[trigger] texts[i])
}

proof fn lemma_none_among(a: Seq<Seq<char>>, b: Seq<Seq<char>>)
    requires
        all_without_tags(a),
        all_without_tags(b),
    ensures
        all_without_tags(a + b),
{
    let all = a + b;
    assert forall|i: int| 0 <= i < all.len() implies without_tags(#[trigger] all[i]) by {
        if i < a.len() {
            assert(all[i] == a[i]);
        } else {
            assert(all[i] == b[i - a.len()]);
        }
    }
}

/// The words of the region are words.
proof fn lemma_region_of_words(lines: Seq<LineText>, first: int, n: int)
    ensures
        all_words(region_words(lines, first, n)),
    decreases n - first,
{
    if n > first {
        lemma_region_of_words(lines, first, n - 1);
        lemma_words_are_words(lines[n - 1].text);
        let a = region_words(lines, first, n - 1);
        let b = words_of(lines[n - 1].text);
        assert forall|i: int| 0 <= i < (a + b).len() implies is_word(#[trigger] (a + b)[i]) by {
            if i < a.len() {
                assert((a + b)[i] == a[i]);
            } else {
                assert((a + b)[i] == b[i - a.len()]);
            }
        }
    }
}

/// So are those of each entry.
proof fn lemma_entry_of_words(es: Seq<Tagged>, k: int)
    requires
        0 <= k < es.len(),
        all_words(spoken_from(es, 0)),
    ensures
        all_words(es[k].words),
{
    lemma_spoken(es, k);
    let b = spoken_upto(es, k).len() as int;
    let all = spoken_from(es, 0);
    assert forall|i: int| 0 <= i < es[k].words.len() implies is_word(
        #[trigger] es[k].words[i],
    ) by {
        assert((spoken_upto(es, k) + spoken_from(es, k))[b + 1 + i] == spoken_from(es, k)[1 + i]);
        assert(is_word(all[b + 1 + i]));
    }
}

/// Words behind two others.
proof fn lemma_joined_behind(a: Seq<char>, b: Seq<char>, rest: Seq<Seq<char>>)
    ensures
        rest.len() > 0 ==> joined(seq![a, b] + rest, " "@) == a + " "@ + b + " "@ + joined(
            rest,
            " "@,
        ),
        joined(seq![a, b], " "@) == a + " "@ + b,
    decreases rest.len(),
{
    let two = seq![a, b];
    assert(two.drop_last() =~= seq![a]);
    assert(joined(seq![a], " "@) == a);
    if rest.len() > 0 {
        let front = rest.drop_last();
        lemma_joined_behind(a, b, front);
        assert((two + rest).drop_last() =~= two + front);
        if front.len() == 0 {
            assert(two + front =~= two);
            assert(joined(rest, " "@) == rest[0]);
            assert(joined(two + rest, " "@) =~= a + " "@ + b + " "@ + joined(rest, " "@));
        } else {
            assert(joined(two + rest, " "@) =~= a + " "@ + b + " "@ + joined(rest, " "@));
        }
    }
}

proof fn lemma_joined_behind_one(a: Seq<char>, rest: Seq<Seq<char>>)
    requires
        rest.len() > 0,
    ensures
        joined(seq![a] + rest, " "@) == a + " "@ + joined(rest, " "@),
    decreases rest.len(),
{
    let one = seq![a];
    let front = rest.drop_last();
    assert((one + rest).drop_last() =~= one + front);
    if front.len() == 0 {
        assert(one + front =~= one);
        assert(joined(one, " "@) == a);
        assert(joined(rest, " "@) == rest[0]);
        assert(joined(one + rest, " "@) =~= a + " "@ + joined(rest, " "@));
    } else {
        lemma_joined_behind_one(a, front);
        assert(joined(one + rest, " "@) =~= a + " "@ + joined(rest, " "@));
    }
}

/// The line of a parameter holds no tag.
proof fn lemma_param_clean(e: Tagged, es: Seq<Tagged>)
    requires
        converts(e, es),
        forall|k: int| 0 <= k < es.len() ==> converts(#[trigger] es[k], es),
        opens_param(e.tag),
        all_words(e.words),
    ensures
        without_tags(
            if e.words.len() == 1 {
                "@"@ + e.words[0] + " :"@
            } else {
                "@"@ + e.words[0] + " : "@ + joined(e.words.skip(1), " "@)
            },
        ),
{
    reveal_strlit("@");
    reveal_strlit(" ");
    reveal_strlit(":");
    reveal_strlit(" :");
    reveal_strlit(" : ");
    let a = "@"@ + e.words[0];
    let b = ":"@;
    let rest = e.words.skip(1);
    let ws = seq![a, b] + rest;
    assert(is_word(e.words[0]));
    assert forall|i: int| 0 <= i < a.len() implies in_class(#[trigger] a[i], CharClass::Solid) by {
        if i > 0 {
            assert(in_class(e.words[0][i - 1], CharClass::Solid));
        }
    }
    assert forall|i: int| 0 <= i < ws.len() implies is_word(#[trigger] ws[i]) by {
        if i >= 2 {
            assert(is_word(e.words[i - 1]));
        }
    }
    lemma_words_joined(ws);
    lemma_joined_behind(a, b, rest);
    let text = if e.words.len() == 1 {
        "@"@ + e.words[0] + " :"@
    } else {
        "@"@ + e.words[0] + " : "@ + joined(rest, " "@)
    };
    if rest.len() == 0 {
        assert(ws =~= seq![a, b]);
        assert(text =~= a + " "@ + b);
    } else {
        assert(text =~= a + " "@ + b + " "@ + joined(rest, " "@));
    }
    assert(words_of(text) == ws);
    assert forall|j: int| 0 <= j < ws.len() implies !opens_param(#[trigger] ws[j])
        && !opens_return(ws[j]) by {
        if j == 0 {
            assert(a.skip(1) =~= e.words[0]);
            lemma_no_keyword(e.words[0]);
        } else if j >= 2 {
            assert(ws[j] == e.words[j - 1]);
            lemma_no_tag(e.words[j - 1], es);
            lemma_tags(ws[j]);
        }
    }
}

/// So does the sentence of a returned value.
proof fn lemma_return_clean(e: Tagged, es: Seq<Tagged>)
    requires
        converts(e, es),
        forall|k: int| 0 <= k < es.len() ==> converts(#[trigger] es[k], es),
        opens_return(e.tag),
        all_words(e.words),
    ensures
        without_tags(
            if e.words.len() == 0 {
                "Return"@
            } else {
                "Return "@ + joined(e.words, " "@)
            },
        ),
{
    reveal_strlit("Return");
    reveal_strlit("Return ");
    reveal_strlit(" ");
    let a = "Return"@;
    let ws = seq![a] + e.words;
    assert forall|i: int| 0 <= i < ws.len() implies is_word(#[trigger] ws[i]) by {
        if i >= 1 {
            assert(is_word(e.words[i - 1]));
        }
    }
    lemma_words_joined(ws);
    let text = if e.words.len() == 0 {
        "Return"@
    } else {
        "Return "@ + joined(e.words, " "@)
    };
    if e.words.len() == 0 {
        assert(ws =~= seq![a]);
        assert(joined(ws, " "@) == a);
    } else {
        lemma_joined_behind_one(a, e.words);
        assert(text =~= a + " "@ + joined(e.words, " "@));
    }
    assert(words_of(text) == ws);
    assert forall|j: int| 0 <= j < ws.len() implies !opens_param(#[trigger] ws[j])
        && !opens_return(ws[j]) by {
        if j >= 1 {
            assert(ws[j] == e.words[j - 1]);
            lemma_no_tag(e.words[j - 1], es);
            lemma_tags(ws[j]);
        }
    }
}

proof fn lemma_said_clean(es: Seq<Tagged>, n: int)
    requires
        0 <= n <= es.len(),
        forall|k: int| 0 <= k < es.len() ==> converts(#[trigger] es[k], es),
        all_words(spoken_from(es, 0)),
    ensures
        all_without_tags(params_said(es, n)),
        all_without_tags(returns_said(es, n)),
    decreases n,
{
    if n > 0 {
        lemma_said_clean(es, n - 1);
        let e = es[n - 1];
        assert(converts(es[n - 1], es));
        lemma_entry_of_words(es, n - 1);
        lemma_tags(e.tag);
        if opens_param(e.tag) {
            lemma_param_clean(e, es);
        } else {
            lemma_return_clean(e, es);
        }
    }
}

/// No Doxygen tag for a parameter or a returned value is left in a converted block.
pub proof fn law_no_tag_is_left(lines: Seq<LineText>, first: int, es: Seq<Tagged>)
    requires
        is_tag_block(lines, first, es),
    ensures
        all_without_tags(texts_of(kernel_doc(lines))),
{
    let n = es.len() as int;
    lemma_facts(lines, first, es);
    law_tag_blocks_are_converted(lines, first, es);
    lemma_head_clean(lines, first, es);
    lemma_said_clean(es, n);
    let none = seq![Seq::<char>::empty()];
    assert(all_without_tags(none)) by {
        crate::words::lemma_no_words(Seq::empty());
    }
    let head = texts_of(lines.take(first));
    lemma_none_among(head, params_said(es, n));
    lemma_none_among(head + params_said(es, n), none);
    lemma_none_among(head + params_said(es, n), returns_said(es, n));
    lemma_none_among(head + params_said(es, n) + none, returns_said(es, n));
}

proof fn lemma_head_clean(lines: Seq<LineText>, first: int, es: Seq<Tagged>)
    requires
        is_tag_block(lines, first, es),
    ensures
        all_without_tags(texts_of(lines.take(first))),
        all_words(spoken_from(es, 0)),
{
    reveal(is_tag_block);
    let head = texts_of(lines.take(first));
    lemma_region_of_words(lines, first, lines.len() as int);
    assert forall|i: int| 0 <= i < head.len() implies without_tags(#[trigger] head[i]) by {
        assert(head[i] == lines[i].text);
        assert forall|j: int| 0 <= j < words_of(head[i]).len() implies !opens_param(
            #[trigger] words_of(head[i])[j],
        ) && !opens_return(words_of(head[i])[j]) by {
            assert(words_of(lines[i].text)[j][0] != '@');
        }
    }
}

/// Every return tag opens its line.
pub open spec fn returns_open_lines(lines: Seq<LineText>) -> bool {
    forall|i: int, j: int|
        0 <= i < lines.len() && 0 < j < words_of(lines[i].text).len() ==> !opens_return(
            #[trigger] words_of(lines[i].text)[j],
        )
}

/// A word of a later text comes later.
proof fn lemma_word_later(texts: Seq<Seq<char>>, n: int, i: int) -> (k: int)
    requires
        1 <= i < n <= texts.len(),
        words_of(texts[0]).len() > 0,
        words_of(texts[i]).len() > 0,
    ensures
        0 < k < flat_words(texts, n).len(),
        flat_words(texts, n)[k] == words_of(texts[i])[0],
    decreases n,
{
    let before = flat_words(texts, n - 1);
    if i == n - 1 {
        lemma_first_counts(texts, n - 1);
        before.len() as int
    } else {
        lemma_word_later(texts, n - 1, i)
    }
}

proof fn lemma_first_counts(texts: Seq<Seq<char>>, n: int)
    requires
        1 <= n <= texts.len(),
        words_of(texts[0]).len() > 0,
    ensures
        flat_words(texts, n).len() > 0,
    decreases n,
{
    if n > 1 {
        lemma_first_counts(texts, n - 1);
    }
}

/// Lines whose return tags open them are not cut.
proof fn lemma_not_cut(l: LineText)
    requires
        forall|j: int| 0 < j < words_of(l.text).len() ==> !opens_return(#[trigger] words_of(l.text)[j]),
    ensures
        return_lines(l) == seq![l],
{
    let pieces = return_pieces(l.text);
    if hoists_return(pieces) {
        let i = choose|i: int|
            1 <= i < pieces.len() && crate::kdoc::opens_with_return_tag(#[trigger] pieces[i]);
        law_return_split_keeps_words(l.text);
        crate::plain_form::lemma_word_among(pieces, pieces.len() as int, i, 0);
        lemma_pieces_have_words(l.text);
        let k = lemma_word_later(pieces, pieces.len() as int, i);
        lemma_tags(words_of(l.text)[k]);
    }
}

proof fn lemma_none_cut(lines: Seq<LineText>, n: int)
    requires
        0 <= n <= lines.len(),
        returns_open_lines(lines),
    ensures
        return_split(lines, n) == lines.take(n),
    decreases n,
{
    if n > 0 {
        lemma_none_cut(lines, n - 1);
        let l = lines[n - 1];
        assert forall|j: int| 0 < j < words_of(l.text).len() implies !opens_return(
            #[trigger] words_of(l.text)[j],
        ) by {
            assert(!opens_return(words_of(lines[n - 1].text)[j]));
        }
        lemma_not_cut(l);
        assert(lines.take(n - 1) + seq![l] =~= lines.take(n));
    } else {
        assert(lines.take(0) =~= Seq::empty());
    }
}

/// A comment of C or C++ that holds such a block is laid out converted: its description, a
/// line for each parameter, a blank line, and a sentence for each returned value.
pub proof fn law_doxygen_comments_are_converted(
    c: CommentText,
    lang: Language,
    limit: usize,
    first: int,
    es: Seq<Tagged>,
)
    requires
        lang == Language::C || lang == Language::Cpp,
        c.relocate_before is None,
        is_tag_block(c.body(kind_of(c.text, lang), limit), first, es),
        returns_open_lines(c.body(kind_of(c.text, lang), limit)),
    ensures
        ({
            let n = es.len() as int;
            let lines = c.body(kind_of(c.text, lang), limit);
            let head = texts_of(lines.take(first)) + params_said(es, n);
            let rets = returns_said(es, n);
            let ends_blank = params_said(es, n).len() == 0 && (first == 0 || lines[first - 1].kind
                == LineKind::Blank);
            let out = texts_of(first_doc(c, lang, limit).lines);
            &&& all_without_tags(out)
            &&& out == if rets.len() == 0 {
                head
            } else if ends_blank {
                head + rets
            } else {
                head + seq![Seq::<char>::empty()] + rets
            }
        }),
{
    reveal(CommentText::normalized);
    let lines = c.body(kind_of(c.text, lang), limit);
    lemma_none_cut(lines, lines.len() as int);
    assert(lines.take(lines.len() as int) =~= lines);
    law_tag_blocks_are_converted(lines, first, es);
    law_no_tag_is_left(lines, first, es);
}

/// Lines of other languages are not converted.
pub proof fn law_other_languages_keep_their_tags(c: CommentText, lang: Language, limit: usize)
    requires
        lang == Language::Rust || lang == Language::Shell || lang == Language::Asm,
    ensures
        first_doc(c, lang, limit).lines == c.body(kind_of(c.text, lang), limit),
{
    reveal(CommentText::normalized);
}

/// The word opens like a tag, is none that is converted, and refers to nothing: it is a
/// marker, a letter and what follows.
pub open spec fn is_other_tag(w: Seq<char>) -> bool {
    &&& w.len() > 1
    &&& w[0] == '@' || w[0] == '\\'
    &&& 'a' <= w[1] <= 'z' || 'A' <= w[1] <= 'Z'
    &&& !opens_param(w)
    &&& !opens_return(w)
}

/// A tag without a kernel-doc form stops the conversion of the whole comment: lines that
/// hold one stay as they are, if no parameter has its name.
pub proof fn law_other_tags_stop_the_conversion(lines: Seq<LineText>, i: int, j: int)
    requires
        0 <= i < lines.len(),
        0 <= j < words_of(lines[i].text).len(),
        is_other_tag(words_of(lines[i].text)[j]),
        forall|k: int, m: int|
            0 <= k < lines.len() && 0 <= m < words_of(lines[k].text).len() ==> !names_param(
                #[trigger] words_of(lines[k].text)[m],
                words_of(lines[i].text)[j],
            ),
    ensures
        kernel_doc(lines) == lines,
{
    let n = lines.len() as int;
    let first = region_start(lines, 0);
    let names = declared_names(region_words(lines, first, n), 0);
    let w = words_of(lines[i].text)[j];
    lemma_tags(w);
    lemma_start_bound(lines, 0);
    if first < n {
        if param_xref(w, names) {
            let name = xref_name(w)->0;
            let k = choose|k: int| 0 <= k < names.len() && names[k] == name;
            lemma_declared_is_word(region_words(lines, first, n), 0, k);
            let p = choose|p: int|
                0 <= p < region_words(lines, first, n).len() && region_words(lines, first, n)[p]
                    == name;
            let (a, b) = lemma_region_from(lines, first, n, p);
            assert(!names_param(words_of(lines[a].text)[b], w));
        }
        assert(blocks(w, names));
        assert(line_blocks(lines[i], names));
        assert(any_blocks(lines, names));
    }
}

/// The word `w` refers to `name`: the name behind the marker, and nothing but punctuation
/// behind it.
pub open spec fn names_param(name: Seq<char>, w: Seq<char>) -> bool {
    xref_name(w) == Some(name)
}

proof fn lemma_start_bound(lines: Seq<LineText>, i: int)
    requires
        0 <= i <= lines.len(),
    ensures
        i <= region_start(lines, i) <= lines.len(),
    decreases lines.len() - i,
{
    if i < lines.len() && !opens_region(lines[i]) {
        lemma_start_bound(lines, i + 1);
    }
}

proof fn lemma_declared_is_word(words: Seq<Seq<char>>, i: int, k: int)
    requires
        0 <= i,
        0 <= k < declared_names(words, i).len(),
    ensures
        exists|p: int| 0 <= p < words.len() && words[p] == declared_names(words, i)[k],
    decreases words.len() - i,
{
    if i < words.len() {
        if word_tag(words[i]) != Some(KTag::Param) {
            lemma_declared_is_word(words, i + 1, k);
        } else if i + 1 < words.len() {
            if kdoc_name(words[i + 1]) {
                if k == 0 {
                    assert(words[i + 1] == declared_names(words, i)[0]);
                } else {
                    assert(declared_names(words, i)[k] == declared_names(words, i + 2)[k - 1]);
                    lemma_declared_is_word(words, i + 2, k - 1);
                }
            } else {
                lemma_declared_is_word(words, i + 2, k);
            }
        }
    }
}

proof fn lemma_region_from(lines: Seq<LineText>, first: int, n: int, p: int) -> (r: (int, int))
    requires
        0 <= first,
        0 <= p < region_words(lines, first, n).len(),
    ensures
        first <= r.0 < n,
        0 <= r.1 < words_of(lines[r.0].text).len(),
        words_of(lines[r.0].text)[r.1] == region_words(lines, first, n)[p],
    decreases n - first,
{
    let before = region_words(lines, first, n - 1);
    if p < before.len() {
        lemma_region_from(lines, first, n - 1, p)
    } else {
        (n - 1, p - before.len())
    }
}

} // verus!
