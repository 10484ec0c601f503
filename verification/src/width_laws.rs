//! Columns, and the line endings of a text.

use crate::merge::{crlf_count, dominant_ending};
use crate::normalize::DocText;
use crate::reflow::crlf_lines;
use crate::text::{count_in, CharClass};
use crate::width::columns;
use vstd::prelude::*;

verus! {

/// A tab goes to the next column that is a multiple of the tab width.
pub proof fn law_tabs_go_to_the_next_stop(s: Seq<char>, tab_width: nat)
    requires
        tab_width > 0,
    ensures
        ({
            let before = columns(s, tab_width);
            let after = columns(s.push('\t'), tab_width);
            &&& after % tab_width == 0
            &&& before < after <= before + tab_width
        }),
{
    let c = columns(s, tab_width);
    let w = tab_width;
    assert(s.push('\t').drop_last() =~= s);
    let after = (c / w + 1) * w;
    assert(columns(s.push('\t'), w) == after);
    vstd::arithmetic::div_mod::lemma_fundamental_div_mod(c as int, w as int);
    assert(after == w * (c / w) + w) by (nonlinear_arith)
        requires
            after == (c / w + 1) * w,
    ;
    assert(0 <= c % w < w) by (nonlinear_arith)
        requires
            w > 0,
    ;
    vstd::arithmetic::div_mod::lemma_mod_multiples_basic((c / w + 1) as int, w as int);
}

/// Each break of a text without carriage returns is a line feed, and that is the ending of the
/// text; where every line feed follows a carriage return, both together are.
pub proof fn law_most_breaks_decide(s: Seq<char>, i: int)
    ensures
        !s.contains('\r') ==> dominant_ending(s) == "\n"@,
        0 <= i < s.len() && s[i] == '\n' && (forall|k: int|
            0 <= k < s.len() && #[trigger] s[k] == '\n' ==> k > 0 && s[k - 1] == '\r')
            ==> dominant_ending(s) == "\r\n"@,
{
    if !s.contains('\r') {
        lemma_none(s);
    }
    if 0 <= i < s.len() && s[i] == '\n' && (forall|k: int|
        0 <= k < s.len() && #[trigger] s[k] == '\n' ==> k > 0 && s[k - 1] == '\r') {
        lemma_all(s);
        lemma_some(s, i);
    }
}

proof fn lemma_none(s: Seq<char>)
    requires
        !s.contains('\r'),
    ensures
        crlf_count(s) == 0,
    decreases s.len(),
{
    if s.len() > 0 {
        assert forall|k: int| 0 <= k < s.len() - 1 implies s.drop_last()[k] != '\r' by {
            assert(s.contains(s[k]));
        }
        lemma_none(s.drop_last());
        if s.len() > 1 {
            assert(s.contains(s[s.len() - 2]));
        }
    }
}

proof fn lemma_all(s: Seq<char>)
    requires
        forall|k: int| 0 <= k < s.len() && #[trigger] s[k] == '\n' ==> k > 0 && s[k - 1] == '\r',
    ensures
        crlf_count(s) == count_in(s, CharClass::One('\n')),
    decreases s.len(),
{
    if s.len() > 0 {
        let a = s.drop_last();
        assert forall|k: int| 0 <= k < a.len() && #[trigger] a[k] == '\n' implies k > 0 && a[k - 1]
            == '\r' by {
            assert(a[k] == s[k]);
        }
        lemma_all(a);
        assert(s[s.len() - 1] == s.last());
    }
}

proof fn lemma_some(s: Seq<char>, i: int)
    requires
        0 <= i < s.len(),
        s[i] == '\n',
    ensures
        count_in(s, CharClass::One('\n')) > 0,
    decreases s.len(),
{
    if i < s.len() - 1 {
        assert(s.drop_last()[i] == s[i]);
        lemma_some(s.drop_last(), i);
    }
}

/// Where as many lines end one way as the other, the line feed is taken.
pub proof fn law_ties_go_to_the_line_feed(doc: DocText)
    requires
        doc.lines.len() == 3,
        doc.lines[0].had_crlf != doc.lines[1].had_crlf,
    ensures
        doc.ending() == "\n"@,
{
    assert(crlf_lines(doc.lines, 0) == 0);
    assert(crlf_lines(doc.lines, 1) + crlf_lines(doc.lines, 1) <= 2);
    assert(crlf_lines(doc.lines, 2) == 1);
}

} // verus!
