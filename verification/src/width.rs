//! Display columns: how wide characters and texts are on a terminal.

use crate::text::chars_of;
use vstd::arithmetic::div_mod::lemma_fundamental_div_mod;
use vstd::prelude::*;

verus! {

/// The display width of one character, as `UnicodeWidthChar::width` answers;
/// `None` for a control character.
pub uninterp spec fn char_columns(c: char) -> Option<usize>;

/// The display width of a text, as `UnicodeWidthStr::width` answers. It is not
/// the sum over the characters: ligatures and emoji sequences count as one.
pub uninterp spec fn text_columns(s: Seq<char>) -> usize;

pub open spec fn printable_ascii(c: char) -> bool {
    ' ' <= c <= '~'
}

/// `UnicodeWidthChar::width`: at most three columns, exactly one for printable
/// ASCII, and nothing for the ASCII control characters.
#[verifier::external_body]
fn char_width(c: char) -> (r: Option<usize>)
    ensures
        r == char_columns(c),
        r is Some ==> r->0 <= 3,
        printable_ascii(c) ==> r == Some(1usize),
        c < ' ' ==> r is None,
{
    unicode_width::UnicodeWidthChar::width(c)
}

/// `UnicodeWidthStr::width`: a text of printable ASCII has one column for each
/// character. Of other texts only that the width depends on the text alone.
#[verifier::external_body]
pub(crate) fn text_width(s: &str) -> (r: usize)
    ensures
        r == text_columns(s@),
        (forall|i: int| 0 <= i < s@.len() ==> printable_ascii(#[trigger] s@[i])) ==> r == s@.len(),
{
    unicode_width::UnicodeWidthStr::width(s)
}

/// The column behind `c` when it is written at column `col`: a tab reaches the
/// next multiple of `tab_width`, every other character takes its display width.
pub open spec fn next_col(col: nat, c: char, tab_width: nat) -> nat {
    if c == '\t' {
        (col / tab_width + 1) * tab_width
    } else {
        match char_columns(c) {
            Some(n) => col + n as nat,
            None => col,
        }
    }
}

/// The column behind `s` when it starts at column zero.
pub open spec fn columns(s: Seq<char>, tab_width: nat) -> nat
    decreases s.len(),
{
    if s.len() == 0 {
        0
    } else {
        next_col(columns(s.drop_last(), tab_width), s.last(), tab_width)
    }
}

/// `n`, or the largest `usize` where `n` is beyond it.
pub open spec fn clamped(n: nat) -> usize {
    if n <= usize::MAX {
        n as usize
    } else {
        usize::MAX
    }
}

proof fn lemma_tab_stop(col: nat, tab_width: nat)
    requires
        tab_width > 0,
    ensures
        (col / tab_width + 1) * tab_width == col + (tab_width - col % tab_width),
        col % tab_width < tab_width,
{
    lemma_fundamental_div_mod(col as int, tab_width as int);
    assert((col / tab_width + 1) * tab_width == tab_width * (col / tab_width) + tab_width)
        by (nonlinear_arith);
    assert(col % tab_width < tab_width) by (nonlinear_arith)
        requires
            tab_width > 0,
    ;
}

/// The column behind `c` when it is written at column `col`.
pub fn advance_col(col: usize, c: char, tab_width: usize) -> (r: usize)
    requires
        tab_width > 0,
        c == '\t' ==> col + tab_width <= usize::MAX,
        c != '\t' ==> col + 3 <= usize::MAX,
    ensures
        r == next_col(col as nat, c, tab_width as nat),
        c == '\t' ==> col < r <= col + tab_width,
        printable_ascii(c) ==> r == col + 1,
{
    if c == '\t' {
        proof {
            lemma_tab_stop(col as nat, tab_width as nat);
        }
        col + (tab_width - col % tab_width)
    } else {
        match char_width(c) {
            Some(n) => col + n,
            None => col,
        }
    }
}

/// The display width of `s` from column zero. A width beyond the machine's
/// largest integer counts as that integer.
pub fn display_width(s: &str, tab_width: usize) -> (r: usize)
    requires
        tab_width > 0,
    ensures
        r == clamped(columns(s@, tab_width as nat)),
{
    let v = chars_of(s);
    let mut col: usize = 0;
    let mut i: usize = 0;
    while i < v.len()
        invariant
            i <= v.len(),
            v@ == s@,
            tab_width > 0,
            col == clamped(columns(s@.take(i as int), tab_width as nat)),
        decreases v.len() - i,
    {
        let ghost before = columns(s@.take(i as int), tab_width as nat);
        assert(s@.take(i + 1).drop_last() == s@.take(i as int));
        assert(s@.take(i + 1).last() == v@[i as int]);
        let step: usize = if v[i] == '\t' {
            proof {
                lemma_tab_stop(before, tab_width as nat);
            }
            tab_width - col % tab_width
        } else {
            match char_width(v[i]) {
                Some(n) => n,
                None => 0,
            }
        };
        col = col.saturating_add(step);
        i = i + 1;
    }
    assert(s@.take(i as int) == s@);
    col
}

} // verus!
