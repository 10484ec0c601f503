//! Drawings and rows among the text of a comment.

use crate::classify::DocFlavor;
use crate::linekind::{
    base_kind, label_row, label_rows, label_shape, line_kinds, mapping_row, mapping_rows, within,
    LineKind, StrippedText,
};
use crate::shape_laws::keeps_layout;
use crate::text::{
    all_in, alphabetic, count_in, in_class, is_white, lemma_lead_len, trimmed, trimmed_end,
    CharClass,
};
use crate::textline::{
    alpha_word, art, assigned_part, assignment_line, dense_ascii_art, dense_unicode_art,
};
use vstd::prelude::*;

verus! {

/// The characters that drawings are made of, but for the equals sign.
pub open spec fn is_stroke(c: char) -> bool {
    ||| c == '+' || c == '-' || c == '|' || c == '/' || c == '\\'
    ||| c == '>' || c == '<' || c == '^' || c == 'v' || c == '*'
}

/// Arrows, box drawing, blocks, shapes and braille.
pub open spec fn is_glyph(c: char) -> bool {
    ||| '\u{2190}' <= c <= '\u{21ff}'
    ||| '\u{2500}' <= c <= '\u{25ff}'
    ||| '\u{2800}' <= c <= '\u{28ff}'
}

proof fn lemma_strokes_are_art(c: char)
    requires
        is_stroke(c) || c == '=',
    ensures
        in_class(c, CharClass::AsciiArt),
        in_class(c, CharClass::NotBlank),
{
    reveal_strlit("+-|/\\><^v*=");
    let a = "+-|/\\><^v*="@;
    assert(a[0] == '+' && a[1] == '-' && a[2] == '|' && a[3] == '/' && a[4] == '\\' && a[5] == '>'
        && a[6] == '<' && a[7] == '^' && a[8] == 'v' && a[9] == '*' && a[10] == '=');
}

proof fn lemma_digits_are_no_art(c: char)
    requires
        '0' <= c <= '9',
    ensures
        !in_class(c, CharClass::AsciiArt),
        !in_class(c, CharClass::UnicodeArt),
        in_class(c, CharClass::NotBlank),
{
    reveal_strlit("+-|/\\><^v*=");
    let a = "+-|/\\><^v*="@;
    if a.contains(c) {
        let k = choose|k: int| 0 <= k < a.len() && a[k] == c;
        assert(a.len() == 11);
        assert(a[0] == '+' && a[1] == '-' && a[2] == '|' && a[3] == '/' && a[4] == '\\' && a[5]
            == '>' && a[6] == '<' && a[7] == '^' && a[8] == 'v' && a[9] == '*' && a[10] == '=');
        assert(k == 0 || k == 1 || k == 2 || k == 3 || k == 4 || k == 5 || k == 6 || k == 7 || k
            == 8 || k == 9 || k == 10);
    }
}

/// How many characters of strokes with digits behind them are of a class.
proof fn lemma_counts(s: Seq<char>, n: int)
    requires
        0 <= n <= s.len(),
        forall|k: int| 0 <= k < n ==> is_stroke(#[trigger] s[k]),
        forall|k: int| n <= k < s.len() ==> '0' <= #[trigger] s[k] <= '9',
    ensures
        count_in(s, CharClass::NotBlank) == s.len(),
        count_in(s, CharClass::AsciiArt) == n,
        count_in(s, CharClass::UnicodeArt) == 0,
    decreases s.len(),
{
    if s.len() > 0 {
        let a = s.drop_last();
        assert forall|k: int| 0 <= k < a.len() implies a[k] == s[k] by {}
        let m = if n == s.len() {
            n - 1
        } else {
            n
        };
        assert forall|k: int| 0 <= k < m implies is_stroke(#[trigger] a[k]) by {
            assert(a[k] == s[k]);
        }
        assert forall|k: int| m <= k < a.len() implies '0' <= #[trigger] a[k] <= '9' by {
            assert(a[k] == s[k]);
        }
        lemma_counts(a, m);
        if n == s.len() {
            assert(is_stroke(s[s.len() - 1]));
            lemma_strokes_are_art(s.last());
        } else {
            assert('0' <= s[s.len() - 1] <= '9');
            lemma_digits_are_no_art(s.last());
        }
    }
}

/// Without four letters in a row a line has no word.
proof fn lemma_no_word(s: Seq<char>)
    requires
        forall|k: int| 0 <= k < s.len() ==> !alphabetic(#[trigger] s[k]),
    ensures
        !alpha_word(s),
{
    assert forall|i: int| 0 <= i && i + 4 <= s.len() implies !all_in(
        #[trigger] s.subrange(i, i + 4),
        CharClass::Letter,
    ) by {
        assert(s.subrange(i, i + 4)[0] == s[i]);
        assert(!in_class(s.subrange(i, i + 4)[0], CharClass::Letter));
    }
}

proof fn lemma_no_assignment(s: Seq<char>)
    requires
        forall|k: int| 0 <= k < s.len() ==> #[trigger] s[k] != '=',
    ensures
        !assignment_line(s),
{
    let t = trimmed(s);
    let o = crate::ordinary_prose::lemma_trimmed_at(s);
    assert forall|k: int| 0 <= k < t.len() implies in_class(
        #[trigger] t[k],
        CharClass::NotOne('='),
    ) by {
        assert(t[k] == s[o + k]);
    }
    lemma_lead_len(t, CharClass::NotOne('='), t.len() as int);
}

/// Strokes make a drawing of a line when they are more than two fifths of it.
pub proof fn law_two_fifths_make_a_drawing(s: Seq<char>, n: int)
    requires
        0 <= n <= s.len(),
        s.len() > 0,
        forall|k: int| 0 <= k < n ==> is_stroke(#[trigger] s[k]),
        forall|k: int| n <= k < s.len() ==> '0' <= #[trigger] s[k] <= '9',
        forall|k: int| 0 <= k < s.len() ==> !alphabetic(#[trigger] s[k]),
    ensures
        art(s) == (5 * n > 2 * s.len()),
{
    lemma_counts(s, n);
    lemma_no_word(s);
    assert forall|k: int| 0 <= k < s.len() implies #[trigger] s[k] != '=' by {
        assert(k < n ==> is_stroke(s[k]));
    }
    lemma_no_assignment(s);
    assert(!dense_unicode_art(s)) by {
        assert forall|i: int| 0 <= i && i + 2 <= s.len() implies !all_in(
            #[trigger] s.subrange(i, i + 2),
            CharClass::UnicodeArt,
        ) by {
            assert(s.subrange(i, i + 2)[0] == s[i]);
            assert(i < n ==> is_stroke(s[i]));
            assert(i >= n ==> '0' <= s[i] <= '9');
            assert(!in_class(s.subrange(i, i + 2)[0], CharClass::UnicodeArt));
        }
    }
}

/// A line with a word of four letters is no drawing.
pub proof fn law_words_are_no_drawing(s: Seq<char>, i: int)
    requires
        0 <= i && i + 4 <= s.len(),
        alphabetic(s[i]) && alphabetic(s[i + 1]) && alphabetic(s[i + 2]) && alphabetic(s[i + 3]),
    ensures
        !art(s),
{
    let w = s.subrange(i, i + 4);
    assert forall|k: int| 0 <= k < 4 implies in_class(#[trigger] w[k], CharClass::Letter) by {
        assert(w[k] == s[i + k]);
        assert(k == 0 || k == 1 || k == 2 || k == 3);
    }
}

proof fn lemma_counted(s: Seq<char>, k: CharClass, a: int)
    requires
        0 <= a < s.len(),
        in_class(s[a], k),
    ensures
        count_in(s, k) == count_in(s.take(a), k) + 1 + count_in(s.skip(a + 1), k),
    decreases s.len(),
{
    if a == s.len() - 1 {
        assert(s.take(a) =~= s.drop_last());
        assert(s.skip(a + 1) =~= Seq::<char>::empty());
    } else {
        assert(s.drop_last()[a] == s[a]);
        lemma_counted(s.drop_last(), k, a);
        assert(s.drop_last().take(a) =~= s.take(a));
        assert(s.drop_last().skip(a + 1) =~= s.skip(a + 1).drop_last());
    }
}

/// Two glyphs next to each other, or three anywhere, make a drawing of a line without words.
pub proof fn law_glyphs_make_a_drawing(s: Seq<char>, a: int, b: int, c: int)
    requires
        0 <= a < b < s.len(),
        is_glyph(s[a]) && is_glyph(s[b]),
        b == a + 1 || b < c < s.len() && is_glyph(s[c]),
        forall|k: int| 0 <= k < s.len() ==> !alphabetic(#[trigger] s[k]) && s[k] != '=',
    ensures
        art(s),
{
    let k = CharClass::UnicodeArt;
    lemma_no_word(s);
    lemma_no_assignment(s);
    if b == a + 1 {
        let w = s.subrange(a, a + 2);
        assert forall|j: int| 0 <= j < 2 implies in_class(#[trigger] w[j], k) by {
            assert(w[j] == s[a + j]);
        }
        assert(all_in(w, k));
    } else {
        lemma_counted(s, k, b);
        assert(s.take(b)[a] == s[a]);
        lemma_counted(s.take(b), k, a);
        assert(s.skip(b + 1)[c - b - 1] == s[c]);
        lemma_counted(s.skip(b + 1), k, c - b - 1);
    }
    assert(dense_unicode_art(s));
}

/// What may stand left of an assignment.
pub open spec fn is_target_char(c: char) -> bool {
    ||| 'a' <= c <= 'z' || 'A' <= c <= 'Z' || '0' <= c <= '9'
    ||| c == '_' || c == '.' || c == '-' || c == '>' || c == ':' || c == '['
    ||| c == ']' || c == '(' || c == ')' || c == '*' || c == '%' || c == '$'
}

/// The operators that assign.
pub open spec fn is_operator(op: Seq<char>) -> bool {
    ||| op == " ="@ || op == " +="@ || op == " -="@ || op == " *="@ || op == " /="@
    ||| op == " %="@ || op == " |="@ || op == " &="@ || op == " ^="@ || op == " <<="@
    ||| op == " >>="@
}

/// The operators that compare.
pub open spec fn is_comparison(op: Seq<char>) -> bool {
    op == " =="@ || op == " !="@ || op == " <="@ || op == " >="@ || op == " =>"@ || op == " =<"@
}

/// The operator ends in its first equals sign.
proof fn lemma_operator(op: Seq<char>)
    requires
        is_operator(op),
    ensures
        2 <= op.len() <= 4,
        op[0] == ' ',
        op.last() == '=',
        forall|k: int| 0 <= k < op.len() - 1 ==> #[trigger] op[k] != '=',
        op.len() == 3 ==> op[1] != '!' && op[1] != '<' && op[1] != '>' && "+-*/%|&^"@.contains(
            op[1],
        ),
        op.len() == 4 ==> op[1] == op[2] && (op[1] == '<' || op[1] == '>'),
{
    reveal_strlit("+-*/%|&^");
    let a = "+-*/%|&^"@;
    assert(a[0] == '+' && a[1] == '-' && a[2] == '*' && a[3] == '/' && a[4] == '%' && a[5] == '|'
        && a[6] == '&' && a[7] == '^');
    reveal_strlit(" =");
    reveal_strlit(" +=");
    reveal_strlit(" -=");
    reveal_strlit(" *=");
    reveal_strlit(" /=");
    reveal_strlit(" %=");
    reveal_strlit(" |=");
    reveal_strlit(" &=");
    reveal_strlit(" ^=");
    reveal_strlit(" <<=");
    reveal_strlit(" >>=");
}

proof fn lemma_target(c: char)
    requires
        is_target_char(c),
    ensures
        in_class(c, CharClass::LeftSide),
        c != '=' && !is_white(c),
{
    reveal_strlit("_.->:[]()*%$");
    let a = "_.->:[]()*%$"@;
    assert(a[0] == '_' && a[1] == '.' && a[2] == '-' && a[3] == '>' && a[4] == ':' && a[5] == '['
        && a[6] == ']' && a[7] == '(' && a[8] == ')' && a[9] == '*' && a[10] == '%' && a[11]
        == '$');
}

/// A name, an operator that assigns and a value make a row; up to forty-eight characters may
/// stand on the left.
#[verifier::spinoff_prover]
#[verifier::rlimit(40)]
pub proof fn law_assignments_are_rows(
    s: Seq<char>,
    left: Seq<char>,
    op: Seq<char>,
    value: Seq<char>,
    k: int,
)
    requires
        trimmed(s) == left + op + (seq![' '] + value),
        is_operator(op),
        forall|j: int| 0 <= j < left.len() ==> is_target_char(#[trigger] left[j]),
        0 <= k < left.len(),
        'a' <= left[k] <= 'z' || 'A' <= left[k] <= 'Z' || left[k] == '_',
        value.len() > 0 && !is_white(value[0]),
    ensures
        assignment_line(s) == (left.len() <= 48),
{
    let t = trimmed(s);
    let m = left.len() as int;
    let rhs = seq![' '] + value;
    lemma_operator(op);
    let n = m + op.len() - 1;
    assert forall|j: int| 0 <= j < n implies in_class(#[trigger] t[j], CharClass::NotOne('=')) by {
        if j < m {
            assert(t[j] == left[j]);
            lemma_target(left[j]);
        } else {
            assert(t[j] == op[j - m]);
        }
    }
    assert(t[n] == op.last());
    lemma_lead_len(t, CharClass::NotOne('='), n);
    assert(t.skip(n + 1) =~= rhs);
    assert(trimmed(rhs).len() > 0) by {
        crate::pieces::lemma_solid_inside(rhs, 1);
        crate::pieces::lemma_has_words(rhs);
    }
    let lhs = t.take(n);
    assert(lhs =~= left + op.drop_last());
    assert(assigned_part(lhs) == Some(left)) by {
        let kept = left + seq![' '];
        assert(trimmed_end(kept) == left) by {
            assert(left.last() == left[m - 1]);
            lemma_target(left[m - 1]);
            crate::text::lemma_trail_len(kept, CharClass::White, 1);
            assert(kept.take(kept.len() - 1) =~= left);
        }
        if op.len() == 2 {
            assert(lhs =~= kept);
            assert(!"+-*/%|&^"@.contains(' ')) by {
                reveal_strlit("+-*/%|&^");
            }
        } else if op.len() == 3 {
            assert(lhs.last() == op[1]);
            assert(lhs.drop_last() =~= kept);
        } else {
            assert(lhs.last() == op[2]);
            assert(lhs[lhs.len() - 2] == op[1]);
            assert(lhs.take(lhs.len() - 2) =~= kept);
        }
    }
    assert(in_class(left[k], CharClass::NameStart));
    assert forall|j: int| 0 <= j < left.len() implies in_class(
        #[trigger] left[j],
        CharClass::LeftSide,
    ) by {
        lemma_target(left[j]);
    }
}

/// A comparison is no row.
pub proof fn law_comparisons_are_no_rows(
    s: Seq<char>,
    left: Seq<char>,
    op: Seq<char>,
    value: Seq<char>,
)
    requires
        trimmed(s) == left + op + value,
        is_comparison(op),
        forall|j: int| 0 <= j < left.len() ==> #[trigger] left[j] != '=',
    ensures
        !assignment_line(s),
{
    let t = trimmed(s);
    let m = left.len() as int;
    reveal_strlit(" ==");
    reveal_strlit(" !=");
    reveal_strlit(" <=");
    reveal_strlit(" >=");
    reveal_strlit(" =>");
    reveal_strlit(" =<");
    assert(t[m] == op[0] && t[m + 1] == op[1] && t[m + 2] == op[2]);
    let n = if op[1] == '=' {
        m + 1
    } else {
        m + 2
    };
    assert forall|j: int| 0 <= j < n implies in_class(#[trigger] t[j], CharClass::NotOne('=')) by {
        if j < m {
            assert(t[j] == left[j]);
        }
    }
    lemma_lead_len(t, CharClass::NotOne('='), n);
    let lhs = t.take(n);
    if op[1] == '=' {
        assert(t.skip(n + 1)[0] == op[2]);
    } else {
        assert(lhs.last() == op[1]);
        assert(lhs[lhs.len() - 2] == ' ');
    }
}

/// Two rows below each other that fit keep their lines.
pub proof fn law_rows_in_a_run_keep_their_lines(
    lines: Seq<StrippedText>,
    flavor: DocFlavor,
    budget: usize,
    i: int,
    j: int,
)
    requires
        0 <= i < lines.len(),
        0 <= j < lines.len(),
        j == i + 1 || j == i - 1,
        base_kind(lines, i, flavor) == LineKind::Prose,
        base_kind(lines, j, flavor) == LineKind::Prose,
        assignment_line(lines[i].body) && within(lines[i].body, budget),
        assignment_line(lines[j].body) && within(lines[j].body, budget),
    ensures
        keeps_layout(lines, flavor, budget, i),
{
    let kinds = Seq::new(lines.len(), |r: int| base_kind(lines, r, flavor));
    let rows = mapping_rows(lines, kinds, budget);
    assert(kinds[i] == LineKind::Prose && kinds[j] == LineKind::Prose);
    assert(mapping_row(lines, kinds, budget, i));
    assert(mapping_row(lines, kinds, budget, j));
    assert(rows[i] && rows[j]);
    assert(line_kinds(lines, flavor, budget)[i] == LineKind::LabelRow);
}

/// A name with a capital, a colon and a blank behind it make a labelled row.
pub proof fn law_labels_make_rows(s: Seq<char>, name: Seq<char>, gap: Seq<char>, value: Seq<char>)
    requires
        trimmed(s) == name + gap + (seq![':', ' '] + value),
        name.len() > 0 && 'A' <= name[0] <= 'Z',
        forall|j: int|
            0 <= j < name.len() ==> 'a' <= #[trigger] name[j] <= 'z' || 'A' <= name[j] <= 'Z'
                || '0' <= name[j] <= '9' || name[j] == '_',
        gap.len() == 0 || gap == seq![' '],
    ensures
        label_shape(s),
{
    let t = trimmed(s);
    let n = name.len() as int;
    assert forall|j: int| 0 <= j < n implies in_class(#[trigger] t[j], CharClass::Word) by {
        assert(t[j] == name[j]);
    }
    assert(t[n] == ':' || t[n] == ' ') by {
        if gap.len() == 0 {
            assert(t[n] == ':');
        }
    }
    lemma_lead_len(t, CharClass::Word, n);
    assert(t[0] == name[0]);
    let rest = t.skip(n);
    assert(rest =~= gap + (seq![':', ' '] + value));
    lemma_lead_len(rest, CharClass::White, gap.len() as int);
    let more = crate::text::trimmed_start(rest);
    assert(more =~= seq![':', ' '] + value);
    assert(more.skip(1)[0] == ' ');
}

/// Two labelled rows below each other that fit keep their lines, where no prose runs on from
/// them.
pub proof fn law_labels_in_a_run_keep_their_lines(
    lines: Seq<StrippedText>,
    flavor: DocFlavor,
    budget: usize,
    i: int,
    j: int,
)
    requires
        0 <= i < lines.len(),
        0 <= j < lines.len(),
        j == i + 1 || j == i - 1,
        base_kind(lines, i, flavor) == LineKind::Prose,
        base_kind(lines, j, flavor) == LineKind::Prose,
        label_shape(lines[i].body) && within(lines[i].body, budget),
        label_shape(lines[j].body) && within(lines[j].body, budget),
        ({
            let last = if i < j {
                j
            } else {
                i
            };
            last + 1 < lines.len() ==> base_kind(lines, last + 1, flavor) != LineKind::Prose
                || label_shape(lines[last + 1].body)
        }),
    ensures
        keeps_layout(lines, flavor, budget, i),
{
    let kinds = Seq::new(lines.len(), |r: int| base_kind(lines, r, flavor));
    let rows = label_rows(lines, kinds, budget);
    assert(kinds[i] == LineKind::Prose && kinds[j] == LineKind::Prose);
    assert(label_row(lines, kinds, budget, i));
    assert(label_row(lines, kinds, budget, j));
    assert(rows[i] && rows[j]);
    assert(line_kinds(lines, flavor, budget)[i] == LineKind::LabelRow);
}

proof fn lemma_all_counted(s: Seq<char>, k: CharClass)
    requires
        forall|i: int| 0 <= i < s.len() ==> in_class(#[trigger] s[i], k),
    ensures
        count_in(s, k) == s.len(),
    decreases s.len(),
{
    if s.len() > 0 {
        let a = s.drop_last();
        assert forall|i: int| 0 <= i < a.len() implies in_class(#[trigger] a[i], k) by {
            assert(a[i] == s[i]);
        }
        lemma_all_counted(a, k);
        assert(in_class(s[s.len() - 1], k));
    }
}

/// Equals signs are strokes too: a line of nothing but strokes is a drawing, with one of them at
/// its front as well, where nothing can be assigned to.
pub proof fn law_equals_signs_are_strokes(s: Seq<char>)
    requires
        s.len() > 0,
        s[0] == '=',
        forall|k: int| 0 <= k < s.len() ==> is_stroke(#[trigger] s[k]) || s[k] == '=',
        forall|k: int| 0 <= k < s.len() ==> !alphabetic(#[trigger] s[k]),
    ensures
        art(s),
{
    lemma_no_word(s);
    assert forall|k: int| 0 <= k < s.len() implies in_class(#[trigger] s[k], CharClass::AsciiArt)
        && in_class(s[k], CharClass::NotBlank) by {
        lemma_strokes_are_art(s[k]);
    }
    lemma_all_counted(s, CharClass::AsciiArt);
    lemma_all_counted(s, CharClass::NotBlank);
    assert(dense_ascii_art(s));
    assert(!assignment_line(s)) by {
        assert(is_stroke(s[s.len() - 1]) || s[s.len() - 1] == '=');
        let none = Seq::<char>::empty();
        crate::directive_laws::lemma_trimmed_is(none, s, none);
        assert(none + s + none =~= s);
        lemma_lead_len(s, CharClass::NotOne('='), 0);
        assert(s.take(0) =~= none);
    }
}

} // verus!
