//! Which lines of a comment keep the layout that they have in the source.

use crate::classify::DocFlavor;
use crate::linekind::{
    art_adjacent_bookend, atx_header, base_kind, blockquote, command_shape, line_kinds, list_item,
    metadata_line, reference_link, region_before, LineKind, Region, StrippedText,
};
use crate::normalize::preformatted;
use crate::ordinary_prose::lemma_trimmed_at;
use crate::text::{
    all_in, count_in, has_prefix, has_text, in_class, lead_len, lead_run, leads_with,
    lemma_lead_len, lemma_lead_len_facts, sub_at, trimmed, trimmed_start, words_of, CharClass,
};
use crate::textline::{indented_code, is_bookend, is_legend_row, table_row};
use vstd::prelude::*;

verus! {

/// No line in front of line `i` starts with a fence or a command.
pub open spec fn below_plain_lines(lines: Seq<StrippedText>, i: int) -> bool {
    forall|j: int|
        0 <= j < i ==> {
            let t = trimmed((#[trigger] lines[j]).body);
            t.len() > 0 ==> t[0] != '`' && t[0] != '~' && t[0] != '@' && t[0] != '\\'
        }
}

/// Line `i` goes out as it came in.
pub open spec fn keeps_layout(
    lines: Seq<StrippedText>,
    flavor: DocFlavor,
    budget: usize,
    i: int,
) -> bool {
    preformatted(line_kinds(lines, flavor, budget)[i])
}

/// A line that starts with none of their characters opens no region.
pub proof fn lemma_opens_nothing(s: Seq<char>)
    requires
        trimmed(s).len() > 0 ==> trimmed(s)[0] != '`' && trimmed(s)[0] != '~' && trimmed(s)[0]
            != '@' && trimmed(s)[0] != '\\',
    ensures
        !crate::linekind::opens_fence(s),
        command_shape(s) is None,
{
    let o = lemma_trimmed_at(s);
    let n = lead_len(s, CharClass::Blank) as int;
    lemma_lead_len_facts(s, CharClass::Blank);
    let w = lead_len(s, CharClass::White) as int;
    lemma_lead_len_facts(s, CharClass::White);
    let b = crate::text::after_lead(s, CharClass::Blank);
    if b.len() > 0 {
        assert(b[0] == s[n]);
        if n < w {
            assert(in_class(s[n], CharClass::White));
        } else if n > w {
            assert(in_class(s[w], CharClass::Blank));
            assert(!in_class(s[w], CharClass::White));
        } else {
            assert(trimmed_start(s)[0] == s[n]);
        }
    }
}

pub proof fn lemma_region_text(lines: Seq<StrippedText>, i: int)
    requires
        0 <= i <= lines.len(),
        below_plain_lines(lines, i),
    ensures
        region_before(lines, i) == Region::Text,
    decreases i,
{
    if i > 0 {
        assert(below_plain_lines(lines, i - 1)) by {
            assert forall|j: int| 0 <= j < i - 1 implies {
                let t = trimmed((#[trigger] lines[j]).body);
                t.len() > 0 ==> t[0] != '`' && t[0] != '~' && t[0] != '@' && t[0] != '\\'
            } by {
                assert(0 <= j < i);
            }
        }
        lemma_region_text(lines, i - 1);
        lemma_opens_nothing(lines[i - 1].body);
    }
}

/// A text with a character that is neither `=` nor `-` is no underline.
pub proof fn lemma_no_underline(s: Seq<char>, k: int)
    requires
        0 <= k < trimmed(s).len(),
        trimmed(s)[k] != '=' && trimmed(s)[k] != '-',
    ensures
        !crate::linekind::setext_rule(s),
{
    let t = trimmed(s);
    assert(!in_class(t[k], CharClass::One('=')) && !in_class(t[k], CharClass::One('-')));
}

pub proof fn lemma_no_hash(s: Seq<char>)
    requires
        trimmed(s).len() > 0,
        trimmed(s)[0] != '#',
    ensures
        !atx_header(s),
{
    lemma_lead_len(trimmed(s), CharClass::One('#'), 0);
}

/// A line that is laid out by its own shape keeps its layout.
proof fn lemma_laid_out(
    lines: Seq<StrippedText>,
    flavor: DocFlavor,
    budget: usize,
    i: int,
    k: int,
)
    requires
        0 <= i < lines.len(),
        below_plain_lines(lines, i),
        0 <= k < trimmed(lines[i].body).len(),
        trimmed(lines[i].body)[k] != '=' && trimmed(lines[i].body)[k] != '-',
        trimmed(lines[i].body)[0] != '#',
        ({
            let s = lines[i].body;
            metadata_line(s) || table_row(s) || indented_code(s) || blockquote(s)
                || reference_link(s)
        }),
    ensures
        keeps_layout(lines, flavor, budget, i),
{
    lemma_region_text(lines, i);
    lemma_no_underline(lines[i].body, k);
    lemma_no_hash(lines[i].body);
    assert(preformatted(base_kind(lines, i, flavor)));
}

/// A text that starts with `p` has it as a prefix.
pub proof fn lemma_prefixed(p: Seq<char>, rest: Seq<char>)
    ensures
        has_prefix(p + rest, p),
        (p + rest).skip(p.len() as int) == rest,
        p.len() > 0 ==> (p + rest)[0] == p[0],
{
    assert((p + rest).subrange(0, p.len() as int) =~= p);
    assert((p + rest).skip(p.len() as int) =~= rest);
}

/// A line that is a licence tag, a version or a licence note, or a copyright notice with a year
/// or a sign.
pub open spec fn is_note(t: Seq<char>, rest: Seq<char>) -> bool {
    ||| t == "SPDX-"@ + rest
    ||| t == "Version:"@ + rest
    ||| t == "License:"@ + rest
    ||| t == "Copyright "@ + rest && rest.len() > 0 && '0' <= rest[0] <= '9'
    ||| t == "Copyright \u{a9}"@ + rest
    ||| t == "Copyright (c)"@ + rest
    ||| t == "Copyright (C)"@ + rest
}

proof fn lemma_copyright(s: Seq<char>, rest: Seq<char>)
    requires
        trimmed(s) == "Copyright "@ + rest,
        rest.len() > 0 && !crate::text::is_white(rest[0]),
        ('0' <= rest[0] <= '9') || rest[0] == '\u{a9}' || has_prefix(rest, "(c)"@) || has_prefix(
            rest,
            "(C)"@,
        ),
    ensures
        metadata_line(s),
        trimmed(s)[0] == 'C',
{
    reveal_strlit("Copyright");
    reveal_strlit("Copyright ");
    let t = trimmed(s);
    assert("Copyright "@ + rest =~= "Copyright"@ + (" "@ + rest)) by {
        reveal_strlit(" ");
    }
    lemma_prefixed("Copyright"@, " "@ + rest);
    let more = t.skip("Copyright"@.len() as int);
    reveal_strlit(" ");
    assert(more == " "@ + rest);
    lemma_lead_len(more, CharClass::White, 1);
    assert(trimmed_start(more) =~= rest);
}

/// Licence tags, version notes and copyright notices are kept on their lines.
pub proof fn law_notes_keep_their_lines(
    lines: Seq<StrippedText>,
    flavor: DocFlavor,
    budget: usize,
    i: int,
    rest: Seq<char>,
)
    requires
        0 <= i < lines.len(),
        below_plain_lines(lines, i),
        is_note(trimmed(lines[i].body), rest),
    ensures
        keeps_layout(lines, flavor, budget, i),
{
    let s = lines[i].body;
    let t = trimmed(s);
    reveal_strlit("SPDX-");
    reveal_strlit("Version:");
    reveal_strlit("License:");
    lemma_prefixed("SPDX-"@, rest);
    lemma_prefixed("Version:"@, rest);
    lemma_prefixed("License:"@, rest);
    assert(metadata_line(s) && t.len() > 0 && t[0] != '#' && t[0] != '-' && t[0] != '=') by {
        reveal_strlit("Copyright ");
        if t == "Copyright "@ + rest && rest.len() > 0 && '0' <= rest[0] <= '9' {
            lemma_copyright(s, rest);
        } else if t == "Copyright \u{a9}"@ + rest {
            reveal_strlit("Copyright \u{a9}");
            assert(t =~= "Copyright "@ + (seq!['\u{a9}'] + rest));
            lemma_copyright(s, seq!['\u{a9}'] + rest);
        } else if t == "Copyright (c)"@ + rest {
            reveal_strlit("Copyright (c)");
            reveal_strlit("(c)");
            assert(t =~= "Copyright "@ + ("(c)"@ + rest));
            lemma_prefixed("(c)"@, rest);
            lemma_copyright(s, "(c)"@ + rest);
        } else if t == "Copyright (C)"@ + rest {
            reveal_strlit("Copyright (C)");
            reveal_strlit("(C)");
            assert(t =~= "Copyright "@ + ("(C)"@ + rest));
            lemma_prefixed("(C)"@, rest);
            lemma_copyright(s, "(C)"@ + rest);
        }
    }
    lemma_laid_out(lines, flavor, budget, i, 0);
}

proof fn lemma_counted_one(s: Seq<char>, k: CharClass, a: int)
    requires
        0 <= a < s.len(),
        in_class(s[a], k),
    ensures
        count_in(s, k) >= 1,
    decreases s.len(),
{
    if a < s.len() - 1 {
        assert(s.drop_last()[a] == s[a]);
        lemma_counted_one(s.drop_last(), k, a);
    }
}

pub proof fn lemma_counted_two(s: Seq<char>, k: CharClass, a: int, b: int)
    requires
        0 <= a < b < s.len(),
        in_class(s[a], k),
        in_class(s[b], k),
    ensures
        count_in(s, k) >= 2,
    decreases s.len(),
{
    assert(s.drop_last()[a] == s[a]);
    if b < s.len() - 1 {
        assert(s.drop_last()[b] == s[b]);
        lemma_counted_two(s.drop_last(), k, a, b);
    } else {
        lemma_counted_one(s.drop_last(), k, a);
    }
}

/// A line with two bars is a row of a table, and so are a border and columns set with tabs.
pub proof fn law_rows_keep_their_columns(
    lines: Seq<StrippedText>,
    flavor: DocFlavor,
    budget: usize,
    i: int,
    a: int,
    b: int,
)
    requires
        0 <= i < lines.len(),
        below_plain_lines(lines, i),
        ({
            let t = trimmed(lines[i].body);
            &&& 0 <= a < t.len()
            &&& t[0] != '#'
            &&& {
                ||| a < b < t.len() && t[a] == '|' && t[b] == '|'
                ||| a + 2 < t.len() && t[a] == '+' && t[a + 1] == '-' && t[a + 2] == '-'
                ||| t[a] == '\t' && words_of(t).len() >= 3
            }
        }),
    ensures
        keeps_layout(lines, flavor, budget, i),
{
    let t = trimmed(lines[i].body);
    reveal_strlit("+--");
    if a < b < t.len() && t[a] == '|' && t[b] == '|' {
        lemma_counted_two(t, CharClass::One('|'), a, b);
    } else if t[a] == '+' {
        assert(t.subrange(a, a + 3) =~= "+--"@);
        assert(sub_at(t, "+--"@, a));
    }
    lemma_laid_out(lines, flavor, budget, i, a);
}

/// A sign, a gutter of two spaces and a definition behind it are a row of a legend.
pub proof fn law_legends_keep_their_gutter(
    lines: Seq<StrippedText>,
    flavor: DocFlavor,
    budget: usize,
    i: int,
    a: int,
)
    requires
        0 <= i < lines.len(),
        below_plain_lines(lines, i),
        ({
            let t = trimmed_start(lines[i].body);
            &&& t.len() > 2 && t[1] == ' ' && t[2] == ' '
            &&& t[0] == '+' || t[0] == '-' || t[0] == 's'
            &&& sub_at(t, " means "@, a) || sub_at(t, " = "@, a) || sub_at(t, " : "@, a) || sub_at(
                t,
                " - "@,
                a,
            )
        }),
    ensures
        keeps_layout(lines, flavor, budget, i),
{
    let s = lines[i].body;
    let u = trimmed_start(s);
    let t = trimmed(s);
    let o = lemma_trimmed_at(s);
    reveal_strlit("  ");
    assert(u.skip(1).subrange(0, 2) =~= "  "@);
    assert(has_text(u, " means "@) || has_text(u, " = "@) || has_text(u, " : "@) || has_text(
        u,
        " - "@,
    ));
    assert(is_legend_row(s));
    lemma_lead_len_facts(s, CharClass::White);
    assert(t.len() > 0) by {
        if t.len() == 0 {
            assert(u.len() == 0);
        }
    }
    crate::text::lemma_trail_len_facts(u, CharClass::White);
    assert(t[0] == u[0]);
    if t.len() == 1 {
        // Nothing but the sign would be left, and the definition holds more.
        reveal_strlit(" means ");
        reveal_strlit(" = ");
        reveal_strlit(" : ");
        reveal_strlit(" - ");
        let d = if sub_at(u, " means "@, a) {
            " means "@
        } else if sub_at(u, " = "@, a) {
            " = "@
        } else if sub_at(u, " : "@, a) {
            " : "@
        } else {
            " - "@
        };
        assert(u.subrange(a, a + d.len())[1] == u[a + 1]);
        assert(!crate::text::is_white(d[1]));
        assert(in_class(u[a + 1], CharClass::White));
    }
    if t[0] == 's' {
        lemma_laid_out(lines, flavor, budget, i, 0);
    } else {
        assert(t[1] == u[1]);
        lemma_laid_out(lines, flavor, budget, i, 1);
    }
}

/// Text behind a tab or two spaces is code.
pub proof fn law_indented_lines_keep_their_layout(
    lines: Seq<StrippedText>,
    flavor: DocFlavor,
    budget: usize,
    i: int,
    k: int,
)
    requires
        0 <= i < lines.len(),
        below_plain_lines(lines, i),
        ({
            let s = lines[i].body;
            let t = trimmed(s);
            &&& s[0] == '\t' || s[0] == ' ' && s.len() > 1 && (s[1] == ' ' || s[1] == '\t')
            &&& 0 <= k < t.len()
            &&& t[k] != '=' && t[k] != '-'
            &&& t[0] != '#'
        }),
    ensures
        keeps_layout(lines, flavor, budget, i),
{
    let s = lines[i].body;
    lemma_trimmed_at(s);
    lemma_lead_len_facts(s, CharClass::Blank);
    let n = lead_len(s, CharClass::Blank) as int;
    let lead = lead_run(s, CharClass::Blank);
    assert(n > 0) by {
        assert(in_class(s[0], CharClass::Blank));
    }
    assert(lead[0] == s[0]);
    if s[0] == ' ' {
        if n == 1 {
            assert(in_class(s[1], CharClass::Blank));
        }
    }
    lemma_laid_out(lines, flavor, budget, i, k);
}

/// Quoted lines and the definitions of references keep their lines.
pub proof fn law_quotes_and_references_keep_their_lines(
    lines: Seq<StrippedText>,
    flavor: DocFlavor,
    budget: usize,
    i: int,
    label: Seq<char>,
    rest: Seq<char>,
)
    requires
        0 <= i < lines.len(),
        below_plain_lines(lines, i),
        ({
            let t = trimmed(lines[i].body);
            ||| t == ">"@
            ||| t == "> "@ + rest
            ||| t == "["@ + label + "]: "@ + rest && label.len() > 0 && !label.contains(']')
        }),
    ensures
        keeps_layout(lines, flavor, budget, i),
{
    let s = lines[i].body;
    let t = trimmed(s);
    reveal_strlit(">");
    reveal_strlit("> ");
    reveal_strlit("[");
    reveal_strlit("]: ");
    lemma_prefixed("> "@, rest);
    if t == "["@ + label + "]: "@ + rest && label.len() > 0 && !label.contains(']') {
        let n = 1 + label.len();
        assert forall|j: int| 0 <= j < n implies in_class(#[trigger] t[j], CharClass::NotOne(']')) by {
            if j > 0 {
                assert(t[j] == label[j - 1]);
                assert(label.contains(label[j - 1]));
            }
        }
        assert(t[n as int] == ']');
        lemma_lead_len(t, CharClass::NotOne(']'), n as int);
        assert(t.skip(n as int) =~= "]: "@ + rest);
        lemma_prefixed("]: "@, rest);
        assert(reference_link(s));
    }
    lemma_laid_out(lines, flavor, budget, i, 0);
}

/// Up to six hashes and a blank open a heading, which stands alone.
pub proof fn law_hashes_open_a_heading(
    lines: Seq<StrippedText>,
    flavor: DocFlavor,
    budget: usize,
    i: int,
    n: int,
)
    requires
        0 <= i < lines.len(),
        below_plain_lines(lines, i),
        ({
            let t = trimmed(lines[i].body);
            &&& 0 < n < t.len()
            &&& forall|j: int| 0 <= j < n ==> #[trigger] t[j] == '#'
            &&& t[n] == ' ' || t[n] == '\t'
        }),
    ensures
        (line_kinds(lines, flavor, budget)[i] == LineKind::AtxHeader) == (n <= 6),
{
    let s = lines[i].body;
    let t = trimmed(s);
    lemma_region_text(lines, i);
    assert(t[0] == '#');
    lemma_opens_nothing(s);
    lemma_no_underline(s, 0);
    lemma_lead_len(t, CharClass::One('#'), n);
    assert(t.skip(n)[0] == t[n]);
    lemma_lead_len(t, CharClass::Rule, 0);
    assert(!is_bookend(s)) by {
        assert(!in_class(t[0], CharClass::Rule));
    }
    assert(!art_adjacent_bookend(lines, i));
}

/// A line without bars, tabs and further plus signs that starts with none of the characters
/// that set a line off is neither a row nor a note nor a quote.
pub proof fn lemma_not_laid_out(s: Seq<char>)
    requires
        s.len() > 2,
        !crate::text::is_white(s[0]),
        s[0] != 'S' && s[0] != 'V' && s[0] != 'L' && s[0] != 'C' && s[0] != '>' && s[0] != '[',
        !(s[1] == ' ' && s[2] == ' '),
        s[0] == '+' ==> s[1] != '-',
        forall|j: int| 0 <= j < s.len() ==> #[trigger] s[j] != '\t' && s[j] != '|',
        forall|j: int| 0 < j < s.len() ==> #[trigger] s[j] != '+',
    ensures
        !table_row(s),
        !metadata_line(s),
        !blockquote(s),
        !reference_link(s),
        !indented_code(s),
        trimmed_start(s) == s,
{
    let t = trimmed(s);
    lemma_lead_len(s, CharClass::White, 0);
    assert(trimmed_start(s) =~= s);
    crate::text::lemma_trail_len_facts(s, CharClass::White);
    let m = crate::text::trail_len(s, CharClass::White) as int;
    assert(t =~= s.take(s.len() - m));
    assert(m < s.len()) by {
        if m == s.len() {
            assert(in_class(s[0], CharClass::White));
        }
    }
    assert(t[0] == s[0]);
    assert(!table_row(s)) by {
        reveal_strlit("  ");
        reveal_strlit("+--");
        if has_prefix(s.skip(1), "  "@) {
            assert(s.skip(1).subrange(0, 2)[1] == s[2]);
            assert(s.skip(1).subrange(0, 2)[0] == s[1]);
        }
        if has_text(t, "+--"@) {
            let a = choose|a: int| #[trigger] sub_at(t, "+--"@, a);
            assert(t.subrange(a, a + 3)[0] == t[a]);
            assert(t.subrange(a, a + 3)[1] == t[a + 1]);
            assert(t[a] == s[a]);
            assert(a == 0);
            assert(t[1] == s[1]);
        }
        assert forall|j: int| 0 <= j < t.len() implies !in_class(
            #[trigger] t[j],
            CharClass::One('|'),
        ) by {
            assert(t[j] == s[j]);
        }
        crate::lower_prose::lemma_none_counted(t, CharClass::One('|'));
        if t.contains('\t') {
            let j = choose|j: int| 0 <= j < t.len() && t[j] == '\t';
            assert(t[j] == s[j]);
        }
    }
    assert(!metadata_line(s) && !blockquote(s) && !reference_link(s)) by {
        reveal_strlit("SPDX-");
        reveal_strlit("Version:");
        reveal_strlit("License:");
        reveal_strlit("Copyright");
        reveal_strlit(">");
        reveal_strlit("> ");
        if has_prefix(t, "SPDX-"@) {
            assert(t.subrange(0, 5)[0] == t[0]);
        }
        if has_prefix(t, "Version:"@) {
            assert(t.subrange(0, 8)[0] == t[0]);
        }
        if has_prefix(t, "License:"@) {
            assert(t.subrange(0, 8)[0] == t[0]);
        }
        if has_prefix(t, "Copyright"@) {
            assert(t.subrange(0, 9)[0] == t[0]);
        }
        if has_prefix(t, "> "@) {
            assert(t.subrange(0, 2)[0] == t[0]);
        }
    }
    assert(!indented_code(s)) by {
        assert(!in_class(s[0], CharClass::Blank));
        lemma_lead_len(s, CharClass::Blank, 0);
    }
}

/// A bullet or a number that a blank sets off opens an item of a list, which is filled.
pub proof fn law_bullets_open_items(
    lines: Seq<StrippedText>,
    flavor: DocFlavor,
    budget: usize,
    i: int,
    n: int,
)
    requires
        0 <= i < lines.len(),
        below_plain_lines(lines, i),
        ({
            let s = lines[i].body;
            &&& 0 <= n && n + 2 < s.len()
            &&& forall|j: int| 0 <= j < n ==> '0' <= #[trigger] s[j] <= '9'
            &&& n == 0 ==> s[0] == '-' || s[0] == '*' || s[0] == '+'
            &&& n > 0 ==> s[n] == '.' || s[n] == ')'
            &&& s[n + 1] == ' '
            &&& 'a' <= s[n + 2] <= 'z' || 'A' <= s[n + 2] <= 'Z'
            &&& forall|j: int| 0 <= j < s.len() ==> #[trigger] s[j] != '\t' && s[j] != '|'
            &&& forall|j: int| 0 < j < s.len() ==> #[trigger] s[j] != '+'
        }),
    ensures
        line_kinds(lines, flavor, budget)[i] == LineKind::ListItem,
        !keeps_layout(lines, flavor, budget, i),
{
    let s = lines[i].body;
    let t = trimmed(s);
    lemma_lead_len(s, CharClass::White, 0);
    assert(trimmed_start(s) =~= s);
    crate::text::lemma_trail_len_facts(s, CharClass::White);
    let m = crate::text::trail_len(s, CharClass::White) as int;
    assert(t =~= s.take(s.len() - m));
    assert(m <= s.len() - (n + 3)) by {
        if m > s.len() - (n + 3) {
            assert(in_class(s[n + 2], CharClass::White));
        }
    }
    assert(t[n] == s[n] && t[n + 1] == s[n + 1] && t[n + 2] == s[n + 2]);
    lemma_region_text(lines, i);
    lemma_opens_nothing(s);
    lemma_no_underline(s, n + 2);
    lemma_no_hash(s);
    assert(!is_bookend(s)) by {
        assert(!in_class(t[n + 2], CharClass::Rule));
        assert(t[0] == s[0]);
        if n == 0 && s[0] != '+' {
            lemma_lead_len(t, CharClass::Rule, 1);
        } else {
            lemma_lead_len(t, CharClass::Rule, 0);
        }
    }
    lemma_not_laid_out(s);
    assert(list_item(s)) by {
        assert(!in_class(s[n], CharClass::Digit));
        lemma_lead_len(s, CharClass::Digit, n);
        assert(s.skip(1)[0] == s[1]);
        assert(s.skip(n)[0] == s[n]);
        assert(s.skip(n).skip(1)[0] == s[n + 1]);
    }
    assert(!leads_with(s, CharClass::One('@')));
    assert(!art_adjacent_bookend(lines, i));
}

/// Two or more equals signs, or dashes, under prose underline it; one does not.
pub proof fn law_underlines_stand_under_prose(
    lines: Seq<StrippedText>,
    flavor: DocFlavor,
    budget: usize,
    i: int,
    c: char,
)
    requires
        0 < i < lines.len(),
        below_plain_lines(lines, i),
        base_kind(lines, i - 1, flavor) == LineKind::Prose,
        !art_adjacent_bookend(lines, i),
        c == '=' || c == '-',
        trimmed(lines[i].body).len() > 0,
        forall|k: int|
            0 <= k < trimmed(lines[i].body).len() ==> #[trigger] trimmed(lines[i].body)[k] == c,
    ensures
        (line_kinds(lines, flavor, budget)[i] == LineKind::SetextUnderline) == (trimmed(
            lines[i].body,
        ).len() >= 2),
{
    let s = lines[i].body;
    let t = trimmed(s);
    lemma_region_text(lines, i);
    assert(t[0] == c);
    lemma_opens_nothing(s);
    assert forall|k: int| 0 <= k < t.len() implies in_class(#[trigger] t[k], CharClass::One(c)) by {
        assert(t[k] == c);
    }
    assert(all_in(t, CharClass::One(c)));
}

} // verus!
