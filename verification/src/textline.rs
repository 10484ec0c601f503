//! Predicates on one line of text that more than one stage has to agree on.
//!
//! Most of them answer whether packing a line into a paragraph would destroy
//! what it means: fences, tables, deliberate indentation, drawings. The rest
//! are the shape of a decorative banner, the kernel-doc parameter line, and the
//! sentence boundary in front of a `Return` keyword.
//!
//! A line is read in this order. A solid rule is decoration and may be
//! rewritten. A box wall, a drawing, a table, a fence or indented code is
//! preserved as it stands. Everything else is prose, the only thing that is
//! wrapped.

use crate::text::{
    after_lead, all_in, any_in, chars_of, class_has, contains, count_in, count_lead, count_of,
    count_trail, drop_prefix, ends_with, first_char, has_char, has_prefix, has_suffix, has_text,
    in_class, is_white, lead_len, lead_run, leads_with, lemma_lead_len_facts, lemma_trail_len_facts,
    less_prefix, only_of, opens_with, skip_chars, skip_lead, some_of, split_words, starts_with,
    strip_prefix, strs, take_chars, take_lead, texts, trail_len, trim, trim_end, trim_start,
    trimmed, trimmed_end, trimmed_start, white, words_of, CharClass,
};
pub use crate::width::advance_col;
use vstd::prelude::*;

verus! {

/// Tab width for estimates taken before the indentation settings are known.
pub const FAST_PATH_TAB_WIDTH: usize = 8;

/// The marker that opens a fence line and the length of its run. A backtick
/// run with another backtick behind it is inline code.
pub open spec fn fence_run(body: Seq<char>) -> Option<(char, nat)> {
    let t = after_lead(body, CharClass::Blank);
    if !leads_with(t, CharClass::Two('`', '~')) {
        None
    } else {
        let run = lead_len(t, CharClass::One(t[0]));
        if t[0] == '`' && t.skip(run as int).contains('`') {
            None
        } else {
            Some((t[0], run))
        }
    }
}

/// Leading run of one backtick or tilde fence character, if any.
pub fn fence_marker_run(body: &str) -> (r: Option<(char, usize)>)
    ensures
        (match r {
            Some((c, n)) => fence_run(body@) == Some((c, n as nat)),
            None => fence_run(body@) is None,
        }),
{
    let t = skip_lead(body, CharClass::Blank);
    match first_char(t) {
        None => None,
        Some(c) => {
            if c != '`' && c != '~' {
                return None;
            }
            let run: usize = count_lead(t, CharClass::One(c));
            if c == '`' && has_char(skip_chars(t, run), '`') {
                return None;
            }
            Some((c, run))
        },
    }
}

/// A row of a legend: one marker, a gutter of two spaces, and a definition.
pub open spec fn is_legend_row(body: Seq<char>) -> bool {
    let t = trimmed_start(body);
    &&& leads_with(t, CharClass::Three('+', '-', 's'))
    &&& has_prefix(t.skip(1), "  "@)
    &&& (has_text(t, " means "@) || has_text(t, " = "@) || has_text(t, " : "@) || has_text(
        t,
        " - "@,
    ))
}

pub open spec fn table_row(body: Seq<char>) -> bool {
    let t = trimmed(body);
    ||| is_legend_row(body)
    ||| has_text(t, "+--"@)
    ||| count_in(t, CharClass::One('|')) >= 2
    ||| t.contains('\t') && words_of(t).len() >= 3
}

/// A legend row, a ruled row, or cells set apart by pipes or tabs.
pub fn is_table_row(body: &str) -> (r: bool)
    ensures
        r == table_row(body@),
{
    let legend = trim_start(body);
    if opens_with(legend, CharClass::Three('+', '-', 's')) {
        let gutter = skip_chars(legend, 1);
        if starts_with(gutter, "  ") && (contains(legend, " means ") || contains(legend, " = ")
            || contains(legend, " : ") || contains(legend, " - ")) {
            return true;
        }
    }
    let t = trim(body);
    if contains(t, "+--") {
        return true;
    }
    let cells = split_words(t);
    assert(cells.len() == strs(cells@).len());
    count_of(t, CharClass::One('|')) >= 2 || (has_char(t, '\t') && cells.len() >= 3)
}

/// Some neighbour of row `i` is marked.
pub open spec fn has_marked_neighbour(rows: Seq<bool>, i: int) -> bool {
    (i > 0 && rows[i - 1]) || (i + 1 < rows.len() && rows[i + 1])
}

/// Keeps a mark only where it has a marked neighbour: a run of two or more.
pub fn keep_complete_row_runs(is_row: &mut Vec<bool>)
    ensures
        final(is_row).len() == old(is_row).len(),
        forall|i: int|
            0 <= i < final(is_row).len() ==> #[trigger] final(is_row)@[i] == (old(is_row)@[i]
                && has_marked_neighbour(old(is_row)@, i)),
{
    let ghost rows = is_row@;
    let mut prev = false;
    let mut i: usize = 0;
    while i < is_row.len()
        invariant
            i <= is_row.len(),
            is_row.len() == rows.len(),
            prev == (i > 0 && rows[i - 1]),
            forall|j: int|
                0 <= j < i ==> #[trigger] is_row@[j] == (rows[j] && has_marked_neighbour(rows, j)),
            forall|j: int| i <= j < rows.len() ==> #[trigger] is_row@[j] == rows[j],
        decreases is_row.len() - i,
    {
        let cur = is_row[i];
        let next = if i + 1 < is_row.len() {
            is_row[i + 1]
        } else {
            false
        };
        is_row.set(i, cur && (prev || next));
        prev = cur;
        i = i + 1;
    }
}

/// What stands left of the operator, when the text in front of the first `=`
/// ends a plain or compound assignment rather than a comparison.
pub open spec fn assigned_part(lhs: Seq<char>) -> Option<Seq<char>> {
    if lhs.len() == 0 {
        Some(lhs)
    } else {
        let last = lhs.last();
        if last == '!' {
            None
        } else if last == '<' || last == '>' {
            if lhs.len() >= 2 && lhs[lhs.len() - 2] == last {
                Some(trimmed_end(lhs.take(lhs.len() - 2)))
            } else {
                None
            }
        } else if "+-*/%|&^"@.contains(last) {
            Some(trimmed_end(lhs.drop_last()))
        } else {
            Some(trimmed_end(lhs))
        }
    }
}

/// A mapping row: one short code-like token, an assignment operator, a value.
pub open spec fn assignment_line(body: Seq<char>) -> bool {
    let t = trimmed(body);
    let n = lead_len(t, CharClass::NotOne('='));
    &&& n < t.len()
    &&& {
        let rhs = t.skip(n as int + 1);
        &&& !leads_with(rhs, CharClass::Three('=', '>', '<'))
        &&& trimmed(rhs).len() > 0
        &&& match assigned_part(t.take(n as int)) {
            Some(left) => 0 < left.len() <= 48 && any_in(left, CharClass::NameStart) && all_in(
                left,
                CharClass::LeftSide,
            ),
            None => false,
        }
    }
}

fn assigned_token<'a>(lhs: &'a str) -> (r: Option<&'a str>)
    ensures
        (match r {
            Some(t) => assigned_part(lhs@) == Some(t@),
            None => assigned_part(lhs@) is None,
        }),
{
    let len: usize = lhs.unicode_len();
    if len == 0 {
        return Some(lhs);
    }
    let last = lhs.get_char(len - 1);
    if last == '!' {
        None
    } else if last == '<' || last == '>' {
        if len >= 2 && lhs.get_char(len - 2) == last {
            Some(trim_end(take_chars(lhs, len - 2)))
        } else {
            None
        }
    } else if has_char("+-*/%|&^", last) {
        assert(lhs@.drop_last() == lhs@.take(len - 1));
        Some(trim_end(take_chars(lhs, len - 1)))
    } else {
        Some(trim_end(lhs))
    }
}

/// One `X = Y` mapping row.
pub fn is_assignment_line(body: &str) -> (r: bool)
    ensures
        r == assignment_line(body@),
{
    let t = trim(body);
    let n: usize = count_lead(t, CharClass::NotOne('='));
    if n >= t.unicode_len() {
        return false;
    }
    let rhs = skip_chars(t, n + 1);
    if opens_with(rhs, CharClass::Three('=', '>', '<')) || trim(rhs).is_empty() {
        return false;
    }
    match assigned_token(take_chars(t, n)) {
        None => false,
        Some(left) => {
            let len: usize = left.unicode_len();
            len > 0 && len <= 48 && some_of(left, CharClass::NameStart) && only_of(
                left,
                CharClass::LeftSide,
            )
        },
    }
}

/// Deliberate alignment: a leading tab, or two and more leading blanks.
pub open spec fn indented_code(body: Seq<char>) -> bool {
    let lead = lead_run(body, CharClass::Blank);
    lead.len() >= 2 || lead.contains('\t')
}

pub fn is_indented_code(body: &str) -> (r: bool)
    ensures
        r == indented_code(body@),
{
    let lead = take_lead(body, CharClass::Blank);
    lead.unicode_len() >= 2 || has_char(lead, '\t')
}

/// `/**` or `/*!` opens a documentation block; `/***` and `/**/` do not.
pub open spec fn opens_doc_block(text: Seq<char>) -> bool {
    if has_prefix(text, "/**"@) {
        !leads_with(text.skip(3), CharClass::Two('*', '/'))
    } else {
        has_prefix(text, "/*!"@)
    }
}

pub fn block_is_doc(text: &str) -> (r: bool)
    ensures
        r == opens_doc_block(text@),
{
    proof {
        reveal_strlit("/**");
    }
    match strip_prefix(text, "/**") {
        Some(rest) => !opens_with(rest, CharClass::Two('*', '/')),
        None => starts_with(text, "/*!"),
    }
}

/// A single run of `-`, `=` or `*`, three or longer, and nothing else.
pub open spec fn horizontal_rule(body: Seq<char>) -> bool {
    let t = trimmed(body);
    &&& t.len() >= 3
    &&& in_class(t[0], CharClass::Rule)
    &&& all_in(t, CharClass::One(t[0]))
}

pub fn is_horizontal_rule(body: &str) -> (r: bool)
    ensures
        r == horizontal_rule(body@),
{
    let t = trim(body);
    match first_char(t) {
        None => false,
        Some(c) => (c == '-' || c == '=' || c == '*') && t.unicode_len() >= 3 && only_of(
            t,
            CharClass::One(c),
        ),
    }
}

/// Four alphabetic characters in a row.
pub open spec fn alpha_word(body: Seq<char>) -> bool {
    exists|i: int|
        0 <= i && i + 4 <= body.len() && all_in(#[trigger] body.subrange(i, i + 4), CharClass::Letter)
}

fn has_alpha_word_min4(body: &str) -> (r: bool)
    ensures
        r == alpha_word(body@),
{
    let v = chars_of(body);
    let mut run: usize = 0;
    let mut i: usize = 0;
    while i < v.len()
        invariant
            i <= v.len(),
            v@ == body@,
            run < 4,
            run <= i,
            forall|j: int| i - run <= j < i ==> in_class(#[trigger] body@[j], CharClass::Letter),
            run < i ==> !in_class(body@[i - run - 1], CharClass::Letter),
            forall|j: int|
                0 <= j && j + 4 <= i ==> !all_in(
                    #[trigger] body@.subrange(j, j + 4),
                    CharClass::Letter,
                ),
        decreases v.len() - i,
    {
        if v[i].is_alphabetic() {
            run = run + 1;
            if run >= 4 {
                proof {
                    let first = i - 3;
                    assert(all_in(body@.subrange(first, first + 4), CharClass::Letter));
                }
                return true;
            }
            assert forall|j: int| 0 <= j && j + 4 <= i + 1 implies !all_in(
                #[trigger] body@.subrange(j, j + 4),
                CharClass::Letter,
            ) by {
                if j + 4 == i + 1 {
                    let w = body@.subrange(j, j + 4);
                    assert(w[i - run - j] == body@[i - run as int]);
                }
            }
        } else {
            run = 0;
            assert forall|j: int| 0 <= j && j + 4 <= i + 1 implies !all_in(
                #[trigger] body@.subrange(j, j + 4),
                CharClass::Letter,
            ) by {
                if j + 4 == i + 1 {
                    assert(body@.subrange(j, j + 4)[3] == body@[i as int]);
                }
            }
        }
        i = i + 1;
    }
    false
}

/// More than two fifths of what is not blank is a drawing character.
pub open spec fn dense_ascii_art(body: Seq<char>) -> bool {
    let total = count_in(body, CharClass::NotBlank);
    total > 0 && count_in(body, CharClass::AsciiArt) * 100 > total * 40
}

fn ascii_art_density(body: &str) -> (r: bool)
    ensures
        r == dense_ascii_art(body@),
{
    let total: usize = count_of(body, CharClass::NotBlank);
    let art: usize = count_of(body, CharClass::AsciiArt);
    total > 0 && art as u128 * 100 > total as u128 * 40
}

/// Three drawing glyphs anywhere, or two in a row.
pub open spec fn dense_unicode_art(body: Seq<char>) -> bool {
    ||| count_in(body, CharClass::UnicodeArt) >= 3
    ||| exists|i: int|
        0 <= i && i + 2 <= body.len() && all_in(
            #[trigger] body.subrange(i, i + 2),
            CharClass::UnicodeArt,
        )
}


fn unicode_art_density(body: &str) -> (r: bool)
    ensures
        r == dense_unicode_art(body@),
{
    if count_of(body, CharClass::UnicodeArt) >= 3 {
        return true;
    }
    let v = chars_of(body);
    let mut i: usize = 0;
    while i < v.len()
        invariant
            i <= v.len(),
            v@ == body@,
            forall|j: int|
                0 <= j < i && j + 2 <= body@.len() ==> !all_in(
                    #[trigger] body@.subrange(j, j + 2),
                    CharClass::UnicodeArt,
                ),
        decreases v.len() - i,
    {
        let ghost pair = body@.subrange(i as int, i + 2);
        if i + 1 < v.len() {
            assert(pair[0] == body@[i as int] && pair[1] == body@[i + 1]);
            if class_has(v[i], CharClass::UnicodeArt) && class_has(v[i + 1], CharClass::UnicodeArt) {
                assert(all_in(pair, CharClass::UnicodeArt));
                return true;
            }
        }
        i = i + 1;
    }
    false
}

/// What a decorated line is decoration of.
pub enum BookendKind {
    Labeled(String),
    Bare,
}

/// `BookendKind` over plain text.
pub enum Bookend {
    Labeled(Seq<char>),
    Bare,
}

impl View for BookendKind {
    type V = Bookend;

    open spec fn view(&self) -> Bookend {
        match *self {
            BookendKind::Labeled(s) => Bookend::Labeled(s@),
            BookendKind::Bare => Bookend::Bare,
        }
    }
}

/// All characters are the same one.
pub open spec fn uniform(s: Seq<char>) -> bool {
    s.len() > 0 ==> all_in(s, CharClass::One(s[0]))
}

/// `t` opens with a uniform run of three or more rule characters that white
/// space sets off.
pub open spec fn rule_leads(t: Seq<char>) -> bool {
    let n = lead_len(t, CharClass::Rule) as int;
    n >= 3 && n < t.len() && is_white(t[n]) && uniform(t.take(n))
}

/// The same at the end of `t`.
pub open spec fn rule_trails(t: Seq<char>) -> bool {
    let n = trail_len(t, CharClass::Rule) as int;
    n >= 3 && n < t.len() && is_white(t[t.len() - n - 1]) && uniform(t.skip(t.len() - n))
}

/// The decoration that a line is: a bare rule, possibly behind leftover star
/// markers, or a label between two rules. A run on one side only is content,
/// and so is a run of mixed characters.
pub open spec fn bookend(body: Seq<char>) -> Option<Bookend> {
    let t = trimmed(body);
    if all_in(t, CharClass::Rule) {
        let stars = lead_len(t, CharClass::One('*'));
        if t.len() >= 3 && (stars == t.len() || uniform(t.skip(stars as int))) {
            Some(Bookend::Bare)
        } else {
            None
        }
    } else if rule_leads(t) && rule_trails(t) {
        let label = trimmed(
            t.subrange(
                lead_len(t, CharClass::Rule) as int,
                t.len() - trail_len(t, CharClass::Rule),
            ),
        );
        if label.len() == 0 {
            None
        } else if all_in(label, CharClass::RuleOrWhite) {
            Some(Bookend::Bare)
        } else {
            Some(Bookend::Labeled(label))
        }
    } else {
        None
    }
}

fn is_uniform(s: &str) -> (r: bool)
    ensures
        r == uniform(s@),
{
    match first_char(s) {
        None => true,
        Some(c) => only_of(s, CharClass::One(c)),
    }
}

fn leads_with_rule(t: &str) -> (r: bool)
    ensures
        r == rule_leads(t@),
{
    let n: usize = count_lead(t, CharClass::Rule);
    n >= 3 && n < t.unicode_len() && white(t.get_char(n)) && is_uniform(take_chars(t, n))
}

fn trails_with_rule(t: &str) -> (r: bool)
    ensures
        r == rule_trails(t@),
{
    let len: usize = t.unicode_len();
    let n: usize = count_trail(t, CharClass::Rule);
    n >= 3 && n < len && white(t.get_char(len - n - 1)) && is_uniform(skip_chars(t, len - n))
}

/// The decoration that a line is, if it is one.
pub fn bookend_match(body: &str) -> (r: Option<BookendKind>)
    ensures
        (match r {
            Some(k) => bookend(body@) == Some(k@),
            None => bookend(body@) is None,
        }),
{
    let t = trim(body);
    let len: usize = t.unicode_len();
    if only_of(t, CharClass::Rule) {
        let stars: usize = count_lead(t, CharClass::One('*'));
        return if len >= 3 && (stars == len || is_uniform(skip_chars(t, stars))) {
            Some(BookendKind::Bare)
        } else {
            None
        };
    }
    if !leads_with_rule(t) || !trails_with_rule(t) {
        return None;
    }
    let lead: usize = count_lead(t, CharClass::Rule);
    let trail: usize = count_trail(t, CharClass::Rule);
    proof {
        lemma_lead_len_facts(t@, CharClass::Rule);
        lemma_trail_len_facts(t@, CharClass::Rule);
        assert(!in_class(t@[lead as int], CharClass::Rule));
    }
    let label = trim(t.substring_char(lead, len - trail));
    if label.is_empty() {
        return None;
    }
    if only_of(label, CharClass::RuleOrWhite) {
        return Some(BookendKind::Bare);
    }
    Some(BookendKind::Labeled(label.to_string()))
}

/// A line is decoration.
pub open spec fn is_bookend(body: Seq<char>) -> bool {
    bookend(body) is Some
}

pub fn bookended(body: &str) -> (r: bool)
    ensures
        r == is_bookend(body@),
{
    bookend_match(body).is_some()
}

/// A rule on one side only of a label.
pub open spec fn half_banner(body: Seq<char>) -> bool {
    !is_bookend(body) && (rule_leads(trimmed(body)) || rule_trails(trimmed(body)))
}

pub fn one_sided_banner(body: &str) -> (r: bool)
    ensures
        r == half_banner(body@),
{
    let t = trim(body);
    !bookended(body) && (leads_with_rule(t) || trails_with_rule(t))
}

/// A drawing: no word of four letters, no mapping row, and enough drawing
/// characters. A mapping row that carries a rule may still be one.
pub open spec fn art(body: Seq<char>) -> bool {
    &&& !alpha_word(body)
    &&& !(assignment_line(body) && !is_bookend(body) && !half_banner(body))
    &&& (dense_ascii_art(body) || dense_unicode_art(body))
}

pub fn is_art(body: &str) -> (r: bool)
    ensures
        r == art(body@),
{
    if has_alpha_word_min4(body) {
        return false;
    }
    if is_assignment_line(body) && !bookended(body) && !one_sided_banner(body) {
        return false;
    }
    ascii_art_density(body) || unicode_art_density(body)
}

/// A box wall: fenced on both ends by a pipe, or by a star with a space.
pub open spec fn frame_line(t: Seq<char>) -> bool {
    ||| t.len() >= 2 && has_prefix(t, "|"@) && has_suffix(t, "|"@)
    ||| t.len() >= 4 && has_prefix(t, "* "@) && has_suffix(t, " *"@)
}

fn looks_like_ascii_art_frame_line(t: &str) -> (r: bool)
    ensures
        r == frame_line(t@),
{
    let len: usize = t.unicode_len();
    (len >= 2 && starts_with(t, "|") && ends_with(t, "|")) || (len >= 4 && starts_with(t, "* ")
        && ends_with(t, " *"))
}

/// A line that holds something, and no letter or a box wall around it.
pub open spec fn art_only(body: Seq<char>) -> bool {
    let t = trimmed(body);
    t.len() > 0 && (!any_in(t, CharClass::Letter) || frame_line(t))
}

pub fn line_is_art_only(body: &str) -> (r: bool)
    ensures
        r == art_only(body@),
{
    let t = trim(body);
    !t.is_empty() && (!some_of(t, CharClass::Letter) || looks_like_ascii_art_frame_line(t))
}

/// `@name:` or `@name :`, with a name of ASCII letters, digits and `_`.
pub open spec fn kernel_doc_tag(s: Seq<char>) -> bool {
    let rest = s.skip(1);
    let n = lead_len(rest, CharClass::Word);
    &&& leads_with(s, CharClass::One('@'))
    &&& n > 0
    &&& leads_with(trimmed_start(rest.skip(n as int)), CharClass::One(':'))
}

pub fn is_kernel_doc_tag(s: &str) -> (r: bool)
    ensures
        r == kernel_doc_tag(s@),
{
    if !opens_with(s, CharClass::One('@')) {
        return false;
    }
    let rest = skip_chars(s, 1);
    let n: usize = count_lead(rest, CharClass::Word);
    n > 0 && opens_with(trim_start(skip_chars(rest, n)), CharClass::One(':'))
}

/// Where a scan of prose stands: how deep in brackets, inside a quotation or
/// not, and behind an odd run of backslashes or not.
pub ghost struct Nesting {
    pub depth: nat,
    pub quoted: bool,
    pub escaped: bool,
}

/// The scan's state behind `s`. A closing bracket with nothing open is ignored,
/// and brackets inside a quotation do not count.
pub open spec fn nesting(s: Seq<char>) -> Nesting
    decreases s.len(),
{
    if s.len() == 0 {
        Nesting { depth: 0, quoted: false, escaped: false }
    } else {
        let n = nesting(s.drop_last());
        let c = s.last();
        if c == '\\' {
            Nesting { escaped: !n.escaped, ..n }
        } else if c == '"' && !n.escaped {
            Nesting { quoted: !n.quoted, escaped: false, ..n }
        } else if (c == '(' || c == '[' || c == '{') && !n.quoted {
            Nesting { depth: n.depth + 1, escaped: false, ..n }
        } else if (c == ')' || c == ']' || c == '}') && !n.quoted && n.depth > 0 {
            Nesting { depth: (n.depth - 1) as nat, escaped: false, ..n }
        } else {
            Nesting { escaped: false, ..n }
        }
    }
}

/// `pos` lies in a quotation or a bracket that is closed behind it.
pub open spec fn enclosed(body: Seq<char>, pos: int) -> bool {
    let n = nesting(body.take(pos));
    let rest = body.skip(pos);
    if n.quoted {
        rest.contains('"')
    } else {
        n.depth > 0 && any_in(rest, CharClass::Three(')', ']', '}'))
    }
}

fn is_inside_bracket_or_quote(body: &str, pos: usize) -> (r: bool)
    requires
        pos <= body@.len(),
    ensures
        r == enclosed(body@, pos as int),
{
    let v = chars_of(body);
    let mut depth: usize = 0;
    let mut quoted = false;
    let mut escaped = false;
    let mut i: usize = 0;
    while i < pos
        invariant
            i <= pos <= v.len(),
            v@ == body@,
            depth <= i,
            nesting(body@.take(i as int)) == (Nesting { depth: depth as nat, quoted, escaped }),
        decreases pos - i,
    {
        assert(body@.take(i + 1).drop_last() == body@.take(i as int));
        let c = v[i];
        if c == '\\' {
            escaped = !escaped;
        } else {
            if c == '"' && !escaped {
                quoted = !quoted;
            } else if (c == '(' || c == '[' || c == '{') && !quoted {
                depth = depth + 1;
            } else if (c == ')' || c == ']' || c == '}') && !quoted && depth > 0 {
                depth = depth - 1;
            }
            escaped = false;
        }
        i = i + 1;
    }
    let rest = skip_chars(body, pos);
    if quoted {
        has_char(rest, '"')
    } else {
        depth > 0 && some_of(rest, CharClass::Three(')', ']', '}'))
    }
}

/// The dot at `dot` ends a list ordinal that opens the body.
pub open spec fn ordinal_dot(body: Seq<char>, dot: int) -> bool {
    body[dot] == '.' && dot > 0 && all_in(body.take(dot), CharClass::Digit)
}

fn is_list_ordinal_dot(body: &str, dot: usize, c: char) -> (r: bool)
    requires
        dot < body@.len(),
        c == body@[dot as int],
    ensures
        r == ordinal_dot(body@, dot as int),
{
    c == '.' && dot > 0 && only_of(take_chars(body, dot), CharClass::Digit)
}

/// No further word character follows.
pub open spec fn word_ends(s: Seq<char>) -> bool {
    !leads_with(s, CharClass::Word)
}

/// `Return` or `Returns`, or `return` or `returns` behind a tag marker, as a
/// whole word.
pub open spec fn return_token(s: Seq<char>) -> bool {
    if has_prefix(s, "Return"@) {
        word_ends(less_prefix(s.skip("Return"@.len() as int), "s"@))
    } else if leads_with(s, CharClass::Two('@', '\\')) {
        let rest = s.skip(1);
        if has_prefix(rest, "returns"@) {
            word_ends(rest.skip("returns"@.len() as int))
        } else {
            has_prefix(rest, "return"@) && word_ends(rest.skip("return"@.len() as int))
        }
    } else {
        false
    }
}

fn is_return_token_start(s: &str) -> (r: bool)
    ensures
        r == return_token(s@),
{
    if let Some(rest) = strip_prefix(s, "Return") {
        return !opens_with(drop_prefix(rest, "s"), CharClass::Word);
    }
    if !opens_with(s, CharClass::Two('@', '\\')) {
        return false;
    }
    let rest = skip_chars(s, 1);
    if let Some(after) = strip_prefix(rest, "returns") {
        return !opens_with(after, CharClass::Word);
    }
    match strip_prefix(rest, "return") {
        Some(after) => !opens_with(after, CharClass::Word),
        None => false,
    }
}

/// Where the text behind the blanks that follow position `i` starts.
pub open spec fn past_blanks(body: Seq<char>, i: int) -> int {
    i + lead_len(body.skip(i), CharClass::Blank)
}

/// A sentence ends at `i` and a `Return` keyword opens the next one. Not so
/// where the dot is that of a list ordinal, or inside brackets or quotes.
pub open spec fn return_boundary(body: Seq<char>, i: int) -> bool {
    let j = past_blanks(body, i + 1);
    &&& in_class(body[i], CharClass::Three('.', '!', '?'))
    &&& j > i + 1
    &&& return_token(body.skip(j))
    &&& !ordinal_dot(body, i)
    &&& !enclosed(body, i)
}

/// The groups of sentences of `body` from `start` on, cut at the boundaries at
/// and behind `i`.
pub open spec fn return_groups(body: Seq<char>, start: int, i: int) -> Seq<Seq<char>>
    decreases body.len() - i,
{
    if i >= body.len() {
        let tail = trimmed(body.skip(start));
        if tail.len() > 0 {
            seq![tail]
        } else {
            Seq::empty()
        }
    } else if return_boundary(body, i) {
        let j = past_blanks(body, i + 1);
        seq![trimmed(body.subrange(start, j))] + return_groups(body, j, i + 1)
    } else {
        return_groups(body, start, i + 1)
    }
}

/// `body` cut in front of every `Return` keyword that opens a sentence; a body
/// without text is one piece.
pub open spec fn return_pieces(body: Seq<char>) -> Seq<Seq<char>> {
    let g = return_groups(body, 0, 0);
    if g.len() == 0 {
        seq![body]
    } else {
        g
    }
}

/// Cuts a paragraph in front of every `Return` keyword that opens a sentence.
pub fn split_at_return_boundary(body: &str) -> (r: Vec<String>)
    ensures
        texts(r@) == return_pieces(body@),
{
    let v = chars_of(body);
    let mut segments: Vec<String> = Vec::new();
    let mut start: usize = 0;
    let mut i: usize = 0;
    while i < v.len()
        invariant
            i <= v.len(),
            v@ == body@,
            start <= v.len(),
            forall|t: int| i <= t < start ==> in_class(#[trigger] body@[t], CharClass::Blank),
            texts(segments@) + return_groups(body@, start as int, i as int) == return_groups(
                body@,
                0,
                0,
            ),
        decreases v.len() - i,
    {
        let c = v[i];
        if c == '.' || c == '!' || c == '?' {
            assert(start <= i) by {
                if start > i {
                    assert(in_class(body@[i as int], CharClass::Blank));
                }
            }
            let behind = skip_chars(body, i + 1);
            let blanks: usize = count_lead(behind, CharClass::Blank);
            let j: usize = i + 1 + blanks;
            if blanks > 0 && is_return_token_start(skip_chars(body, j)) && !is_list_ordinal_dot(
                body,
                i,
                c,
            ) && !is_inside_bracket_or_quote(body, i) {
                let ghost before = texts(segments@);
                segments.push(trim(body.substring_char(start, j)).to_string());
                proof {
                    lemma_lead_len_facts(behind@, CharClass::Blank);
                    assert forall|t: int| i + 1 <= t < j implies in_class(
                        #[trigger] body@[t],
                        CharClass::Blank,
                    ) by {
                        assert(behind@[t - i - 1] == body@[t]);
                    }
                    assert(return_boundary(body@, i as int));
                    assert(texts(segments@) =~= before + seq![
                        trimmed(body@.subrange(start as int, j as int)),
                    ]);
                    assert(texts(segments@) + return_groups(body@, j as int, i + 1) =~= before
                        + return_groups(body@, start as int, i as int));
                }
                start = j;
            }
        }
        i = i + 1;
    }
    let tail = trim(skip_chars(body, start));
    let ghost before = texts(segments@);
    if !tail.is_empty() {
        segments.push(tail.to_string());
        assert(texts(segments@) =~= before + seq![tail@]);
    } else {
        assert(texts(segments@) =~= before + return_groups(body@, start as int, i as int));
    }
    if segments.len() == 0 {
        segments.push(body.to_string());
        assert(texts(segments@) =~= seq![body@]);
    }
    segments
}

} // verus!
