//! Runs of comments that read as one.

use crate::bytes::{slice, span};
use crate::comment::{comment_texts, Comment, CommentText};
use crate::text::{
    after_lead, cat2, chars_of, contains, count_lead, drop_prefix, drop_suffix, has_char,
    has_prefix, has_text, join_texts, joined, lead_len, leads_with, less_prefix, less_suffix,
    opens_with, same, skip_chars, skip_lead, split_char, split_on, starts_with, strip_prefix, strs,
    take_chars, texts, trim, trim_end, trim_start, trimmed, trimmed_end, trimmed_start, CharClass,
};
use crate::textline::{
    art, block_is_doc, fence_marker_run, fence_run, horizontal_rule, indented_code, is_art,
    is_horizontal_rule, is_indented_code, is_table_row, opens_doc_block, table_row,
};
use vstd::prelude::*;

verus! {

/// The marker that a comment starts with. Runs of hashes of different length
/// are different markers.
#[derive(Debug, Clone, Copy, PartialEq, Eq, Structural)]
pub enum MarkerKind {
    Slash3,
    SlashBang,
    Slash2,
    PlainBlock,
    HashRun(usize),
}

/// `MarkerKind` for texts of any length.
pub ghost enum Marker {
    Slash3,
    SlashBang,
    Slash2,
    PlainBlock,
    HashRun(nat),
}

impl View for MarkerKind {
    type V = Marker;

    open spec fn view(&self) -> Marker {
        match *self {
            MarkerKind::Slash3 => Marker::Slash3,
            MarkerKind::SlashBang => Marker::SlashBang,
            MarkerKind::Slash2 => Marker::Slash2,
            MarkerKind::PlainBlock => Marker::PlainBlock,
            MarkerKind::HashRun(n) => Marker::HashRun(n as nat),
        }
    }
}

pub open spec fn marker_of(text: Seq<char>) -> Option<Marker> {
    if has_prefix(text, "///"@) {
        Some(Marker::Slash3)
    } else if has_prefix(text, "//!"@) {
        Some(Marker::SlashBang)
    } else if has_prefix(text, "//"@) {
        Some(Marker::Slash2)
    } else if has_prefix(text, "/*"@) && !opens_doc_block(text) {
        Some(Marker::PlainBlock)
    } else if has_prefix(text, "#!"@) {
        None
    } else if leads_with(text, CharClass::One('#')) {
        Some(Marker::HashRun(lead_len(text, CharClass::One('#'))))
    } else {
        None
    }
}

pub open spec fn opt_marker(o: Option<MarkerKind>) -> Option<Marker> {
    match o {
        Some(m) => Some(m@),
        None => None,
    }
}

pub fn marker_kind(text: &str) -> (r: Option<MarkerKind>)
    ensures
        opt_marker(r) == marker_of(text@),
{
    if starts_with(text, "///") {
        Some(MarkerKind::Slash3)
    } else if starts_with(text, "//!") {
        Some(MarkerKind::SlashBang)
    } else if starts_with(text, "//") {
        Some(MarkerKind::Slash2)
    } else if starts_with(text, "/*") && !block_is_doc(text) {
        Some(MarkerKind::PlainBlock)
    } else if starts_with(text, "#!") {
        None
    } else if opens_with(text, CharClass::One('#')) {
        let run: usize = count_lead(text, CharClass::One('#'));
        Some(MarkerKind::HashRun(run))
    } else {
        None
    }
}

/// `line` without a continuation marker of one or two stars and the blank that
/// sets it off.
pub open spec fn less_star_marker(line: Seq<char>) -> Seq<char> {
    let two = line.skip(2);
    let one = line.skip(1);
    if has_prefix(line, "**"@) && (two.len() == 0 || leads_with(two, CharClass::Blank)) {
        less_blank(two)
    } else if has_prefix(line, "*"@) && (one.len() == 0 || leads_with(one, CharClass::Blank)) {
        less_blank(one)
    } else {
        line
    }
}

/// `s` without one leading blank.
pub open spec fn less_blank(s: Seq<char>) -> Seq<char> {
    if leads_with(s, CharClass::Blank) {
        s.skip(1)
    } else {
        s
    }
}

fn drop_blank<'a>(s: &'a str) -> (r: &'a str)
    ensures
        r@ == less_blank(s@),
{
    if opens_with(s, CharClass::Blank) {
        skip_chars(s, 1)
    } else {
        s
    }
}

fn strip_block_line_prefix<'a>(line: &'a str) -> (r: &'a str)
    ensures
        r@ == less_star_marker(line@),
{
    proof {
        reveal_strlit("**");
        reveal_strlit("*");
    }
    if let Some(rest) = strip_prefix(line, "**") {
        if rest.is_empty() || opens_with(rest, CharClass::Blank) {
            return drop_blank(rest);
        }
    }
    if let Some(rest) = strip_prefix(line, "*") {
        if rest.is_empty() || opens_with(rest, CharClass::Blank) {
            return drop_blank(rest);
        }
    }
    line
}

/// The text of a block comment on one line.
pub open spec fn one_line_text(line: Seq<char>) -> Seq<char> {
    less_prefix(
        trimmed_end(less_suffix(less_prefix(trimmed_start(line), "/*"@), "*/"@)),
        " "@,
    )
}

/// The text of one line of a block comment on several lines.
pub open spec fn inner_line_text(line: Seq<char>, first: bool, last: bool) -> Seq<char> {
    let a = after_lead(line, CharClass::Blank);
    let b = if first {
        trimmed_start(less_prefix(a, "/*"@))
    } else {
        a
    };
    let c = if last {
        trimmed_end(less_suffix(b, "*/"@))
    } else {
        b
    };
    trimmed_end(less_star_marker(after_lead(c, CharClass::Blank)))
}

/// The list without blank texts at its front.
pub open spec fn less_blank_front(v: Seq<Seq<char>>) -> Seq<Seq<char>>
    decreases v.len(),
{
    if v.len() > 0 && trimmed(v[0]).len() == 0 {
        less_blank_front(v.skip(1))
    } else {
        v
    }
}

/// The list without blank texts at its back.
pub open spec fn less_blank_back(v: Seq<Seq<char>>) -> Seq<Seq<char>>
    decreases v.len(),
{
    if v.len() > 0 && trimmed(v.last()).len() == 0 {
        less_blank_back(v.drop_last())
    } else {
        v
    }
}

pub open spec fn less_blank_edges(v: Seq<Seq<char>>) -> Seq<Seq<char>> {
    less_blank_back(less_blank_front(v))
}

/// Drops blank lines at both ends.
fn trim_blank_edges(lines: &mut Vec<String>)
    ensures
        texts(final(lines)@) == less_blank_edges(texts(old(lines)@)),
{
    let ghost given = texts(lines@);
    while lines.len() > 0 && trim(lines[0].as_str()).is_empty()
        invariant
            less_blank_front(texts(lines@)) == less_blank_front(given),
        decreases lines.len(),
    {
        let ghost before = texts(lines@);
        assert(before[0] == lines@[0]@);
        let _ = lines.remove(0);
        assert(texts(lines@) =~= before.skip(1));
    }
    proof {
        if lines.len() > 0 {
            assert(texts(lines@)[0] == lines@[0]@);
        }
    }
    let ghost front = texts(lines@);
    assert(front == less_blank_front(given));
    while lines.len() > 0 && trim(lines[lines.len() - 1].as_str()).is_empty()
        invariant
            less_blank_back(texts(lines@)) == less_blank_back(front),
        decreases lines.len(),
    {
        let ghost before = texts(lines@);
        assert(before.last() == lines@.last()@);
        let _ = lines.pop();
        assert(texts(lines@) =~= before.drop_last());
    }
    proof {
        if lines.len() > 0 {
            assert(texts(lines@).last() == lines@.last()@);
        }
    }
}

/// The text lines of a block comment.
pub open spec fn block_texts(text: Seq<char>) -> Seq<Seq<char>> {
    let raw = split_on(text, '\n');
    if raw.len() == 1 {
        seq![one_line_text(raw[0])]
    } else {
        less_blank_edges(
            Seq::new(
                raw.len(),
                |i: int| inner_line_text(raw[i], i == 0, i == raw.len() - 1),
            ),
        )
    }
}

fn inner_line<'a>(line: &'a str, first: bool, last: bool) -> (r: &'a str)
    ensures
        r@ == inner_line_text(line@, first, last),
{
    let a = skip_lead(line, CharClass::Blank);
    let b = if first {
        trim_start(drop_prefix(a, "/*"))
    } else {
        a
    };
    let c = if last {
        trim_end(drop_suffix(b, "*/"))
    } else {
        b
    };
    trim_end(strip_block_line_prefix(skip_lead(c, CharClass::Blank)))
}

fn block_body_lines(text: &str) -> (r: Vec<String>)
    ensures
        texts(r@) == block_texts(text@),
{
    let raw = split_char(text, '\n');
    let ghost all = split_on(text@, '\n');
    assert(raw.len() == all.len());
    let mut out: Vec<String> = Vec::new();
    if raw.len() == 1 {
        assert(all[0] == raw@[0]@);
        let body = drop_prefix(
            trim_end(drop_suffix(drop_prefix(trim_start(raw[0]), "/*"), "*/")),
            " ",
        );
        out.push(body.to_string());
        assert(texts(out@) =~= seq![one_line_text(all[0])]);
        return out;
    }
    let ghost want = Seq::new(
        all.len(),
        |i: int| inner_line_text(all[i], i == 0, i == all.len() - 1),
    );
    let mut i: usize = 0;
    while i < raw.len()
        invariant
            i <= raw.len(),
            raw.len() > 0,
            all == strs(raw@),
            want == Seq::new(
                all.len(),
                |i: int| inner_line_text(all[i], i == 0, i == all.len() - 1),
            ),
            out.len() == i,
            forall|j: int| 0 <= j < i ==> (#[trigger] out@[j])@ == want[j],
        decreases raw.len() - i,
    {
        assert(all[i as int] == raw@[i as int]@);
        out.push(inner_line(raw[i], i == 0, i == raw.len() - 1).to_string());
        i = i + 1;
    }
    assert(texts(out@) =~= want);
    trim_blank_edges(&mut out);
    out
}

/// A line that opens a verbatim block.
pub open spec fn verbatim_open(t: Seq<char>) -> bool {
    opens_command(t, "@code"@) || opens_command(t, "\\code"@) || opens_command(t, "@verbatim"@)
        || opens_command(t, "\\verbatim"@)
}

/// `t` is `command`, alone or with a blank behind it.
pub open spec fn opens_command(t: Seq<char>, command: Seq<char>) -> bool {
    t == command || has_prefix(t, command) && leads_with(
        t.skip(command.len() as int),
        CharClass::Blank,
    )
}

fn starts_command(t: &str, command: &str) -> (r: bool)
    ensures
        r == opens_command(t@, command@),
{
    same(t, command) || match strip_prefix(t, command) {
        Some(rest) => opens_with(rest, CharClass::Blank),
        None => false,
    }
}

fn is_verbatim_open(t: &str) -> (r: bool)
    ensures
        r == verbatim_open(t@),
{
    starts_command(t, "@code") || starts_command(t, "\\code") || starts_command(t, "@verbatim")
        || starts_command(t, "\\verbatim")
}

/// A fence of three or more.
pub open spec fn fence_line(t: Seq<char>) -> bool {
    match fence_run(t) {
        Some((_, n)) => n >= 3,
        None => false,
    }
}

/// A text line that keeps its layout, which a merged comment would not. A solid
/// rule does not count: it is decoration.
pub open spec fn laid_out(line: Seq<char>) -> bool {
    let t = trimmed(line);
    &&& t.len() > 0
    &&& !horizontal_rule(t)
    &&& (table_row(t) || fence_line(t) || verbatim_open(t) || indented_code(line) || art(t))
}

fn block_line_is_preformatted(line: &str) -> (r: bool)
    ensures
        r == laid_out(line@),
{
    let t = trim(line);
    if t.is_empty() || is_horizontal_rule(t) {
        return false;
    }
    let fence = match fence_marker_run(t) {
        Some((_, run)) => run >= 3,
        None => false,
    };
    is_table_row(t) || fence || is_verbatim_open(t) || is_indented_code(line) || is_art(t)
}

/// A plain block with a line that keeps its layout.
pub open spec fn has_laid_out_line(text: Seq<char>) -> bool {
    &&& marker_of(text) == Some(Marker::PlainBlock)
    &&& exists|i: int| 0 <= i < block_texts(text).len() && laid_out(#[trigger] block_texts(text)[i])
}

fn block_merge_has_preformatted(text: &str) -> (r: bool)
    ensures
        r == has_laid_out_line(text@),
{
    match marker_kind(text) {
        Some(MarkerKind::PlainBlock) => {},
        _ => {
            return false;
        },
    }
    let lines = block_body_lines(text);
    let ghost all = block_texts(text@);
    let mut i: usize = 0;
    assert(lines.len() == all.len());
    while i < lines.len()
        invariant
            i <= lines.len() == all.len(),
            all == texts(lines@),
            all == block_texts(text@),
            marker_of(text@) == Some(Marker::PlainBlock),
            forall|j: int| 0 <= j < i ==> !laid_out(#[trigger] all[j]),
        decreases lines.len() - i,
    {
        assert(all[i as int] == lines@[i as int]@);
        if block_line_is_preformatted(lines[i].as_str()) {
            return true;
        }
        i = i + 1;
    }
    false
}

/// What stands between two comments is one line break and the second one's
/// indentation.
pub open spec fn one_break_between(between: Seq<char>, indent: Seq<char>) -> bool {
    let n = lead_len(between, CharClass::NotOne('\n')) as int;
    &&& n < between.len()
    &&& trimmed(between.take(n)).len() == 0
    &&& !between.skip(n + 1).contains('\n')
    &&& between.skip(n + 1) == indent
}

/// A licence tag in a block at the start of the file, which has to keep the
/// file's first line.
pub open spec fn leading_licence_tag(c: CommentText) -> bool {
    c.at_file_start && marker_of(c.text) == Some(Marker::PlainBlock) && has_text(
        c.text,
        "SPDX-License-Identifier"@,
    )
}

/// Two neighbouring comments read as one: same marker, same column, one line
/// break between them, and nothing that forbids to touch either.
pub open spec fn merges(prev: CommentText, next: CommentText, src: Seq<char>) -> bool {
    &&& !prev.force_passthrough && !next.force_passthrough
    &&& !has_laid_out_line(prev.text) && !has_laid_out_line(next.text)
    &&& !prev.is_trailing && !next.is_trailing
    &&& !leading_licence_tag(prev)
    &&& marker_of(prev.text) is Some && marker_of(prev.text) == marker_of(next.text)
    &&& prev.start_col_byte == next.start_col_byte
    &&& prev.end_byte < next.start_byte
    &&& one_break_between(span(src, prev.end_byte, next.start_byte), next.line_indent_bytes)
}

pub fn can_merge(prev: &Comment, next: &Comment, source: &str) -> (r: bool)
    requires
        prev@.placed(source@),
        next@.placed(source@),
    ensures
        r == merges(prev@, next@, source@),
{
    if prev.force_passthrough || next.force_passthrough {
        return false;
    }
    let prev_text = prev.text.as_str();
    let next_text = next.text.as_str();
    if block_merge_has_preformatted(prev_text) || block_merge_has_preformatted(next_text) {
        return false;
    }
    if prev.is_trailing || next.is_trailing {
        return false;
    }
    let prev_marker = marker_kind(prev_text);
    if prev.at_file_start && prev_marker == Some(MarkerKind::PlainBlock) && contains(
        prev_text,
        "SPDX-License-Identifier",
    ) {
        return false;
    }
    let next_marker = marker_kind(next_text);
    assert((prev_marker == next_marker) == (opt_marker(prev_marker) == opt_marker(next_marker)));
    if prev_marker.is_none() || prev_marker != next_marker {
        return false;
    }
    if prev.start_col_byte != next.start_col_byte {
        return false;
    }
    if next.start_byte <= prev.end_byte {
        return false;
    }
    let between = slice(source, prev.end_byte, next.start_byte);
    let n: usize = count_lead(between, CharClass::NotOne('\n'));
    if n >= between.unicode_len() {
        return false;
    }
    if !trim(take_chars(between, n)).is_empty() {
        return false;
    }
    let indent = skip_chars(between, n + 1);
    !has_char(indent, '\n') && same(indent, next.line_indent_bytes.as_str())
}

/// How many line feeds of `s` follow a carriage return.
pub open spec fn crlf_count(s: Seq<char>) -> nat
    decreases s.len(),
{
    if s.len() == 0 {
        0
    } else {
        crlf_count(s.drop_last()) + if s.last() == '\n' && s.len() > 1 && s[s.len() - 2] == '\r' {
            1nat
        } else {
            0
        }
    }
}

/// The line ending that most breaks of `s` have; a tie goes to the line feed.
pub open spec fn dominant_ending(s: Seq<char>) -> Seq<char> {
    if 2 * crlf_count(s) > crate::text::count_in(s, CharClass::One('\n')) {
        "\r\n"@
    } else {
        "\n"@
    }
}

pub fn dominant_line_ending(text: &str) -> (r: &'static str)
    ensures
        r@ == dominant_ending(text@),
{
    let v = chars_of(text);
    let ghost all = text@;
    let mut crlf: usize = 0;
    let mut bare: usize = 0;
    let mut i: usize = 0;
    while i < v.len()
        invariant
            crlf + bare <= i <= v.len(),
            v@ == all,
            crlf == crlf_count(all.take(i as int)),
            crlf + bare == crate::text::count_in(all.take(i as int), CharClass::One('\n')),
        decreases v.len() - i,
    {
        proof {
            let t = all.take(i + 1);
            assert(t.drop_last() == all.take(i as int));
            if i > 0 {
                assert(t[t.len() - 2] == all[i - 1]);
            }
        }
        if v[i] == '\n' {
            if i > 0 && v[i - 1] == '\r' {
                crlf = crlf + 1;
            } else {
                bare = bare + 1;
            }
        }
        i = i + 1;
    }
    assert(all.take(i as int) == all);
    if crlf > bare {
        "\r\n"
    } else {
        "\n"
    }
}

/// The trimmed text lines of the first `n` comments.
pub open spec fn run_texts(comments: Seq<CommentText>, n: int) -> Seq<Seq<char>>
    decreases n,
{
    if n <= 0 {
        Seq::empty()
    } else {
        let own = block_texts(comments[n - 1].text);
        run_texts(comments, n - 1) + Seq::new(own.len(), |i: int| trimmed(own[i]))
    }
}

/// A line of a merged block behind the first.
pub open spec fn star_line(line: Seq<char>) -> Seq<char> {
    if line.len() == 0 {
        " *"@
    } else {
        " * "@ + line
    }
}

pub open spec fn star_lines(lines: Seq<Seq<char>>) -> Seq<Seq<char>> {
    Seq::new(lines.len(), |i: int| star_line(lines[i]))
}

/// A run of plain blocks as one block. At the start of the file its opener
/// stands alone; elsewhere it shares the first text line.
pub open spec fn merged_block(comments: Seq<CommentText>, source_span: Seq<char>) -> Seq<char> {
    let lines = less_blank_edges(run_texts(comments, comments.len() as int));
    let eol = dominant_ending(source_span);
    if lines.len() == 0 {
        "/* */"@
    } else if comments.len() > 0 && comments[0].at_file_start {
        joined((seq!["/*"@] + star_lines(lines)).push(" */"@), eol)
    } else {
        let first = if lines[0].len() == 0 {
            "/*"@
        } else {
            "/* "@ + lines[0]
        };
        joined((seq![first] + star_lines(lines.skip(1))).push(" */"@), eol)
    }
}

/// Appends the texts of `own`, trimmed, to `out`.
fn append_trimmed(out: &mut Vec<String>, own: &Vec<String>)
    ensures
        texts(final(out)@) == texts(old(out)@) + Seq::new(
            own.len() as nat,
            |i: int| trimmed(own@[i]@),
        ),
{
    let ghost given = texts(out@);
    let ghost more = Seq::new(own.len() as nat, |i: int| trimmed(own@[i]@));
    let mut i: usize = 0;
    assert(texts(out@) =~= given + more.take(0));
    while i < own.len()
        invariant
            i <= own.len() == more.len(),
            more == Seq::new(own.len() as nat, |i: int| trimmed(own@[i]@)),
            texts(out@) == given + more.take(i as int),
        decreases own.len() - i,
    {
        let ghost before = texts(out@);
        out.push(trim(own[i].as_str()).to_string());
        assert(texts(out@) =~= before.push(more[i as int]));
        assert(texts(out@) =~= given + more.take(i + 1));
        i = i + 1;
    }
    assert(more.take(i as int) =~= more);
}

/// Appends `lines[from..]` as star lines to `out`.
fn append_star_lines(out: &mut Vec<String>, lines: &Vec<String>, from: usize)
    requires
        from <= lines.len(),
    ensures
        texts(final(out)@) == texts(old(out)@) + star_lines(texts(lines@).skip(from as int)),
{
    let ghost given = texts(out@);
    let ghost more = star_lines(texts(lines@).skip(from as int));
    let mut i: usize = from;
    assert(texts(out@) =~= given + more.take(0));
    while i < lines.len()
        invariant
            from <= i <= lines.len(),
            more.len() == lines.len() - from,
            more == star_lines(texts(lines@).skip(from as int)),
            texts(out@) == given + more.take(i - from),
        decreases lines.len() - i,
    {
        let ghost before = texts(out@);
        let line = if lines[i].as_str().is_empty() {
            " *".to_string()
        } else {
            cat2(" * ", lines[i].as_str())
        };
        out.push(line);
        assert(line@ == more[i - from]);
        assert(texts(out@) =~= before.push(more[i - from]));
        assert(texts(out@) =~= given + more.take(i + 1 - from));
        i = i + 1;
    }
    assert(more.take(i - from) =~= more);
}

/// Writes the comments from `a` to `b` as one block.
pub fn merged_block_text(comments: &Vec<Comment>, a: usize, b: usize, source_span: &str) -> (r:
    String)
    requires
        a < b <= comments.len(),
    ensures
        r@ == merged_block(
            comment_texts(comments@).subrange(a as int, b as int),
            source_span@,
        ),
{
    let ghost run = comment_texts(comments@).subrange(a as int, b as int);
    let mut lines: Vec<String> = Vec::new();
    let mut i: usize = a;
    assert(texts(lines@) =~= run_texts(run, 0));
    while i < b
        invariant
            a <= i <= b <= comments.len(),
            run == comment_texts(comments@).subrange(a as int, b as int),
            texts(lines@) == run_texts(run, i - a),
        decreases b - i,
    {
        assert(run[i - a] == comments@[i as int]@);
        let own = block_body_lines(comments[i].text.as_str());
        let ghost before = texts(lines@);
        let ghost bt = block_texts(run[i - a].text);
        append_trimmed(&mut lines, &own);
        proof {
            assert(own.len() == bt.len());
            assert(Seq::new(own.len() as nat, |i: int| trimmed(own@[i]@)) =~= Seq::new(
                bt.len(),
                |i: int| trimmed(bt[i]),
            )) by {
                assert forall|k: int| 0 <= k < bt.len() implies own@[k]@ == #[trigger] bt[k] by {
                    assert(texts(own@)[k] == own@[k]@);
                }
            }
        }
        i = i + 1;
    }
    trim_blank_edges(&mut lines);
    let ghost kept = less_blank_edges(run_texts(run, run.len() as int));
    assert(lines.len() == kept.len());
    if lines.len() == 0 {
        return "/* */".to_string();
    }
    let eol = dominant_line_ending(source_span);
    let mut out: Vec<String> = Vec::new();
    assert(run[0] == comments@[a as int]@);
    assert(kept[0] == lines@[0]@);
    let from: usize = if comments[a].at_file_start {
        out.push("/*".to_string());
        assert(texts(out@) =~= seq!["/*"@]);
        assert(kept.skip(0) =~= kept);
        0
    } else {
        let first = if lines[0].as_str().is_empty() {
            "/*".to_string()
        } else {
            cat2("/* ", lines[0].as_str())
        };
        out.push(first);
        assert(texts(out@) =~= seq![first@]);
        1
    };
    append_star_lines(&mut out, &lines, from);
    let ghost before = texts(out@);
    out.push(" */".to_string());
    assert(texts(out@) =~= before.push(" */"@));
    join_texts(&out, eol)
}

/// The last comment of the run that comment `j` belongs to.
pub open spec fn run_end(comments: Seq<CommentText>, j: int, src: Seq<char>) -> int
    decreases comments.len() - j,
{
    if 0 <= j && j + 1 < comments.len() && merges(comments[j], comments[j + 1], src) {
        run_end(comments, j + 1, src)
    } else {
        j
    }
}

/// The run from comment `i` to comment `j` as one comment.
pub open spec fn merged_run(
    comments: Seq<CommentText>,
    i: int,
    j: int,
    src: Seq<char>,
) -> CommentText {
    let head = comments[i];
    if i == j {
        head
    } else {
        let end = comments[j].end_byte;
        let source_span = span(src, head.start_byte, end);
        CommentText {
            end_byte: end,
            text: if marker_of(head.text) == Some(Marker::PlainBlock) {
                merged_block(comments.subrange(i, j + 1), source_span)
            } else {
                source_span
            },
            ..head
        }
    }
}

/// The comments from `i` on, with each run as one comment.
pub open spec fn merged_from(comments: Seq<CommentText>, i: int, src: Seq<char>) -> Seq<CommentText>
    decreases comments.len() - i,
{
    if i >= comments.len() {
        Seq::empty()
    } else {
        let j = run_end(comments, i, src);
        if i <= j < comments.len() {
            seq![merged_run(comments, i, j, src)] + merged_from(comments, j + 1, src)
        } else {
            Seq::empty()
        }
    }
}

/// Every comment lies in the source.
pub open spec fn all_placed(comments: Seq<CommentText>, src: Seq<char>) -> bool {
    forall|i: int| 0 <= i < comments.len() ==> (#[trigger] comments[i]).placed(src)
}

/// The comments stand in the order of their starts.
pub open spec fn in_order(comments: Seq<CommentText>) -> bool {
    forall|i: int, j: int|
        0 <= i < j < comments.len() ==> comments[i].start_byte <= comments[j].start_byte
}

pub proof fn lemma_run_end(comments: Seq<CommentText>, j: int, src: Seq<char>)
    requires
        0 <= j < comments.len(),
    ensures
        j <= run_end(comments, j, src) < comments.len(),
        run_end(comments, j, src) > j ==> comments[j].end_byte < comments[j + 1].start_byte,
    decreases comments.len() - j,
{
    if j + 1 < comments.len() && merges(comments[j], comments[j + 1], src) {
        lemma_run_end(comments, j + 1, src);
    }
}

fn merge_run(comments: &Vec<Comment>, i: usize, j: usize, source: &str) -> (r: Comment)
    requires
        i <= j < comments.len(),
        all_placed(comment_texts(comments@), source@),
        comments[i as int].start_byte <= comments[j as int].end_byte,
    ensures
        r@ == merged_run(comment_texts(comments@), i as int, j as int, source@),
{
    let ghost all = comment_texts(comments@);
    assert(all[i as int] == comments@[i as int]@ && all[j as int] == comments@[j as int]@);
    let mut head = comments[i].copy();
    if i == j {
        return head;
    }
    let end: usize = comments[j].end_byte;
    assert(all[i as int].placed(source@) && all[j as int].placed(source@));
    let source_span = slice(source, head.start_byte, end);
    let text = match marker_kind(head.text.as_str()) {
        Some(MarkerKind::PlainBlock) => merged_block_text(comments, i, j + 1, source_span),
        _ => source_span.to_string(),
    };
    head.end_byte = end;
    head.text = text;
    head
}

proof fn lemma_run_order(comments: Seq<CommentText>, i: int, j: int, src: Seq<char>)
    requires
        0 <= i <= j < comments.len(),
        all_placed(comments, src),
        in_order(comments),
    ensures
        comments[i].start_byte <= comments[j].end_byte,
{
    assert(comments[j].placed(src));
    if i < j {
        assert(comments[i].start_byte <= comments[j].start_byte);
    } else {
        assert(comments[i].placed(src));
    }
}

/// Joins every run of comments that read as one.
pub fn merge_comment_groups(comments: &Vec<Comment>, source: &str) -> (r: Vec<Comment>)
    requires
        all_placed(comment_texts(comments@), source@),
        in_order(comment_texts(comments@)),
    ensures
        comment_texts(r@) == merged_from(comment_texts(comments@), 0, source@),
{
    let ghost all = comment_texts(comments@);
    let ghost want = merged_from(all, 0, source@);
    let n: usize = comments.len();
    let mut out: Vec<Comment> = Vec::new();
    let mut i: usize = 0;
    assert(comment_texts(out@) + want =~= want);
    while i < n
        invariant
            i <= n == comments.len(),
            all == comment_texts(comments@),
            all_placed(all, source@),
            in_order(all),
            want == merged_from(all, 0, source@),
            comment_texts(out@) + merged_from(all, i as int, source@) == want,
        decreases n - i,
    {
        let mut j: usize = i;
        while j + 1 < n && can_merge(&comments[j], &comments[j + 1], source)
            invariant
                i <= j < n == comments.len(),
                all == comment_texts(comments@),
                all_placed(all, source@),
                run_end(all, i as int, source@) == run_end(all, j as int, source@),
                j + 1 < n ==> comments[j as int]@.placed(source@) && comments[j + 1]@.placed(
                    source@,
                ),
            decreases n - j,
        {
            assert(all[j as int] == comments@[j as int]@ && all[j + 1] == comments@[j + 1]@);
            j = j + 1;
            proof {
                if j + 1 < n {
                    assert(all[j as int].placed(source@) && all[j + 1].placed(source@));
                    assert(all[j as int] == comments@[j as int]@ && all[j + 1] == comments@[j + 1]@);
                }
            }
        }
        proof {
            if j + 1 < n {
                assert(all[j as int] == comments@[j as int]@ && all[j + 1] == comments@[j + 1]@);
            }
            assert(run_end(all, i as int, source@) == j);
            lemma_run_order(all, i as int, j as int, source@);
            assert(all[i as int] == comments@[i as int]@ && all[j as int] == comments@[j as int]@);
        }
        let merged = merge_run(comments, i, j, source);
        let ghost before = comment_texts(out@);
        out.push(merged);
        proof {
            assert(comment_texts(out@) =~= before + seq![merged@]);
            assert(comment_texts(out@) + merged_from(all, j + 1, source@) =~= before
                + merged_from(all, i as int, source@));
        }
        i = j + 1;
    }
    assert(comment_texts(out@) =~= want);
    out
}

} // verus!
