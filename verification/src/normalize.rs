//! A comment as lines and paragraphs, free of its delimiters.

use crate::classify::{DocFlavor, Kind, Style};
use crate::comment::{Comment, CommentText};
pub use crate::kdoc::{convert_kernel_doc, kdoc_xref_name};
use crate::kdoc::{kernel_doc, return_split, split_doxygen_return_boundaries};
use crate::language::Language;
pub use crate::linekind::LineKind;
use crate::linekind::{classify_lines, line_kinds, stripped_texts, StrippedLine, StrippedText};
use crate::manpage::{
    clean_page, convert_mangled_manpage_sections, convert_manpage_sections, mangled_page,
};
use crate::text::{
    after_lead, before_trail, cat2, cat3, cat4, contains, drop_prefix, drop_suffix, drop_trail,
    ends_with, has_char, has_prefix, has_suffix, has_text, lead_len, lead_run, leads_with,
    less_prefix, less_suffix, only_of, opens_with, skip_chars, skip_lead, split_char, split_on,
    starts_with, strip_prefix, strip_suffix, strs, suffix_rest, take_chars, take_lead, trail_len,
    count_trail, trim, trim_end, trim_start, trimmed, trimmed_end, trimmed_start, CharClass,
};
use crate::textline::{
    art_only, block_is_doc, bookend, bookend_match, half_banner, line_is_art_only,
    one_sided_banner, opens_doc_block, word_ends, Bookend, BookendKind, FAST_PATH_TAB_WIDTH,
};
use crate::width::{clamped, columns, display_width};
use vstd::prelude::*;

verus! {

/// One body line of a comment.
#[derive(Debug, Clone)]
pub struct Line {
    pub kind: LineKind,
    pub text: String,
    pub had_crlf: bool,
    /// The source line before any prefix was stripped; preformatted lines are
    /// emitted from it.
    pub raw: String,
}

/// `Line` over plain text.
pub ghost struct LineText {
    pub kind: LineKind,
    pub text: Seq<char>,
    pub had_crlf: bool,
    pub raw: Seq<char>,
}

impl View for Line {
    type V = LineText;

    open spec fn view(&self) -> LineText {
        LineText { kind: self.kind, text: self.text@, had_crlf: self.had_crlf, raw: self.raw@ }
    }
}

#[derive(Debug, Clone, Copy, PartialEq, Eq, Structural)]
pub enum ParagraphKind {
    Prose,
    AtxHeader,
    Preformatted,
}

/// Consecutive lines that are laid out together.
#[derive(Debug, Clone)]
pub struct Paragraph {
    pub kind: ParagraphKind,
    pub line_indices: Vec<usize>,
    pub preceded_by_blank: bool,
}

/// `Paragraph` over plain sequences.
pub ghost struct ParagraphText {
    pub kind: ParagraphKind,
    pub line_indices: Seq<usize>,
    pub preceded_by_blank: bool,
}

impl View for Paragraph {
    type V = ParagraphText;

    open spec fn view(&self) -> ParagraphText {
        ParagraphText {
            kind: self.kind,
            line_indices: self.line_indices@,
            preceded_by_blank: self.preceded_by_blank,
        }
    }
}

/// A comment that is ready to be laid out.
#[derive(Debug, Clone)]
pub struct NormalizedDoc {
    pub lines: Vec<Line>,
    pub indent: String,
    pub paragraphs: Vec<Paragraph>,
    pub style: Style,
    pub flavor: DocFlavor,
    pub is_file_header: bool,
    pub default_continuation_prefix: String,
    pub line_marker: Option<String>,
    pub block_opener_marker: Option<String>,
    /// The line ending to use where the comment has no interior break of its
    /// own.
    pub fallback_ending: &'static str,
    /// The comment was a manual-page block, to be moved ahead of its function.
    pub manpage: bool,
}

/// `NormalizedDoc` over plain text.
pub ghost struct DocText {
    pub lines: Seq<LineText>,
    pub indent: Seq<char>,
    pub paragraphs: Seq<ParagraphText>,
    pub style: Style,
    pub flavor: DocFlavor,
    pub is_file_header: bool,
    pub default_continuation_prefix: Seq<char>,
    pub line_marker: Option<Seq<char>>,
    pub block_opener_marker: Option<Seq<char>>,
    pub fallback_ending: Seq<char>,
    pub manpage: bool,
}

pub open spec fn line_texts(v: Seq<Line>) -> Seq<LineText> {
    Seq::new(v.len(), |i: int| v[i]@)
}

pub open spec fn paragraph_texts(v: Seq<Paragraph>) -> Seq<ParagraphText> {
    Seq::new(v.len(), |i: int| v[i]@)
}

pub open spec fn opt_text(o: Option<String>) -> Option<Seq<char>> {
    match o {
        Some(s) => Some(s@),
        None => None,
    }
}

impl View for NormalizedDoc {
    type V = DocText;

    open spec fn view(&self) -> DocText {
        DocText {
            lines: line_texts(self.lines@),
            indent: self.indent@,
            paragraphs: paragraph_texts(self.paragraphs@),
            style: self.style,
            flavor: self.flavor,
            is_file_header: self.is_file_header,
            default_continuation_prefix: self.default_continuation_prefix@,
            line_marker: opt_text(self.line_marker),
            block_opener_marker: opt_text(self.block_opener_marker),
            fallback_ending: self.fallback_ending@,
            manpage: self.manpage,
        }
    }
}

impl DocText {
    /// Paragraphs name lines that exist, and a header paragraph names one.
    pub open spec fn wf(self) -> bool {
        forall|p: int|
            0 <= p < self.paragraphs.len() ==> {
                let para = #[trigger] self.paragraphs[p];
                &&& forall|i: int|
                    0 <= i < para.line_indices.len() ==> #[trigger] para.line_indices[i]
                        < self.lines.len()
                &&& para.kind == ParagraphKind::AtxHeader ==> para.line_indices.len() > 0
            }
    }
}


/// The text behind the last line feed, and the text up to it.
pub open spec fn last_line(text: Seq<char>) -> Option<(Seq<char>, Seq<char>)> {
    let n = trail_len(text, CharClass::NotOne('\n'));
    if n < text.len() {
        Some((text.take(text.len() - n), text.skip(text.len() - n)))
    } else {
        None
    }
}

/// A block comment with the closer that its last line ends in moved to a line
/// of its own, behind `indent` or behind that line's own indentation. `None`
/// where there is nothing to move: one line, a closer that stands alone, or no
/// closer.
pub open spec fn closer_split(text: Seq<char>, indent: Option<Seq<char>>) -> Option<Seq<char>> {
    match last_line(text) {
        None => None,
        Some((above, last)) => match suffix_rest(trimmed_end(last), "*/"@) {
            None => None,
            Some(head) => {
                let before = trimmed_end(head);
                let eol = if has_suffix(above, "\r\n"@) {
                    "\r\n"@
                } else {
                    "\n"@
                };
                let lead = match indent {
                    Some(i) => i,
                    None => lead_run(last, CharClass::Blank),
                };
                if trimmed(after_lead(trimmed_start(before), CharClass::One('*'))).len() == 0 {
                    None
                } else {
                    Some(above + before + eol + lead + "*/"@)
                }
            },
        },
    }
}

/// Moves a glued block closer to a line of its own, behind `indent` when it is
/// given and else behind the indentation of the line it was glued to.
pub fn split_block_closer(text: &str, indent: Option<&str>) -> (r: Option<String>)
    ensures
        (match r {
            Some(t) => closer_split(
                text@,
                match indent {
                    Some(i) => Some(i@),
                    None => None,
                },
            ) == Some(t@),
            None => closer_split(
                text@,
                match indent {
                    Some(i) => Some(i@),
                    None => None,
                },
            ) is None,
        }),
{
    let len: usize = text.unicode_len();
    let n: usize = count_trail(text, CharClass::NotOne('\n'));
    if n >= len {
        return None;
    }
    let above = take_chars(text, len - n);
    let last = skip_chars(text, len - n);
    match strip_suffix(trim_end(last), "*/") {
        None => None,
        Some(head) => {
            let before = trim_end(head);
            if trim(skip_lead(trim_start(before), CharClass::One('*'))).is_empty() {
                return None;
            }
            let eol = if ends_with(above, "\r\n") {
                "\r\n"
            } else {
                "\n"
            };
            let lead = match indent {
                Some(i) => i,
                None => take_lead(last, CharClass::Blank),
            };
            let body = cat4(above, before, eol, lead);
            Some(cat2(body.as_str(), "*/"))
        },
    }
}

/// Moves a closing `*/` that is glued to the last line of a block comment to a
/// line of its own, under that line's indentation.
pub fn split_trailing_block_closer(text: &str) -> (r: Option<String>)
    ensures
        (match r {
            Some(t) => closer_split(text@, None) == Some(t@),
            None => closer_split(text@, None) is None,
        }),
{
    split_block_closer(text, None)
}

/// The marker that a line comment starts with.
pub open spec fn line_marker_of(text: Seq<char>) -> Option<Seq<char>> {
    if has_prefix(text, "///"@) {
        Some("///"@)
    } else if has_prefix(text, "//!"@) {
        Some("//!"@)
    } else if has_prefix(text, "//"@) {
        Some("//"@)
    } else if has_prefix(text, "#!"@) {
        Some("#!"@)
    } else if leads_with(text, CharClass::One('#')) {
        Some(lead_run(text, CharClass::One('#')))
    } else {
        None
    }
}

fn source_line_marker(text: &str) -> (r: Option<String>)
    ensures
        opt_text(r) == line_marker_of(text@),
{
    if starts_with(text, "///") {
        Some("///".to_string())
    } else if starts_with(text, "//!") {
        Some("//!".to_string())
    } else if starts_with(text, "//") {
        Some("//".to_string())
    } else if starts_with(text, "#!") {
        Some("#!".to_string())
    } else if opens_with(text, CharClass::One('#')) {
        Some(take_lead(text, CharClass::One('#')).to_string())
    } else {
        None
    }
}

/// `/*-`, the opener of a BSD licence, and not a rule of dashes.
pub open spec fn bsd_dash_opener(text: Seq<char>) -> bool {
    has_prefix(text, "/*-"@) && !has_prefix(text, "/*--"@)
}

fn is_bsd_dash_opener(text: &str) -> (r: bool)
    ensures
        r == bsd_dash_opener(text@),
{
    starts_with(text, "/*-") && !starts_with(text, "/*--")
}

/// The marker that a block comment is opened with.
pub open spec fn block_marker_of(text: Seq<char>) -> Option<Seq<char>> {
    if opens_doc_block(text) {
        if has_prefix(text, "/*!"@) {
            Some("/*!"@)
        } else {
            Some("/**"@)
        }
    } else if bsd_dash_opener(text) {
        Some("/*-"@)
    } else if has_prefix(text, "/*"@) {
        Some("/*"@)
    } else {
        None
    }
}

fn source_block_opener_marker(text: &str) -> (r: Option<String>)
    ensures
        opt_text(r) == block_marker_of(text@),
{
    if block_is_doc(text) {
        if starts_with(text, "/*!") {
            Some("/*!".to_string())
        } else {
            Some("/**".to_string())
        }
    } else if is_bsd_dash_opener(text) {
        Some("/*-".to_string())
    } else if starts_with(text, "/*") {
        Some("/*".to_string())
    } else {
        None
    }
}

/// One source line of a comment.
pub struct RawLine {
    pub body: String,
    pub had_crlf: bool,
}

/// `RawLine` over plain text.
pub ghost struct RawText {
    pub body: Seq<char>,
    pub had_crlf: bool,
}

impl View for RawLine {
    type V = RawText;

    open spec fn view(&self) -> RawText {
        RawText { body: self.body@, had_crlf: self.had_crlf }
    }
}

pub open spec fn raw_texts(v: Seq<RawLine>) -> Seq<RawText> {
    Seq::new(v.len(), |i: int| v[i]@)
}

/// A piece between line feeds as a line: a carriage return at its end belongs
/// to the line break.
pub open spec fn raw_of(piece: Seq<char>) -> RawText {
    RawText { body: less_suffix(piece, "\r"@), had_crlf: has_suffix(piece, "\r"@) }
}

/// The source lines of a comment. A line feed at the very end opens no line.
pub open spec fn source_lines(text: Seq<char>) -> Seq<RawText> {
    let pieces = split_on(text, '\n');
    let all = Seq::new(pieces.len(), |i: int| raw_of(pieces[i]));
    if has_suffix(text, "\n"@) {
        all.drop_last()
    } else {
        all
    }
}

fn split_lines(text: &str) -> (r: Vec<RawLine>)
    ensures
        raw_texts(r@) == source_lines(text@),
{
    let pieces = split_char(text, '\n');
    let ghost all = split_on(text@, '\n');
    let mut out: Vec<RawLine> = Vec::new();
    let mut i: usize = 0;
    while i < pieces.len()
        invariant
            i <= pieces.len(),
            strs(pieces@) == all,
            out.len() == i,
            forall|j: int| 0 <= j < i ==> (#[trigger] out@[j])@ == raw_of(all[j]),
        decreases pieces.len() - i,
    {
        assert(all[i as int] == pieces@[i as int]@);
        out.push(
            RawLine {
                body: drop_suffix(pieces[i], "\r").to_string(),
                had_crlf: ends_with(pieces[i], "\r"),
            },
        );
        i = i + 1;
    }
    let ghost lines = Seq::new(all.len(), |i: int| raw_of(all[i]));
    assert(all.len() == pieces.len());
    assert(raw_texts(out@) =~= lines);
    if ends_with(text, "\n") {
        let _ = out.pop();
        assert(raw_texts(out@) =~= lines.drop_last());
    }
    out
}

/// What a line marker and the text behind it come to: the prefix that the line
/// is emitted behind, and the text.
pub type Stripped = (Seq<char>, Seq<char>);

/// The text behind a marker, without one separating space.
pub open spec fn behind_marker(rest: Seq<char>) -> Seq<char> {
    less_prefix(rest, " "@)
}

fn marker_body<'a>(rest: &'a str) -> (r: &'a str)
    ensures
        r@ == behind_marker(rest@),
{
    drop_prefix(rest, " ")
}

/// A line comment's line. A run of hashes is one marker.
pub open spec fn line_marker_stripped(line: Seq<char>) -> Stripped {
    let ws = lead_run(line, CharClass::Blank);
    let t = after_lead(line, CharClass::Blank);
    match line_marker_of(t) {
        Some(m) => (ws + m + " "@, behind_marker(t.skip(m.len() as int))),
        None => (Seq::empty(), line),
    }
}

proof fn lemma_line_marker_leads(t: Seq<char>)
    ensures
        line_marker_of(t) is Some ==> has_prefix(t, line_marker_of(t)->0) && line_marker_of(
            t,
        )->0.len() <= t.len(),
{
    crate::text::lemma_lead_len_facts(t, CharClass::One('#'));
    if leads_with(t, CharClass::One('#')) {
        let n = lead_len(t, CharClass::One('#')) as int;
        assert(t.subrange(0, n) =~= lead_run(t, CharClass::One('#')));
    }
}

fn strip_line_marker(line: &str) -> (r: (String, String))
    ensures
        (r.0@, r.1@) == line_marker_stripped(line@),
{
    let ws = take_lead(line, CharClass::Blank);
    let t = skip_lead(line, CharClass::Blank);
    proof {
        lemma_line_marker_leads(t@);
    }
    match source_line_marker(t) {
        Some(m) => {
            let rest = skip_chars(t, m.as_str().unicode_len());
            (cat3(ws, m.as_str(), " "), marker_body(rest).to_string())
        },
        None => (String::new(), line.to_string()),
    }
}

/// The marker that opens one member of a merged run of one-line blocks.
pub open spec fn member_marker(t: Seq<char>) -> Option<Seq<char>> {
    if has_prefix(t, "/**"@) {
        Some("/**"@)
    } else if has_prefix(t, "/*!"@) {
        Some("/*!"@)
    } else if has_prefix(t, "/*"@) {
        Some("/*"@)
    } else {
        None
    }
}

/// A line that is a whole `/* ... */` by itself.
pub open spec fn member_stripped(ws: Seq<char>, t: Seq<char>, first: bool) -> Option<Stripped> {
    match (suffix_rest(t, "*/"@), member_marker(t)) {
        (Some(rest), Some(marker)) => {
            let inner = rest.skip(marker.len() as int);
            let prefix = if first {
                ws + marker + " "@
            } else {
                ws + " * "@
            };
            if marker.len() > rest.len() || has_text(inner, "*/"@) {
                None
            } else {
                Some((prefix, trimmed_end(behind_marker(inner))))
            }
        },
        _ => None,
    }
}

fn find_member_marker(t: &str) -> (r: Option<&'static str>)
    ensures
        (match r {
            Some(m) => member_marker(t@) == Some(m@),
            None => member_marker(t@) is None,
        }),
{
    if starts_with(t, "/**") {
        Some("/**")
    } else if starts_with(t, "/*!") {
        Some("/*!")
    } else if starts_with(t, "/*") {
        Some("/*")
    } else {
        None
    }
}

fn strip_merged_member(ws: &str, t: &str, first: bool) -> (r: Option<(String, String)>)
    ensures
        (match r {
            Some(p) => member_stripped(ws@, t@, first) == Some((p.0@, p.1@)),
            None => member_stripped(ws@, t@, first) is None,
        }),
{
    let rest = match strip_suffix(t, "*/") {
        Some(rest) => rest,
        None => {
            return None;
        },
    };
    let marker = match find_member_marker(t) {
        Some(m) => m,
        None => {
            return None;
        },
    };
    let len: usize = marker.unicode_len();
    if len > rest.unicode_len() {
        return None;
    }
    let inner = skip_chars(rest, len);
    if contains(inner, "*/") {
        return None;
    }
    let prefix = if first {
        cat3(ws, marker, " ")
    } else {
        cat2(ws, " * ")
    };
    Some((prefix, trim_end(marker_body(inner)).to_string()))
}

/// The first marker of a block's opener line: `/**` of a plain block is a
/// banner whose stars are dropped, except on a comment of one line.
pub open spec fn opener_marker(t: Seq<char>, style: Style) -> Option<Seq<char>> {
    if style == Style::DocBlock {
        if has_prefix(t, "/**"@) {
            Some("/**"@)
        } else if has_prefix(t, "/*!"@) {
            Some("/*!"@)
        } else {
            None
        }
    } else if bsd_dash_opener(t) {
        Some("/*-"@)
    } else if has_prefix(t, "/*"@) {
        Some("/*"@)
    } else {
        None
    }
}

pub open spec fn opener_stripped(
    ws: Seq<char>,
    t: Seq<char>,
    style: Style,
    last: bool,
) -> Option<Stripped> {
    if style == Style::Block && !last && has_prefix(t, "/**"@) {
        Some((ws + "/* "@, behind_marker(after_lead(t.skip(3), CharClass::One('*')))))
    } else {
        match opener_marker(t, style) {
            None => None,
            Some(m) => {
                let body = behind_marker(t.skip(m.len() as int));
                let text = if last && has_suffix(body, "*/"@) {
                    trimmed_end(body.take(body.len() - 2))
                } else {
                    body
                };
                Some((ws + m + " "@, text))
            },
        }
    }
}

fn find_opener_marker(t: &str, style: Style) -> (r: Option<&'static str>)
    ensures
        (match r {
            Some(m) => opener_marker(t@, style) == Some(m@) && m@.len() <= t@.len(),
            None => opener_marker(t@, style) is None,
        }),
{
    if style == Style::DocBlock {
        if starts_with(t, "/**") {
            Some("/**")
        } else if starts_with(t, "/*!") {
            Some("/*!")
        } else {
            None
        }
    } else if is_bsd_dash_opener(t) {
        Some("/*-")
    } else if starts_with(t, "/*") {
        Some("/*")
    } else {
        None
    }
}

fn strip_block_opener(ws: &str, t: &str, style: Style, last: bool) -> (r: Option<(String, String)>)
    ensures
        (match r {
            Some(p) => opener_stripped(ws@, t@, style, last) == Some((p.0@, p.1@)),
            None => opener_stripped(ws@, t@, style, last) is None,
        }),
{
    proof {
        reveal_strlit("/**");
        reveal_strlit("*/");
    }
    if style == Style::Block && !last {
        if let Some(rest) = strip_prefix(t, "/**") {
            let body = marker_body(skip_lead(rest, CharClass::One('*')));
            return Some((cat2(ws, "/* "), body.to_string()));
        }
    }
    match find_opener_marker(t, style) {
        None => None,
        Some(m) => {
            let body = marker_body(skip_chars(t, m.unicode_len()));
            let prefix = cat3(ws, m, " ");
            if last {
                if let Some(inner) = strip_suffix(body, "*/") {
                    return Some((prefix, trim_end(inner).to_string()));
                }
            }
            Some((prefix, body.to_string()))
        },
    }
}

pub open spec fn closer_stripped(ws: Seq<char>, t: Seq<char>) -> Option<Stripped> {
    if has_suffix(t, "**/"@) {
        Some((ws + " * "@, after_lead(t.take(t.len() - 3), CharClass::Two(' ', '*'))))
    } else if has_suffix(t, "*/"@) {
        let body = after_lead(t.take(t.len() - 2), CharClass::Two(' ', '*'));
        if body.len() == 0 {
            Some((ws + " */"@, body))
        } else {
            Some((ws + " * "@, body))
        }
    } else {
        None
    }
}

fn strip_block_closer(ws: &str, t: &str) -> (r: Option<(String, String)>)
    ensures
        (match r {
            Some(p) => closer_stripped(ws@, t@) == Some((p.0@, p.1@)),
            None => closer_stripped(ws@, t@) is None,
        }),
{
    proof {
        reveal_strlit("**/");
        reveal_strlit("*/");
    }
    if let Some(before) = strip_suffix(t, "**/") {
        let body = skip_lead(before, CharClass::Two(' ', '*'));
        return Some((cat2(ws, " * "), body.to_string()));
    }
    if let Some(before) = strip_suffix(t, "*/") {
        let body = skip_lead(before, CharClass::Two(' ', '*'));
        if body.is_empty() {
            return Some((cat2(ws, " */"), body.to_string()));
        }
        return Some((cat2(ws, " * "), body.to_string()));
    }
    None
}

/// A star, or two, that white space or the end of the line follows is a
/// continuation marker; any other star is text.
pub open spec fn continuation_stripped(ws: Seq<char>, t: Seq<char>) -> Stripped {
    let one = t.skip(1);
    let two = t.skip(2);
    if has_prefix(t, "* "@) {
        (ws + " * "@, two)
    } else if has_prefix(t, "*"@) && (one.len() == 0 || leads_with(one, CharClass::Blank)) {
        (ws + " * "@, one)
    } else if has_prefix(t, "** "@) {
        (ws + " ** "@, t.skip(3))
    } else if has_prefix(t, "**"@) && (two.len() == 0 || leads_with(two, CharClass::Blank)) {
        (ws + " ** "@, two)
    } else {
        (ws + " * "@, t)
    }
}

fn strip_block_continuation(ws: &str, t: &str) -> (r: (String, String))
    ensures
        (r.0@, r.1@) == continuation_stripped(ws@, t@),
{
    proof {
        reveal_strlit("* ");
        reveal_strlit("*");
        reveal_strlit("** ");
        reveal_strlit("**");
    }
    if let Some(rest) = strip_prefix(t, "* ") {
        return (cat2(ws, " * "), rest.to_string());
    }
    if let Some(rest) = strip_prefix(t, "*") {
        if rest.is_empty() || opens_with(rest, CharClass::Blank) {
            return (cat2(ws, " * "), rest.to_string());
        }
    }
    if let Some(rest) = strip_prefix(t, "** ") {
        return (cat2(ws, " ** "), rest.to_string());
    }
    if let Some(rest) = strip_prefix(t, "**") {
        if rest.is_empty() || opens_with(rest, CharClass::Blank) {
            return (cat2(ws, " ** "), rest.to_string());
        }
    }
    (cat2(ws, " * "), t.to_string())
}

/// A source line of a comment split into the prefix that it is emitted behind
/// and its text.
pub open spec fn line_stripped(line: Seq<char>, style: Style, first: bool, last: bool) -> Stripped {
    let ws = lead_run(line, CharClass::Blank);
    let t = after_lead(line, CharClass::Blank);
    if style == Style::Line || style == Style::DocLine {
        line_marker_stripped(line)
    } else if !(first && last) && member_stripped(ws, t, first) is Some {
        member_stripped(ws, t, first)->0
    } else if first && opener_stripped(ws, t, style, last) is Some {
        opener_stripped(ws, t, style, last)->0
    } else if last && closer_stripped(ws, t) is Some {
        closer_stripped(ws, t)->0
    } else {
        continuation_stripped(ws, t)
    }
}

fn strip_one_line(line: &str, style: Style, first: bool, last: bool) -> (r: (String, String))
    ensures
        (r.0@, r.1@) == line_stripped(line@, style, first, last),
{
    if style == Style::Line || style == Style::DocLine {
        return strip_line_marker(line);
    }
    let ws = take_lead(line, CharClass::Blank);
    let t = skip_lead(line, CharClass::Blank);
    if !(first && last) {
        if let Some(hit) = strip_merged_member(ws, t, first) {
            return hit;
        }
    }
    if first {
        if let Some(hit) = strip_block_opener(ws, t, style, last) {
            return hit;
        }
    }
    if last {
        if let Some(hit) = strip_block_closer(ws, t) {
            return hit;
        }
    }
    strip_block_continuation(ws, t)
}

/// All source lines, stripped.
pub open spec fn lines_stripped(raw: Seq<RawText>, style: Style) -> Seq<StrippedText> {
    Seq::new(
        raw.len(),
        |i: int|
            {
                let p = line_stripped(raw[i].body, style, i == 0, i == raw.len() - 1);
                StrippedText { prefix: p.0, body: p.1, had_crlf: raw[i].had_crlf }
            },
    )
}

fn strip_prefixes(raw: &Vec<RawLine>, style: Style) -> (r: Vec<StrippedLine>)
    ensures
        stripped_texts(r@) == lines_stripped(raw_texts(raw@), style),
{
    let ghost all = lines_stripped(raw_texts(raw@), style);
    let mut out: Vec<StrippedLine> = Vec::new();
    let mut i: usize = 0;
    while i < raw.len()
        invariant
            i <= raw.len() == all.len(),
            all == lines_stripped(raw_texts(raw@), style),
            out.len() == i,
            forall|j: int| 0 <= j < i ==> (#[trigger] out@[j])@ == all[j],
        decreases raw.len() - i,
    {
        let (prefix, body) = strip_one_line(
            raw[i].body.as_str(),
            style,
            i == 0,
            i == raw.len() - 1,
        );
        assert(raw_texts(raw@)[i as int] == raw@[i as int]@);
        out.push(StrippedLine { prefix, body, had_crlf: raw[i].had_crlf });
        i = i + 1;
    }
    assert(stripped_texts(out@) =~= all);
    out
}


/// The line is a drawing, or a bare rule.
pub open spec fn art_or_rule(body: Seq<char>) -> bool {
    match bookend(body) {
        Some(Bookend::Labeled(_)) => false,
        Some(Bookend::Bare) => true,
        None => art_only(body),
    }
}

/// The line is neither decorated nor a drawing.
pub open spec fn ordinary(body: Seq<char>) -> bool {
    bookend(body) is None && !art_only(body)
}

/// The line keeps the decoration next to it: a drawing does, and so does a bare
/// rule that is part of a thicker border.
pub open spec fn protects(lines: Seq<StrippedText>, j: int) -> bool {
    match bookend(lines[j].body) {
        Some(Bookend::Labeled(_)) => false,
        Some(Bookend::Bare) => (j > 0 && art_or_rule(lines[j - 1].body)) || (j + 1 < lines.len()
            && art_or_rule(lines[j + 1].body)),
        None => art_only(lines[j].body),
    }
}

/// What a decorated line says without its decoration. In Rustdoc a bare rule
/// under text, or alone, may underline a heading and stays.
pub open spec fn undecorated(lines: Seq<StrippedText>, i: int, flavor: DocFlavor) -> Option<
    Seq<char>,
> {
    match bookend(lines[i].body) {
        Some(Bookend::Labeled(label)) => Some(label),
        Some(Bookend::Bare) => if flavor == DocFlavor::Rustdoc && (lines.len() == 1 || (i > 0
            && ordinary(lines[i - 1].body))) {
            None
        } else {
            Some(Seq::empty())
        },
        None => None,
    }
}

/// The text of line `i` once decoration is taken off, which a neighbour that is
/// a drawing forbids.
pub open spec fn body_without_bookends(lines: Seq<StrippedText>, i: int, flavor: DocFlavor) -> Seq<
    char,
> {
    match undecorated(lines, i, flavor) {
        Some(label) => if (i > 0 && protects(lines, i - 1)) || (i + 1 < lines.len() && protects(
            lines,
            i + 1,
        )) {
            lines[i].body
        } else {
            label
        },
        None => lines[i].body,
    }
}

pub open spec fn bookends_stripped(lines: Seq<StrippedText>, flavor: DocFlavor) -> Seq<
    StrippedText,
> {
    Seq::new(
        lines.len(),
        |i: int|
            StrippedText {
                prefix: lines[i].prefix,
                body: body_without_bookends(lines, i, flavor),
                had_crlf: lines[i].had_crlf,
            },
    )
}

fn is_art_or_rule(body: &str) -> (r: bool)
    ensures
        r == art_or_rule(body@),
{
    match bookend_match(body) {
        Some(BookendKind::Labeled(_)) => false,
        Some(BookendKind::Bare) => true,
        None => line_is_art_only(body),
    }
}

fn line_protects(lines: &Vec<StrippedLine>, j: usize) -> (r: bool)
    requires
        j < lines.len(),
    ensures
        r == protects(stripped_texts(lines@), j as int),
{
    match bookend_match(lines[j].body.as_str()) {
        Some(BookendKind::Labeled(_)) => false,
        Some(BookendKind::Bare) => (j > 0 && is_art_or_rule(lines[j - 1].body.as_str())) || (j + 1
            < lines.len() && is_art_or_rule(lines[j + 1].body.as_str())),
        None => line_is_art_only(lines[j].body.as_str()),
    }
}

fn undecorated_body(lines: &Vec<StrippedLine>, i: usize, flavor: DocFlavor) -> (r: Option<String>)
    requires
        i < lines.len(),
    ensures
        opt_text(r) == undecorated(stripped_texts(lines@), i as int, flavor),
{
    match bookend_match(lines[i].body.as_str()) {
        Some(BookendKind::Labeled(label)) => Some(label),
        Some(BookendKind::Bare) => {
            if flavor == DocFlavor::Rustdoc {
                if lines.len() == 1 {
                    return None;
                }
                if i > 0 {
                    let above = lines[i - 1].body.as_str();
                    if bookend_match(above).is_none() && !line_is_art_only(above) {
                        return None;
                    }
                }
            }
            let empty = String::new();
            assert(empty@ =~= Seq::<char>::empty());
            Some(empty)
        },
        None => None,
    }
}

/// Takes the decoration off every line that a drawing next to it does not
/// protect.
fn strip_decorative_bookends(lines: &Vec<StrippedLine>, kind: &Kind) -> (r: Vec<StrippedLine>)
    ensures
        stripped_texts(r@) == bookends_stripped(stripped_texts(lines@), kind.flavor),
{
    let ghost given = stripped_texts(lines@);
    let ghost all = bookends_stripped(given, kind.flavor);
    let n: usize = lines.len();
    let mut out: Vec<StrippedLine> = Vec::new();
    let mut i: usize = 0;
    while i < n
        invariant
            i <= n == lines.len(),
            given == stripped_texts(lines@),
            all == bookends_stripped(given, kind.flavor),
            out.len() == i,
            forall|j: int| 0 <= j < i ==> (#[trigger] out@[j])@ == all[j],
        decreases n - i,
    {
        assert(given[i as int] == lines@[i as int]@);
        let body = match undecorated_body(lines, i, kind.flavor) {
            Some(label) => if (i > 0 && line_protects(lines, i - 1)) || (i + 1 < n
                && line_protects(lines, i + 1)) {
                lines[i].body.clone()
            } else {
                label
            },
            None => lines[i].body.clone(),
        };
        out.push(
            StrippedLine { prefix: lines[i].prefix.clone(), body, had_crlf: lines[i].had_crlf },
        );
        i = i + 1;
    }
    assert(stripped_texts(out@) =~= all);
    out
}

/// The text of a comment of one source line, without its marker and closer.
pub open spec fn one_line_body(text: Seq<char>) -> Option<Seq<char>> {
    let t = after_lead(text, CharClass::Blank);
    if has_prefix(t, "///"@) || has_prefix(t, "//!"@) {
        Some(t.skip(3))
    } else if has_prefix(t, "//"@) {
        Some(t.skip(2))
    } else if has_prefix(t, "#!"@) {
        None
    } else if leads_with(t, CharClass::One('#')) {
        Some(after_lead(t, CharClass::One('#')))
    } else if opens_doc_block(t) {
        Some(trimmed_end(less_suffix(t.skip(3), "*/"@)))
    } else if has_prefix(t, "/*"@) {
        Some(trimmed_end(less_suffix(t.skip(2), "*/"@)))
    } else {
        None
    }
}

/// A one-line comment whose text is decoration that would be taken off.
pub open spec fn strippable_bookend(text: Seq<char>, flavor: DocFlavor) -> bool {
    match one_line_body(text) {
        Some(body) => match bookend(body) {
            Some(Bookend::Labeled(_)) => true,
            Some(Bookend::Bare) => flavor != DocFlavor::Rustdoc,
            None => false,
        },
        None => false,
    }
}

fn single_line_body<'a>(text: &'a str) -> (r: Option<&'a str>)
    ensures
        (match r {
            Some(b) => one_line_body(text@) == Some(b@),
            None => one_line_body(text@) is None,
        }),
{
    proof {
        reveal_strlit("///");
        reveal_strlit("//!");
        reveal_strlit("//");
        reveal_strlit("/**");
        reveal_strlit("/*!");
        reveal_strlit("/*");
    }
    let t = skip_lead(text, CharClass::Blank);
    if let Some(rest) = strip_prefix(t, "///") {
        return Some(rest);
    }
    if let Some(rest) = strip_prefix(t, "//!") {
        return Some(rest);
    }
    if let Some(rest) = strip_prefix(t, "//") {
        return Some(rest);
    }
    if starts_with(t, "#!") {
        return None;
    }
    if opens_with(t, CharClass::One('#')) {
        return Some(skip_lead(t, CharClass::One('#')));
    }
    if block_is_doc(t) {
        return Some(trim_end(drop_suffix(skip_chars(t, 3), "*/")));
    }
    match strip_prefix(t, "/*") {
        Some(rest) => Some(trim_end(drop_suffix(rest, "*/"))),
        None => None,
    }
}

pub fn single_line_has_strippable_bookend(text: &str, kind: &Kind) -> (r: bool)
    ensures
        r == strippable_bookend(text@, kind.flavor),
{
    match single_line_body(text) {
        None => false,
        Some(body) => match bookend_match(body) {
            Some(BookendKind::Labeled(_)) => true,
            Some(BookendKind::Bare) => kind.flavor != DocFlavor::Rustdoc,
            None => false,
        },
    }
}

/// The prefix of continuation lines: the first interior line decides, and a
/// marker of nothing but stars is a single star.
pub open spec fn continuation_prefix(lines: Seq<StrippedText>) -> Seq<char> {
    let chosen = if lines.len() >= 3 {
        trimmed(lines[1].prefix)
    } else {
        "*"@
    };
    if crate::text::all_in(chosen, CharClass::One('*')) {
        " * "@
    } else {
        " "@ + chosen + " "@
    }
}

fn pick_default_continuation_prefix(lines: &Vec<StrippedLine>) -> (r: String)
    ensures
        r@ == continuation_prefix(stripped_texts(lines@)),
{
    let chosen = if lines.len() >= 3 {
        trim(lines[1].prefix.as_str())
    } else {
        "*"
    };
    if only_of(chosen, CharClass::One('*')) {
        " * ".to_string()
    } else {
        cat3(" ", chosen, " ")
    }
}

/// Lines that keep their layout.
pub open spec fn preformatted(k: LineKind) -> bool {
    match k {
        LineKind::FenceOpen
        | LineKind::FenceContent
        | LineKind::FenceClose
        | LineKind::DoxyVerbatimOpen
        | LineKind::DoxyVerbatimContent
        | LineKind::DoxyVerbatimClose
        | LineKind::IndentedCode
        | LineKind::TableRow
        | LineKind::Blockquote
        | LineKind::ReferenceLink
        | LineKind::Metadata
        | LineKind::LabelRow
        | LineKind::Banner
        | LineKind::Art => true,
        _ => false,
    }
}

fn is_preformatted_kind(k: LineKind) -> (r: bool)
    ensures
        r == preformatted(k),
{
    match k {
        LineKind::FenceOpen
        | LineKind::FenceContent
        | LineKind::FenceClose
        | LineKind::DoxyVerbatimOpen
        | LineKind::DoxyVerbatimContent
        | LineKind::DoxyVerbatimClose
        | LineKind::IndentedCode
        | LineKind::TableRow
        | LineKind::Blockquote
        | LineKind::ReferenceLink
        | LineKind::Metadata
        | LineKind::LabelRow
        | LineKind::Banner
        | LineKind::Art => true,
        _ => false,
    }
}

/// `s` begins with `word` as a whole word.
pub open spec fn leads_with_word(s: Seq<char>, word: Seq<char>) -> bool {
    has_prefix(s, word) && word_ends(s.skip(word.len() as int))
}

fn starts_with_word(s: &str, word: &str) -> (r: bool)
    ensures
        r == leads_with_word(s@, word@),
{
    match strip_prefix(s, word) {
        Some(rest) => !opens_with(rest, CharClass::Word),
        None => false,
    }
}

/// A prose line that begins with a `Return` keyword.
pub open spec fn return_line(l: LineText) -> bool {
    let t = trimmed_start(l.text);
    leads_with_word(t, "Return"@) || leads_with_word(t, "Returns"@)
}

fn starts_new_prose_paragraph(l: &Line) -> (r: bool)
    ensures
        r == return_line(l@),
{
    let t = trim_start(l.text.as_str());
    starts_with_word(t, "Return") || starts_with_word(t, "Returns")
}

/// Line `i` goes on with the paragraph of kind `k` above it.
pub open spec fn joins_above(l: LineText, k: ParagraphKind) -> bool {
    match k {
        ParagraphKind::Preformatted => preformatted(l.kind),
        ParagraphKind::AtxHeader => false,
        ParagraphKind::Prose => l.kind == LineKind::Prose && !return_line(l),
    }
}

/// The kind of the paragraph that a line opens.
pub open spec fn opens_kind(k: LineKind) -> ParagraphKind {
    if k == LineKind::AtxHeader {
        ParagraphKind::AtxHeader
    } else if preformatted(k) {
        ParagraphKind::Preformatted
    } else {
        ParagraphKind::Prose
    }
}

/// Where the paragraph of kind `k` ends whose lines reach up to `i`.
pub open spec fn paragraph_end(lines: Seq<LineText>, i: int, k: ParagraphKind) -> int
    decreases lines.len() - i,
{
    if i < lines.len() && joins_above(lines[i], k) {
        paragraph_end(lines, i + 1, k)
    } else {
        i
    }
}

/// The positions from `a` to before `b`.
pub open spec fn index_range(a: int, b: int) -> Seq<usize> {
    Seq::new((b - a) as nat, |i: int| (a + i) as usize)
}

/// The paragraphs of the lines from `i` on; `blank` tells of a blank line right
/// before them.
pub open spec fn paragraphs_from(lines: Seq<LineText>, i: int, blank: bool) -> Seq<ParagraphText>
    decreases lines.len() - i,
{
    if i >= lines.len() {
        Seq::empty()
    } else if lines[i].kind == LineKind::Blank {
        paragraphs_from(lines, i + 1, true)
    } else {
        let k = opens_kind(lines[i].kind);
        let end = paragraph_end(lines, i + 1, k);
        let para = ParagraphText {
            kind: k,
            line_indices: index_range(i, end),
            preceded_by_blank: blank,
        };
        if i < end <= lines.len() {
            seq![para] + paragraphs_from(lines, end, false)
        } else {
            seq![para]
        }
    }
}

pub proof fn lemma_paragraph_end(lines: Seq<LineText>, i: int, k: ParagraphKind)
    requires
        0 <= i <= lines.len(),
    ensures
        i <= paragraph_end(lines, i, k) <= lines.len(),
    decreases lines.len() - i,
{
    if i < lines.len() && joins_above(lines[i], k) {
        lemma_paragraph_end(lines, i + 1, k);
    }
}

fn line_joins_above(l: &Line, k: ParagraphKind) -> (r: bool)
    ensures
        r == joins_above(l@, k),
{
    match k {
        ParagraphKind::Preformatted => is_preformatted_kind(l.kind),
        ParagraphKind::AtxHeader => false,
        ParagraphKind::Prose => l.kind == LineKind::Prose && !starts_new_prose_paragraph(l),
    }
}

/// Groups lines into the paragraphs that are laid out together.
pub fn group_paragraphs(lines: &Vec<Line>) -> (r: Vec<Paragraph>)
    ensures
        paragraph_texts(r@) == paragraphs_from(line_texts(lines@), 0, false),
{
    let ghost all = line_texts(lines@);
    let ghost want = paragraphs_from(all, 0, false);
    let mut out: Vec<Paragraph> = Vec::new();
    let mut i: usize = 0;
    let mut blank = false;
    assert(paragraph_texts(out@) + want =~= want);
    while i < lines.len()
        invariant
            i <= lines.len(),
            all == line_texts(lines@),
            want == paragraphs_from(all, 0, false),
            paragraph_texts(out@) + paragraphs_from(all, i as int, blank) == want,
        decreases lines.len() - i,
    {
        assert(all[i as int] == lines@[i as int]@);
        if lines[i].kind == LineKind::Blank {
            blank = true;
            i = i + 1;
        } else {
            let k = if lines[i].kind == LineKind::AtxHeader {
                ParagraphKind::AtxHeader
            } else if is_preformatted_kind(lines[i].kind) {
                ParagraphKind::Preformatted
            } else {
                ParagraphKind::Prose
            };
            let ghost start = i;
            let mut indices: Vec<usize> = vec![i];
            let mut end: usize = i + 1;
            assert(indices@ =~= index_range(start as int, end as int));
            while end < lines.len() && line_joins_above(&lines[end], k)
                invariant
                    start < end <= lines.len(),
                    all == line_texts(lines@),
                    indices@ == index_range(start as int, end as int),
                    paragraph_end(all, start + 1, k) == paragraph_end(all, end as int, k),
                decreases lines.len() - end,
            {
                assert(all[end as int] == lines@[end as int]@);
                indices.push(end);
                end = end + 1;
                assert(indices@ =~= index_range(start as int, end as int));
            }
            proof {
                if end < lines.len() {
                    assert(all[end as int] == lines@[end as int]@);
                }
                assert(paragraph_end(all, start + 1, k) == end);
            }
            let ghost before = paragraph_texts(out@);
            let para = Paragraph { kind: k, line_indices: indices, preceded_by_blank: blank };
            out.push(para);
            proof {
                assert(paragraph_texts(out@) =~= before + seq![para@]);
                assert(paragraph_texts(out@) + paragraphs_from(all, end as int, false) =~= before
                    + paragraphs_from(all, start as int, blank));
            }
            blank = false;
            i = end;
        }
    }
    assert(paragraph_texts(out@) =~= want);
    out
}


/// The columns that a text takes, by an estimate made without the indentation
/// settings.
pub open spec fn estimate(s: Seq<char>) -> usize {
    clamped(columns(s, FAST_PATH_TAB_WIDTH as nat))
}

/// A comment on one source line that fits, and has no decoration to take off.
pub open spec fn short_line(c: CommentText, flavor: DocFlavor, limit: usize) -> bool {
    let body = before_trail(c.text, CharClass::Two('\r', '\n'));
    &&& !body.contains('\n')
    &&& !strippable_bookend(body, flavor)
    &&& estimate(c.line_indent_bytes) + estimate(body) <= limit
}

fn is_single_line_short(c: &Comment, kind: &Kind, column_limit: usize) -> (r: bool)
    ensures
        r == short_line(c@, kind.flavor, column_limit),
{
    let body = drop_trail(c.text.as_str(), CharClass::Two('\r', '\n'));
    if has_char(body, '\n') || single_line_has_strippable_bookend(body, kind) {
        return false;
    }
    let indent: usize = display_width(c.line_indent_bytes.as_str(), FAST_PATH_TAB_WIDTH);
    let width: usize = display_width(body, FAST_PATH_TAB_WIDTH);
    indent <= column_limit && width <= column_limit - indent
}

impl CommentText {
    /// The comment's lines without markers and decoration.
    pub open spec fn plain_lines(self, kind: Kind) -> Seq<StrippedText> {
        bookends_stripped(lines_stripped(source_lines(self.text), kind.style), kind.flavor)
    }

    /// The width that is left for the text of a body line.
    pub open spec fn label_budget(self, kind: Kind, limit: usize) -> usize {
        limit.saturating_sub(
            estimate(self.line_indent_bytes + continuation_prefix(self.plain_lines(kind))),
        )
    }

    /// The comment's lines, each with its kind and its source.
    pub open spec fn body(self, kind: Kind, limit: usize) -> Seq<LineText> {
        let plain = self.plain_lines(kind);
        let kinds = line_kinds(plain, kind.flavor, self.label_budget(kind, limit));
        Seq::new(
            plain.len(),
            |i: int|
                LineText {
                    kind: kinds[i],
                    text: plain[i].body,
                    had_crlf: plain[i].had_crlf,
                    raw: source_lines(self.text)[i].body,
                },
        )
    }

    /// The lines of a manual page, where the comment is one that stands between
    /// a signature and a body. A block whose line markers have run into the text
    /// is tried too.
    pub open spec fn page(self, kind: Kind, lang: Language, limit: usize) -> Option<Seq<LineText>> {
        if self.relocate_before is Some && lang.is_c_like() && (kind.style == Style::Block
            || kind.style == Style::DocBlock) {
            match clean_page(self.body(kind, limit)) {
                Some(lines) => Some(lines),
                None => mangled_page(self.text, has_text(self.text, "\r\n"@)),
            }
        } else {
            None
        }
    }

    /// The lines to lay out: a manual page's, else the comment's own in
    /// kernel-doc form.
    pub open spec fn final_lines(self, kind: Kind, lang: Language, limit: usize) -> Seq<LineText> {
        let lines = self.body(kind, limit);
        match self.page(kind, lang, limit) {
            Some(page) => page,
            None => if lang.is_c_like() {
                kernel_doc(return_split(lines, lines.len() as int))
            } else {
                lines
            },
        }
    }

    /// The comment stays as it is: it is pinned, it is short, it is nothing but
    /// a one-sided banner, or it shares its line with code.
    #[verifier::opaque]
    pub open spec fn left_alone(self, kind: Kind, lang: Language, limit: usize) -> bool {
        let plain = self.plain_lines(kind);
        ||| self.force_passthrough
        ||| short_line(self, kind.flavor, limit)
        ||| plain.len() == 1 && half_banner(plain[0].body)
        ||| self.is_trailing && self.page(kind, lang, limit) is None
    }

    /// The opener of a block stands on a line of its own: for a plain block at
    /// the start of the file, for a documentation block where the source has it
    /// so.
    pub open spec fn header_form(self, kind: Kind, is_page: bool) -> bool {
        match kind.style {
            Style::Block => if is_page {
                self.relocate_before == Some(0usize)
            } else {
                self.at_file_start
            },
            Style::DocBlock => self.opener_alone() == Some(true),
            _ => false,
        }
    }

    /// The comment, ready to be laid out.
    #[verifier::opaque]
    pub open spec fn normalized(self, kind: Kind, lang: Language, limit: usize) -> DocText {
        let is_page = self.page(kind, lang, limit) is Some;
        let lines = self.final_lines(kind, lang, limit);
        DocText {
            lines,
            indent: if is_page {
                Seq::empty()
            } else {
                self.line_indent_bytes
            },
            paragraphs: paragraphs_from(lines, 0, false),
            style: kind.style,
            flavor: kind.flavor,
            is_file_header: self.header_form(kind, is_page),
            default_continuation_prefix: continuation_prefix(self.plain_lines(kind)),
            line_marker: line_marker_of(self.text),
            block_opener_marker: block_marker_of(self.text),
            fallback_ending: self.fallback_ending,
            manpage: is_page,
        }
    }
}

proof fn lemma_paragraphs_wf(lines: Seq<LineText>, i: int, blank: bool)
    requires
        0 <= i,
        lines.len() <= usize::MAX,
    ensures
        forall|p: int|
            0 <= p < paragraphs_from(lines, i, blank).len() ==> {
                let para = #[trigger] paragraphs_from(lines, i, blank)[p];
                &&& para.line_indices.len() > 0
                &&& forall|k: int|
                    0 <= k < para.line_indices.len() ==> #[trigger] para.line_indices[k]
                        < lines.len()
            },
    decreases lines.len() - i,
{
    if i < lines.len() {
        if lines[i].kind == LineKind::Blank {
            lemma_paragraphs_wf(lines, i + 1, true);
        } else {
            let k = opens_kind(lines[i].kind);
            lemma_paragraph_end(lines, i + 1, k);
            let end = paragraph_end(lines, i + 1, k);
            lemma_paragraphs_wf(lines, end, false);
            let rest = paragraphs_from(lines, end, false);
            let all = paragraphs_from(lines, i, blank);
            assert forall|p: int| 0 <= p < all.len() implies {
                let para = #[trigger] all[p];
                &&& para.line_indices.len() > 0
                &&& forall|t: int|
                    0 <= t < para.line_indices.len() ==> #[trigger] para.line_indices[t]
                        < lines.len()
            } by {
                if p > 0 {
                    assert(all[p] == rest[p - 1]);
                }
            }
        }
    }
}

/// Paragraphs name lines that exist.
pub proof fn lemma_normalized_wf(d: DocText)
    requires
        d.paragraphs == paragraphs_from(d.lines, 0, false),
        d.lines.len() <= usize::MAX,
    ensures
        d.wf(),
{
    lemma_paragraphs_wf(d.lines, 0, false);
}

fn body_of(stripped: Vec<StrippedLine>, raw: &Vec<RawLine>, kinds: &Vec<LineKind>) -> (r: Vec<Line>)
    requires
        raw.len() == stripped.len(),
        kinds.len() == stripped.len(),
    ensures
        line_texts(r@) == Seq::new(
            stripped.len() as nat,
            |i: int|
                LineText {
                    kind: kinds@[i],
                    text: stripped_texts(stripped@)[i].body,
                    had_crlf: stripped_texts(stripped@)[i].had_crlf,
                    raw: raw_texts(raw@)[i].body,
                },
        ),
{
    let mut out: Vec<Line> = Vec::new();
    let mut i: usize = 0;
    while i < stripped.len()
        invariant
            i <= stripped.len(),
            raw.len() == stripped.len(),
            kinds.len() == stripped.len(),
            out.len() == i,
            forall|j: int|
                0 <= j < i ==> (#[trigger] out@[j])@ == (LineText {
                    kind: kinds@[j],
                    text: stripped@[j].body@,
                    had_crlf: stripped@[j].had_crlf,
                    raw: raw@[j].body@,
                }),
        decreases stripped.len() - i,
    {
        out.push(
            Line {
                kind: kinds[i],
                text: stripped[i].body.clone(),
                had_crlf: stripped[i].had_crlf,
                raw: raw[i].body.clone(),
            },
        );
        i = i + 1;
    }
    assert(line_texts(out@) =~= Seq::new(
        stripped.len() as nat,
        |i: int|
            LineText {
                kind: kinds@[i],
                text: stripped_texts(stripped@)[i].body,
                had_crlf: stripped_texts(stripped@)[i].had_crlf,
                raw: raw_texts(raw@)[i].body,
            },
    ));
    out
}

fn page_of(c: &Comment, kind: &Kind, lang: Language, lines: &Vec<Line>, Ghost(limit): Ghost<
    usize,
>) -> (r: Option<Vec<Line>>)
    requires
        line_texts(lines@) == c@.body(*kind, limit),
    ensures
        (match r {
            Some(v) => c@.page(*kind, lang, limit) == Some(line_texts(v@)),
            None => c@.page(*kind, lang, limit) is None,
        }),
{
    if c.relocate_before.is_none() || !lang.c_like() || (kind.style != Style::Block && kind.style
        != Style::DocBlock) {
        return None;
    }
    match convert_manpage_sections(lines) {
        Some(v) => Some(v),
        None => convert_mangled_manpage_sections(
            c.text.as_str(),
            contains(c.text.as_str(), "\r\n"),
        ),
    }
}

fn takes_header_form(c: &Comment, kind: &Kind, is_page: bool) -> (r: bool)
    ensures
        r == c@.header_form(*kind, is_page),
{
    match kind.style {
        Style::Block => if is_page {
            match c.relocate_before {
                Some(at) => at == 0,
                None => false,
            }
        } else {
            c.at_file_start
        },
        Style::DocBlock => match c.style_opener_alone() {
            Some(alone) => alone,
            None => false,
        },
        _ => false,
    }
}

/// A comment's lines and paragraphs, ready to be laid out; `None` for a comment
/// that stays as it is.
pub fn normalize(c: &Comment, kind: &Kind, lang: Language, column_limit: usize) -> (r: Option<
    NormalizedDoc,
>)
    ensures
        (match r {
            Some(d) => {
                &&& !c@.left_alone(*kind, lang, column_limit)
                &&& d@ == c@.normalized(*kind, lang, column_limit)
                &&& d@.wf()
            },
            None => c@.left_alone(*kind, lang, column_limit),
        }),
{
    proof {
        reveal(CommentText::left_alone);
        reveal(CommentText::normalized);
    }
    if c.force_passthrough || is_single_line_short(c, kind, column_limit) {
        return None;
    }
    let raw = split_lines(c.text.as_str());
    let marked = strip_prefixes(&raw, kind.style);
    let stripped = strip_decorative_bookends(&marked, kind);
    let ghost plain = c@.plain_lines(*kind);
    assert(stripped_texts(stripped@) == plain);
    assert(stripped.len() == plain.len());
    if stripped.len() == 1 {
        assert(plain[0] == stripped@[0]@);
        if one_sided_banner(stripped[0].body.as_str()) {
            return None;
        }
    }
    let line_marker = source_line_marker(c.text.as_str());
    let block_opener_marker = source_block_opener_marker(c.text.as_str());
    let default_continuation_prefix = pick_default_continuation_prefix(&stripped);
    let lead = cat2(c.line_indent_bytes.as_str(), default_continuation_prefix.as_str());
    let used: usize = display_width(lead.as_str(), FAST_PATH_TAB_WIDTH);
    let label_budget: usize = column_limit.saturating_sub(used);
    let kinds = classify_lines(&stripped, kind.flavor, label_budget);
    proof {
        assert(raw_texts(raw@).len() == raw.len());
        assert(stripped_texts(marked@).len() == marked.len());
    }
    let lines = body_of(stripped, &raw, &kinds);
    assert(line_texts(lines@) =~= c@.body(*kind, column_limit));
    let page = page_of(c, kind, lang, &lines, Ghost(column_limit));
    if c.is_trailing && page.is_none() {
        return None;
    }
    let (lines, manpage) = match page {
        Some(converted) => (converted, true),
        None => {
            assert(line_texts(lines@).len() == lines.len());
            let split = split_doxygen_return_boundaries(lines, lang);
            (convert_kernel_doc(split, lang), false)
        },
    };
    let indent = if manpage {
        let empty = String::new();
        assert(empty@ =~= Seq::<char>::empty());
        empty
    } else {
        c.line_indent_bytes.clone()
    };
    let paragraphs = group_paragraphs(&lines);
    let is_file_header = takes_header_form(c, kind, manpage);
    let doc = NormalizedDoc {
        lines,
        indent,
        paragraphs,
        style: kind.style,
        flavor: kind.flavor,
        is_file_header,
        default_continuation_prefix,
        line_marker,
        block_opener_marker,
        fallback_ending: c.fallback_ending,
        manpage,
    };
    proof {
        assert(doc@.lines.len() == doc.lines.len());
        assert(doc@.lines == c@.final_lines(*kind, lang, column_limit));
        lemma_normalized_wf(doc@);
    }
    Some(doc)
}

} // verus!
