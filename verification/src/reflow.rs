//! Lays a normalized comment out as the source text that replaces it.

use crate::classify::{DocFlavor, Style};
use crate::config::IndentConfig;
use crate::linekind::{doxy_keyword, doxy_tag, tag_keyword, tag_shape, TagShape};
use crate::normalize::{
    DocText, Line, LineKind, LineText, NormalizedDoc, Paragraph, ParagraphKind, ParagraphText,
};
use crate::text::{
    after_lead, before_trail, cat2, cat3, chars_of, class_has, count_lead, drop_prefix, drop_trail,
    ends_with, has_prefix, has_suffix, in_class, join_texts, joined, lead_len, lead_run, leads_with,
    less_prefix, opens_with, skip_chars, skip_lead, starts_with, strip_prefix, take_chars,
    take_lead, texts, trim, trim_end, trim_start, trimmed, trimmed_end, trimmed_start, CharClass,
};
use crate::textline::{is_kernel_doc_tag, kernel_doc_tag, return_pieces, split_at_return_boundary};
use crate::width::{clamped, columns, display_width};
use crate::wrap::{wrap_segment_aligned, wrapped_lines};
use vstd::prelude::*;
use vstd::utf8::encode_utf8;

verus! {

/// A hanging indent has to leave more than this many columns.
pub const MIN_WRAP_WIDTH: usize = 20;

/// The hanging indent where aligning under the description would not.
pub const CONTINUATION_INDENT: usize = 4;

pub open spec fn is_block(style: Style) -> bool {
    style == Style::Block || style == Style::DocBlock
}

/// `prefix` without its trailing spaces: the prefix of an empty comment line.
pub open spec fn bare_prefix(prefix: Seq<char>) -> Seq<char> {
    before_trail(prefix, CharClass::One(' '))
}

fn blank_prefix<'a>(prefix: &'a str) -> (r: &'a str)
    ensures
        r@ == bare_prefix(prefix@),
{
    drop_trail(prefix, CharClass::One(' '))
}

/// Every run of blanks as one space.
pub open spec fn spaces_collapsed(s: Seq<char>) -> Seq<char>
    decreases s.len(),
{
    if s.len() == 0 {
        s
    } else {
        let head = spaces_collapsed(s.drop_last());
        if !in_class(s.last(), CharClass::Blank) {
            head.push(s.last())
        } else if s.len() > 1 && in_class(s[s.len() - 2], CharClass::Blank) {
            head
        } else {
            head.push(' ')
        }
    }
}

pub fn collapse_spaces(s: &str) -> (r: String)
    ensures
        r@ == spaces_collapsed(s@),
{
    let v = chars_of(s);
    let mut out = String::new();
    let mut last_blank = false;
    let mut i: usize = 0;
    while i < v.len()
        invariant
            i <= v.len(),
            v@ == s@,
            last_blank == (i > 0 && in_class(s@[i - 1], CharClass::Blank)),
            out@ == spaces_collapsed(s@.take(i as int)),
        decreases v.len() - i,
    {
        proof {
            let t = s@.take(i + 1);
            assert(t.drop_last() == s@.take(i as int));
            if i > 0 {
                assert(t[t.len() - 2] == s@[i - 1]);
            }
        }
        let c = v[i];
        if class_has(c, CharClass::Blank) {
            if !last_blank {
                out.push(' ');
            }
            last_blank = true;
        } else {
            out.push(c);
            last_blank = false;
        }
        i = i + 1;
    }
    assert(s@.take(i as int) == s@);
    out
}

/// The line with a star-run marker reduced to one star: the run is followed by
/// a blank, or it is two stars with nothing behind them.
pub open spec fn stars_collapsed(raw: Seq<char>) -> Seq<char> {
    let ws = lead_run(raw, CharClass::Blank);
    let rest = after_lead(raw, CharClass::Blank);
    let stars = lead_len(rest, CharClass::One('*'));
    let behind = rest.skip(stars as int);
    if stars >= 2 && (leads_with(behind, CharClass::Blank) || (stars == 2 && behind.len() == 0)) {
        ws + "*"@ + behind
    } else {
        raw
    }
}

pub fn collapse_block_marker_stars(raw: &str) -> (r: String)
    ensures
        r@ == stars_collapsed(raw@),
{
    let ws = take_lead(raw, CharClass::Blank);
    let rest = skip_lead(raw, CharClass::Blank);
    let stars: usize = count_lead(rest, CharClass::One('*'));
    let behind = skip_chars(rest, stars);
    if stars >= 2 && (opens_with(behind, CharClass::Blank) || (stars == 2 && behind.is_empty())) {
        cat3(ws, "*", behind)
    } else {
        raw.to_string()
    }
}

/// The content of an emitted continuation line.
pub open spec fn content_of(line: Seq<char>, full: Seq<char>, cont: Seq<char>) -> Seq<char> {
    let short = trimmed_end(cont);
    if has_prefix(line, full) {
        line.skip(full.len() as int)
    } else if has_prefix(line, short) {
        less_prefix(line.skip(short.len() as int), " "@)
    } else {
        less_prefix(after_lead(after_lead(line, CharClass::Blank), CharClass::One('*')), " "@)
    }
}

/// Strips the prefix that a continuation line was emitted behind: the full
/// prefix, else the bare continuation marker, else leading blanks and stars.
fn strip_known_prefix<'a>(line: &'a str, full_prefix: &str, cont_prefix: &str) -> (r: &'a str)
    ensures
        r@ == content_of(line@, full_prefix@, cont_prefix@),
{
    if let Some(rest) = strip_prefix(line, full_prefix) {
        return rest;
    }
    if let Some(rest) = strip_prefix(line, trim_end(cont_prefix)) {
        return drop_prefix(rest, " ");
    }
    drop_prefix(skip_lead(skip_lead(line, CharClass::Blank), CharClass::One('*')), " ")
}

impl DocText {
    /// The opener that the comment is written with, or `plain`.
    pub open spec fn opener_or(self, plain: Seq<char>) -> Seq<char> {
        match self.block_opener_marker {
            Some(m) => m,
            None => plain,
        }
    }

    /// What continuation lines are emitted behind.
    pub open spec fn prefix(self) -> Seq<char> {
        match self.style {
            Style::Line => self.indent + (match self.line_marker {
                Some(m) => m,
                None => "//"@,
            }) + " "@,
            Style::DocLine => self.indent + (match self.line_marker {
                Some(m) => m,
                None => "///"@,
            }) + " "@,
            _ => self.indent + self.default_continuation_prefix,
        }
    }

    /// The opener line of a block.
    pub open spec fn opener(self) -> Seq<char> {
        self.opener_or(
            if self.style == Style::DocBlock {
                "/**"@
            } else {
                "/*"@
            },
        )
    }

    pub open spec fn has_blank_line(self) -> bool {
        exists|i: int| 0 <= i < self.lines.len() && (#[trigger] self.lines[i]).kind == LineKind::Blank
    }
}

fn line_prefix_string(doc: &NormalizedDoc) -> (r: String)
    ensures
        r@ == doc@.prefix(),
{
    match doc.style {
        Style::Line => match &doc.line_marker {
            Some(m) => cat3(doc.indent.as_str(), m.as_str(), " "),
            None => cat3(doc.indent.as_str(), "//", " "),
        },
        Style::DocLine => match &doc.line_marker {
            Some(m) => cat3(doc.indent.as_str(), m.as_str(), " "),
            None => cat3(doc.indent.as_str(), "///", " "),
        },
        _ => cat2(doc.indent.as_str(), doc.default_continuation_prefix.as_str()),
    }
}

/// The first line of a block without its opener.
pub open spec fn behind_opener(line: Seq<char>, marker: Seq<char>) -> Seq<char> {
    let t = after_lead(line, CharClass::Blank);
    if has_prefix(t, marker) {
        less_prefix(t.skip(marker.len() as int), " "@)
    } else {
        t
    }
}

fn strip_leading_block_opener<'a>(line: &'a str, doc: &NormalizedDoc) -> (r: &'a str)
    ensures
        r@ == behind_opener(line@, doc@.opener_or("/*"@)),
{
    let t = skip_lead(line, CharClass::Blank);
    let hit = match &doc.block_opener_marker {
        Some(m) => strip_prefix(t, m.as_str()),
        None => strip_prefix(t, "/*"),
    };
    match hit {
        Some(rest) => drop_prefix(rest, " "),
        None => t,
    }
}

/// How far the continuation lines of a tag paragraph hang when its description
/// starts at column `at`.
pub open spec fn hang_at(at: nat, effective: nat) -> nat {
    if effective <= at + MIN_WRAP_WIDTH {
        CONTINUATION_INDENT as nat
    } else {
        at
    }
}

/// The description column of a `@name : text` line, in bytes.
pub open spec fn kdoc_column(t: Seq<char>) -> nat {
    let n = lead_len(t, CharClass::NotOne(':')) as int + 1;
    encode_utf8(t.take(n)).len() + if leads_with(t.skip(n), CharClass::One(' ')) {
        1nat
    } else {
        0
    }
}

/// The description column of a tag line, from the text behind its marker.
pub open spec fn tag_column(rest: Seq<char>) -> Option<nat> {
    let keyword = tag_keyword(rest);
    let after = rest.skip(keyword.len() as int);
    let name = lead_len(after.skip(1), CharClass::Solid);
    if !leads_with(after, CharClass::One(' ')) {
        None
    } else if tag_shape(keyword) == Some(TagShape::Plain) {
        Some(keyword.len() + 2)
    } else if tag_shape(keyword) == Some(TagShape::Named) && name > 0 {
        Some(keyword.len() + name + 3)
    } else {
        None
    }
}

/// How far the continuation lines of a paragraph hang: under the description of
/// the Doxygen tag that opens it, and not at all for other text.
pub open spec fn hanging_indent(body: Seq<char>, effective: nat, flavor: DocFlavor) -> nat {
    let t = trimmed_start(body);
    if flavor != DocFlavor::Doxygen {
        0
    } else if kernel_doc_tag(t) {
        hang_at(kdoc_column(t), effective)
    } else if leads_with(t, CharClass::Two('@', '\\')) {
        match tag_column(t.skip(1)) {
            Some(at) => hang_at(at, effective),
            None => 0,
        }
    } else {
        0
    }
}

proof fn lemma_kdoc_colon(t: Seq<char>)
    requires
        kernel_doc_tag(t),
    ensures
        lead_len(t, CharClass::NotOne(':')) < t.len(),
{
    crate::text::lemma_lead_len_facts(t, CharClass::NotOne(':'));
    let rest = t.skip(1);
    let n = lead_len(rest, CharClass::Word) as int;
    crate::text::lemma_lead_len_facts(rest, CharClass::Word);
    let u = rest.skip(n);
    let m = lead_len(u, CharClass::White) as int;
    crate::text::lemma_lead_len_facts(u, CharClass::White);
    assert(trimmed_start(u)[0] == u[m]);
    assert(t[1 + n + m] == ':');
    if lead_len(t, CharClass::NotOne(':')) == t.len() {
        assert(in_class(t[1 + n + m], CharClass::NotOne(':')));
    }
}

fn kernel_doc_column(t: &str) -> (r: usize)
    requires
        kernel_doc_tag(t@),
    ensures
        r == kdoc_column(t@),
{
    let whole: usize = t.unicode_len();
    let colon: usize = count_lead(t, CharClass::NotOne(':'));
    proof {
        lemma_kdoc_colon(t@);
    }
    let head = take_chars(t, colon + 1);
    let tail = skip_chars(t, colon + 1);
    if opens_with(tail, CharClass::One(' ')) {
        let wide = take_chars(t, colon + 2);
        proof {
            assert(wide@ =~= head@ + seq![' ']);
            crate::bytes::lemma_encode_concat(head@, seq![' ']);
            crate::bytes::lemma_encode_ascii_char(' ');
        }
        crate::bytes::byte_len(wide)
    } else {
        crate::bytes::byte_len(head)
    }
}

fn doxygen_hanging_indent(body: &str, effective: usize, flavor: DocFlavor) -> (r: usize)
    ensures
        r == clamped(hanging_indent(body@, effective as nat, flavor)),
{
    if flavor != DocFlavor::Doxygen {
        return 0;
    }
    let t = trim_start(body);
    let at: usize = if is_kernel_doc_tag(t) {
        kernel_doc_column(t)
    } else {
        if !opens_with(t, CharClass::Two('@', '\\')) {
            return 0;
        }
        let whole: usize = t.unicode_len();
        let rest = skip_chars(t, 1);
        let keyword = doxy_keyword(rest);
        proof {
            crate::text::lemma_lead_len_facts(rest@, CharClass::Word);
            assert(rest@.len() + 1 == whole);
        }
        let shape = doxy_tag(keyword);
        let len: usize = keyword.unicode_len();
        let after = skip_chars(rest, len);
        if !opens_with(after, CharClass::One(' ')) {
            return 0;
        }
        let name: usize = count_lead(skip_chars(after, 1), CharClass::Solid);
        match shape {
            Some(TagShape::Plain) => len + 2,
            Some(TagShape::Named) => {
                if name == 0 {
                    return 0;
                }
                (len + name + 2).saturating_add(1)
            },
            _ => {
                return 0;
            },
        }
    };
    if effective.saturating_sub(MIN_WRAP_WIDTH) <= at {
        CONTINUATION_INDENT
    } else {
        at
    }
}


/// The text of the first `n` lines that a prose paragraph names, trimmed and
/// set apart by one space.
pub open spec fn paragraph_text(doc: DocText, lines: Seq<usize>, n: int) -> Seq<char>
    decreases n,
{
    if n <= 0 {
        Seq::empty()
    } else {
        let head = paragraph_text(doc, lines, n - 1);
        let text = trimmed(doc.lines[lines[n - 1] as int].text);
        if n > 1 && !has_suffix(head, " "@) {
            head + " "@ + text
        } else {
            head + text
        }
    }
}

/// The body of a prose paragraph: its lines on one line.
pub open spec fn prose_body(doc: DocText, lines: Seq<usize>) -> Seq<char> {
    spaces_collapsed(paragraph_text(doc, lines, lines.len() as int))
}

/// The hanging indent of one piece of a paragraph.
pub open spec fn piece_hang(piece: Seq<char>, effective: usize, flavor: DocFlavor) -> nat {
    clamped(hanging_indent(piece, effective as nat, flavor)) as nat
}

/// The lines of the first `n` pieces of a prose paragraph, with an empty
/// comment line between pieces.
pub open spec fn piece_lines(
    pieces: Seq<Seq<char>>,
    n: int,
    prefix: Seq<char>,
    effective: usize,
    flavor: DocFlavor,
) -> Seq<Seq<char>>
    decreases n,
{
    if n <= 0 {
        Seq::empty()
    } else {
        let head = piece_lines(pieces, n - 1, prefix, effective, flavor);
        let gap = if n > 1 {
            seq![bare_prefix(prefix)]
        } else {
            Seq::empty()
        };
        head + gap + wrapped_lines(
            pieces[n - 1],
            prefix,
            effective as nat,
            piece_hang(pieces[n - 1], effective, flavor),
        )
    }
}

/// The lines of a prose paragraph: its words packed, a `Return` sentence on a
/// line of its own.
pub open spec fn prose_lines(
    doc: DocText,
    para: ParagraphText,
    prefix: Seq<char>,
    effective: usize,
) -> Seq<Seq<char>> {
    let pieces = return_pieces(prose_body(doc, para.line_indices));
    piece_lines(pieces, pieces.len() as int, prefix, effective, doc.flavor)
}

fn paragraph_string(doc: &NormalizedDoc, lines: &Vec<usize>) -> (r: String)
    requires
        forall|i: int| 0 <= i < lines.len() ==> #[trigger] lines@[i] < doc.lines.len(),
    ensures
        r@ == paragraph_text(doc@, lines@, lines.len() as int),
{
    let mut body = String::new();
    let mut n: usize = 0;
    while n < lines.len()
        invariant
            n <= lines.len(),
            forall|i: int| 0 <= i < lines.len() ==> #[trigger] lines@[i] < doc.lines.len(),
            body@ == paragraph_text(doc@, lines@, n as int),
        decreases lines.len() - n,
    {
        assert(lines@[n as int] < doc.lines.len());
        let li: usize = lines[n];
        if n > 0 && !ends_with(body.as_str(), " ") {
            body.append(" ");
        }
        body.append(trim(doc.lines[li].text.as_str()));
        n = n + 1;
    }
    body
}

fn emit_prose_paragraph(
    doc: &NormalizedDoc,
    para: &Paragraph,
    prefix: &str,
    effective: usize,
    out: &mut Vec<String>,
)
    requires
        forall|i: int|
            0 <= i < para.line_indices.len() ==> #[trigger] para.line_indices@[i]
                < doc.lines.len(),
    ensures
        texts(final(out)@) == texts(old(out)@) + prose_lines(doc@, para@, prefix@, effective),
{
    let ghost given = texts(out@);
    let text = paragraph_string(doc, &para.line_indices);
    let body = collapse_spaces(text.as_str());
    let segments = split_at_return_boundary(body.as_str());
    let ghost pieces = texts(segments@);
    let mut i: usize = 0;
    assert(texts(out@) =~= given + piece_lines(pieces, 0, prefix@, effective, doc.flavor));
    while i < segments.len()
        invariant
            i <= segments.len(),
            pieces == texts(segments@),
            texts(out@) == given + piece_lines(pieces, i as int, prefix@, effective, doc.flavor),
        decreases segments.len() - i,
    {
        let ghost before = out@;
        let ghost done = piece_lines(pieces, i as int, prefix@, effective, doc.flavor);
        if i > 0 {
            out.push(blank_prefix(prefix).to_string());
            assert(texts(out@) =~= texts(before) + seq![bare_prefix(prefix@)]);
        }
        let seg = segments[i].as_str();
        assert(pieces[i as int] == seg@);
        let hang: usize = doxygen_hanging_indent(seg, effective, doc.flavor);
        wrap_segment_aligned(seg, prefix, effective, hang, out);
        assert(texts(out@) =~= given + piece_lines(
            pieces,
            i + 1,
            prefix@,
            effective,
            doc.flavor,
        ));
        i = i + 1;
    }
}

/// How one line of a preformatted paragraph goes out: as it stood in the
/// source. Rows and banners go out behind the prefix, the star run of a block's
/// continuation marker shrinks to one star, and with `inline_opener` the
/// block's opener is taken off the first line.
pub open spec fn raw_line(
    doc: DocText,
    li: int,
    prefix: Seq<char>,
    inline_opener: bool,
) -> Seq<char> {
    let line = doc.lines[li];
    let opener_line = inline_opener && li == 0;
    if (line.kind == LineKind::LabelRow || line.kind == LineKind::Banner) && !opener_line {
        trimmed_end(prefix + line.text)
    } else if !is_block(doc.style) {
        line.raw
    } else if opener_line {
        trimmed_end(prefix + behind_opener(line.raw, doc.opener_or("/*"@)))
    } else {
        stars_collapsed(line.raw)
    }
}

pub open spec fn raw_lines(
    doc: DocText,
    para: ParagraphText,
    prefix: Seq<char>,
    inline_opener: bool,
) -> Seq<Seq<char>> {
    Seq::new(
        para.line_indices.len(),
        |i: int| raw_line(doc, para.line_indices[i] as int, prefix, inline_opener),
    )
}

fn emit_raw_line(doc: &NormalizedDoc, li: usize, prefix: &str, inline_opener: bool) -> (r: String)
    requires
        li < doc.lines.len(),
    ensures
        r@ == raw_line(doc@, li as int, prefix@, inline_opener),
{
    let line = &doc.lines[li];
    assert(doc@.lines[li as int] == line@);
    let opener_line = inline_opener && li == 0;
    if (line.kind == LineKind::LabelRow || line.kind == LineKind::Banner) && !opener_line {
        let full = cat2(prefix, line.text.as_str());
        return trim_end(full.as_str()).to_string();
    }
    if doc.style != Style::Block && doc.style != Style::DocBlock {
        return line.raw.clone();
    }
    if opener_line {
        let full = cat2(prefix, strip_leading_block_opener(line.raw.as_str(), doc));
        return trim_end(full.as_str()).to_string();
    }
    collapse_block_marker_stars(line.raw.as_str())
}

fn emit_preformatted(
    doc: &NormalizedDoc,
    para: &Paragraph,
    prefix: &str,
    inline_opener: bool,
    out: &mut Vec<String>,
)
    requires
        forall|i: int|
            0 <= i < para.line_indices.len() ==> #[trigger] para.line_indices@[i]
                < doc.lines.len(),
    ensures
        texts(final(out)@) == texts(old(out)@) + raw_lines(doc@, para@, prefix@, inline_opener),
{
    let ghost given = texts(out@);
    let ghost all = raw_lines(doc@, para@, prefix@, inline_opener);
    let mut i: usize = 0;
    assert(texts(out@) =~= given + all.take(0));
    while i < para.line_indices.len()
        invariant
            i <= para.line_indices.len() == all.len(),
            all == raw_lines(doc@, para@, prefix@, inline_opener),
            forall|i: int|
                0 <= i < para.line_indices.len() ==> #[trigger] para.line_indices@[i]
                    < doc.lines.len(),
            texts(out@) == given + all.take(i as int),
        decreases para.line_indices.len() - i,
    {
        assert(para.line_indices@[i as int] < doc.lines.len());
        let ghost before = texts(out@);
        let line = emit_raw_line(doc, para.line_indices[i], prefix, inline_opener);
        out.push(line);
        assert(texts(out@) =~= before.push(all[i as int]));
        assert(all.take(i + 1) =~= all.take(i as int).push(all[i as int]));
        assert(texts(out@) =~= given + all.take(i + 1));
        i = i + 1;
    }
    assert(all.take(i as int) =~= all);
}

/// The width that is left for text behind `prefix`.
pub open spec fn text_room(prefix: Seq<char>, limit: usize, tab_width: usize) -> usize {
    limit.saturating_sub(clamped(columns(prefix, tab_width as nat)))
}

/// The lines of one paragraph.
pub open spec fn paragraph_lines(
    doc: DocText,
    para: ParagraphText,
    prefix: Seq<char>,
    effective: usize,
    inline_opener: bool,
) -> Seq<Seq<char>> {
    match para.kind {
        ParagraphKind::Preformatted => raw_lines(doc, para, prefix, inline_opener),
        ParagraphKind::AtxHeader => seq![
            prefix + trimmed(doc.lines[para.line_indices[0] as int].text),
        ],
        ParagraphKind::Prose => prose_lines(doc, para, prefix, effective),
    }
}

/// The lines of the first `n` paragraphs. A paragraph that a blank line
/// preceded keeps an empty comment line in front of it.
pub open spec fn first_paragraphs(
    doc: DocText,
    n: int,
    prefix: Seq<char>,
    effective: usize,
    inline_opener: bool,
) -> Seq<Seq<char>>
    decreases n,
{
    if n <= 0 {
        Seq::empty()
    } else {
        let head = first_paragraphs(doc, n - 1, prefix, effective, inline_opener);
        let para = doc.paragraphs[n - 1];
        let gap = if n > 1 && para.preceded_by_blank {
            seq![bare_prefix(prefix)]
        } else {
            Seq::empty()
        };
        head + gap + paragraph_lines(doc, para, prefix, effective, inline_opener)
    }
}

/// The body lines of a comment.
pub open spec fn body_lines(
    doc: DocText,
    prefix: Seq<char>,
    effective: usize,
    inline_opener: bool,
) -> Seq<Seq<char>> {
    if doc.paragraphs.len() == 0 && doc.has_blank_line() {
        seq![bare_prefix(prefix)]
    } else {
        first_paragraphs(doc, doc.paragraphs.len() as int, prefix, effective, inline_opener)
    }
}

fn any_blank_line(doc: &NormalizedDoc) -> (r: bool)
    ensures
        r == doc@.has_blank_line(),
{
    let mut i: usize = 0;
    while i < doc.lines.len()
        invariant
            i <= doc.lines.len(),
            forall|j: int| 0 <= j < i ==> (#[trigger] doc@.lines[j]).kind != LineKind::Blank,
        decreases doc.lines.len() - i,
    {
        assert(doc@.lines[i as int] == doc.lines@[i as int]@);
        if doc.lines[i].kind == LineKind::Blank {
            return true;
        }
        i = i + 1;
    }
    false
}

fn emit_paragraph(
    doc: &NormalizedDoc,
    para: &Paragraph,
    prefix: &str,
    effective: usize,
    inline_opener: bool,
    out: &mut Vec<String>,
)
    requires
        forall|i: int|
            0 <= i < para.line_indices.len() ==> #[trigger] para.line_indices@[i]
                < doc.lines.len(),
        para.kind == ParagraphKind::AtxHeader ==> para.line_indices.len() > 0,
    ensures
        texts(final(out)@) == texts(old(out)@) + paragraph_lines(
            doc@,
            para@,
            prefix@,
            effective,
            inline_opener,
        ),
{
    match para.kind {
        ParagraphKind::Preformatted => {
            emit_preformatted(doc, para, prefix, inline_opener, out);
        },
        ParagraphKind::AtxHeader => {
            let li: usize = para.line_indices[0];
            let ghost given = out@;
            let full = cat2(prefix, trim(doc.lines[li].text.as_str()));
            out.push(full);
            assert(texts(out@) =~= texts(given) + seq![full@]);
        },
        ParagraphKind::Prose => {
            emit_prose_paragraph(doc, para, prefix, effective, out);
        },
    }
}

fn emit_paragraphs(
    doc: &NormalizedDoc,
    prefix: &str,
    column_limit: usize,
    out: &mut Vec<String>,
    skip_first_emit_inline_opener: bool,
    tab_width: usize,
)
    requires
        doc@.wf(),
        tab_width > 0,
    ensures
        texts(final(out)@) == texts(old(out)@) + body_lines(
            doc@,
            prefix@,
            text_room(prefix@, column_limit, tab_width),
            skip_first_emit_inline_opener,
        ),
{
    let prefix_width: usize = display_width(prefix, tab_width);
    let effective: usize = column_limit.saturating_sub(prefix_width);
    let inline_opener = skip_first_emit_inline_opener;
    let ghost given = texts(out@);
    if doc.paragraphs.len() == 0 && any_blank_line(doc) {
        out.push(blank_prefix(prefix).to_string());
        assert(texts(out@) =~= given + seq![bare_prefix(prefix@)]);
        return;
    }
    let mut idx: usize = 0;
    assert(texts(out@) =~= given + first_paragraphs(doc@, 0, prefix@, effective, inline_opener));
    while idx < doc.paragraphs.len()
        invariant
            idx <= doc.paragraphs.len(),
            doc@.wf(),
            texts(out@) == given + first_paragraphs(
                doc@,
                idx as int,
                prefix@,
                effective,
                inline_opener,
            ),
        decreases doc.paragraphs.len() - idx,
    {
        let ghost done = first_paragraphs(doc@, idx as int, prefix@, effective, inline_opener);
        let para = &doc.paragraphs[idx];
        let ghost p = doc@.paragraphs[idx as int];
        proof {
            assert(p == para@);
            assert forall|i: int| 0 <= i < para.line_indices.len() implies
                #[trigger] para.line_indices@[i] < doc.lines.len() by {
                assert(p.line_indices[i] < doc@.lines.len());
            }
        }
        let ghost gap = if idx > 0 && para.preceded_by_blank {
            seq![bare_prefix(prefix@)]
        } else {
            Seq::empty()
        };
        let ghost before = texts(out@);
        if idx > 0 && para.preceded_by_blank {
            out.push(blank_prefix(prefix).to_string());
        }
        assert(texts(out@) =~= before + gap);
        emit_paragraph(doc, para, prefix, effective, inline_opener, out);
        proof {
            let lines = paragraph_lines(doc@, p, prefix@, effective, inline_opener);
            assert(texts(out@) == given + done + gap + lines);
            assert(given + done + gap + lines =~= given + (done + gap + lines));
        }
        idx = idx + 1;
    }
}

/// How many of the first `n` lines ended in a carriage return and line feed.
pub open spec fn crlf_lines(lines: Seq<LineText>, n: int) -> nat
    decreases n,
{
    if n <= 0 {
        0
    } else {
        crlf_lines(lines, n - 1) + if lines[n - 1].had_crlf {
            1nat
        } else {
            0
        }
    }
}

impl DocText {
    /// The line ending of the emitted comment: the more frequent one of its
    /// interior breaks, a tie going to the line feed. Without an interior
    /// break the only line decides, and then the fallback.
    pub open spec fn ending(self) -> Seq<char> {
        let inner = self.lines.len() - 1;
        if inner <= 0 {
            if self.lines.len() > 0 && self.lines.last().had_crlf {
                "\r\n"@
            } else {
                self.fallback_ending
            }
        } else if 2 * crlf_lines(self.lines, inner) > inner {
            "\r\n"@
        } else {
            "\n"@
        }
    }
}

fn line_ending(doc: &NormalizedDoc) -> (r: &'static str)
    ensures
        r@ == doc@.ending(),
{
    let len: usize = doc.lines.len();
    let counted: usize = len.saturating_sub(1);
    let mut crlf: usize = 0;
    let mut i: usize = 0;
    while i < counted
        invariant
            crlf <= i <= counted <= doc.lines.len(),
            crlf == crlf_lines(doc@.lines, i as int),
        decreases counted - i,
    {
        assert(doc@.lines[i as int] == doc.lines@[i as int]@);
        if doc.lines[i].had_crlf {
            crlf = crlf + 1;
        }
        i = i + 1;
    }
    if counted == 0 {
        if len > 0 && doc.lines[len - 1].had_crlf {
            "\r\n"
        } else {
            doc.fallback_ending
        }
    } else if crlf > counted - crlf {
        "\r\n"
    } else {
        "\n"
    }
}

fn join_lines(lines: &Vec<String>, doc: &NormalizedDoc) -> (r: String)
    ensures
        r@ == joined(texts(lines@), doc@.ending()),
{
    join_texts(lines, line_ending(doc))
}

/// Every body line is empty behind its prefix.
pub open spec fn nothing_inside(body: Seq<Seq<char>>, doc: DocText) -> bool {
    forall|i: int|
        0 <= i < body.len() ==> content_of(
            #[trigger] body[i],
            doc.prefix(),
            doc.default_continuation_prefix,
        ).len() == 0
}

/// Closes a block, unless its last line already does.
pub open spec fn with_closer(lines: Seq<Seq<char>>, doc: DocText) -> Seq<Seq<char>> {
    if has_suffix(trimmed_end(lines.last()), "*/"@) {
        lines
    } else {
        lines.push(doc.indent + " */"@)
    }
}

/// The first line of a block whose opener shares it with the text.
pub open spec fn inline_first(first: Seq<char>, doc: DocText) -> Seq<char> {
    trimmed_end(
        doc.opener() + " "@ + content_of(first, doc.prefix(), doc.default_continuation_prefix),
    )
}

/// The lines of a block comment around its body lines.
pub open spec fn block_lines(
    doc: DocText,
    body: Seq<Seq<char>>,
    limit: usize,
    tab_width: usize,
) -> Seq<Seq<char>> {
    if doc.is_file_header {
        with_closer(seq![doc.opener()] + body, doc)
    } else if doc.lines.len() == 1 && nothing_inside(body, doc) {
        seq![doc.opener() + " */"@]
    } else if body.len() == 0 {
        with_closer(seq![doc.opener()], doc)
    } else {
        let first = after_lead(body[0], CharClass::Blank);
        let raw_opener = has_prefix(first, doc.opener());
        let raw_closer = has_suffix(first, "*/"@);
        let head = if raw_opener {
            body[0]
        } else {
            inline_first(body[0], doc)
        };
        let one_line = head + " */"@;
        let all = seq![head] + body.skip(1);
        if !raw_opener && !raw_closer && body.len() == 1 && clamped(
            columns(doc.indent + one_line, tab_width as nat),
        ) <= limit {
            seq![one_line]
        } else if raw_closer {
            all
        } else {
            with_closer(all, doc)
        }
    }
}

/// The lines of a run of line comments: the first without its indentation,
/// which stands in the source already.
pub open spec fn line_comment_lines(doc: DocText, body: Seq<Seq<char>>) -> Seq<Seq<char>> {
    if body.len() > 0 && has_prefix(body[0], doc.indent) {
        seq![body[0].skip(doc.indent.len() as int)] + body.skip(1)
    } else {
        body
    }
}

/// The lines of the comment that replaces `doc`'s source.
pub open spec fn comment_lines(doc: DocText, limit: usize, tab_width: usize) -> Seq<Seq<char>> {
    let effective = text_room(doc.prefix(), limit, tab_width);
    if is_block(doc.style) {
        block_lines(doc, body_lines(doc, doc.prefix(), effective, true), limit, tab_width)
    } else {
        line_comment_lines(doc, body_lines(doc, doc.prefix(), effective, false))
    }
}

/// The text that replaces a comment.
#[verifier::opaque]
pub open spec fn reflowed(doc: DocText, limit: usize, tab_width: usize) -> Seq<char> {
    joined(comment_lines(doc, limit, tab_width), doc.ending())
}

fn all_inside_empty(body: &Vec<String>, prefix: &str, doc: &NormalizedDoc) -> (r: bool)
    requires
        prefix@ == doc@.prefix(),
    ensures
        r == nothing_inside(texts(body@), doc@),
{
    let ghost all = texts(body@);
    let cont = doc.default_continuation_prefix.as_str();
    let mut i: usize = 0;
    while i < body.len()
        invariant
            i <= body.len(),
            all == texts(body@),
            prefix@ == doc@.prefix(),
            cont@ == doc@.default_continuation_prefix,
            forall|j: int|
                0 <= j < i ==> content_of(
                    #[trigger] all[j],
                    doc@.prefix(),
                    doc@.default_continuation_prefix,
                ).len() == 0,
        decreases body.len() - i,
    {
        let content = strip_known_prefix(body[i].as_str(), prefix, cont);
        assert(all[i as int] == body@[i as int]@);
        if !content.is_empty() {
            return false;
        }
        i = i + 1;
    }
    true
}

fn push_closer(lines: &mut Vec<String>, doc: &NormalizedDoc)
    requires
        old(lines).len() > 0,
    ensures
        texts(final(lines)@) == with_closer(texts(old(lines)@), doc@),
{
    let ghost given = texts(lines@);
    let last = lines[lines.len() - 1].as_str();
    assert(given.last() == last@);
    if !ends_with(trim_end(last), "*/") {
        lines.push(cat2(doc.indent.as_str(), " */"));
        assert(texts(lines@) =~= given.push(doc@.indent + " */"@));
    }
}

/// Appends `body[from..]` to `out`.
fn extend_from(out: &mut Vec<String>, body: &Vec<String>, from: usize)
    requires
        from <= body.len(),
    ensures
        texts(final(out)@) == texts(old(out)@) + texts(body@).skip(from as int),
{
    let ghost given = texts(out@);
    let ghost all = texts(body@);
    let mut i: usize = from;
    assert(texts(out@) =~= given + all.subrange(from as int, i as int));
    while i < body.len()
        invariant
            from <= i <= body.len(),
            all == texts(body@),
            texts(out@) == given + all.subrange(from as int, i as int),
        decreases body.len() - i,
    {
        let ghost before = texts(out@);
        out.push(body[i].clone());
        assert(texts(out@) =~= before.push(all[i as int]));
        assert(texts(out@) =~= given + all.subrange(from as int, i + 1));
        i = i + 1;
    }
    assert(all.subrange(from as int, i as int) =~= all.skip(from as int));
}

fn opener_string(doc: &NormalizedDoc) -> (r: String)
    ensures
        r@ == doc@.opener(),
{
    match &doc.block_opener_marker {
        Some(m) => m.clone(),
        None => if doc.style == Style::DocBlock {
            "/**".to_string()
        } else {
            "/*".to_string()
        },
    }
}

fn frame_block(
    doc: &NormalizedDoc,
    body: &Vec<String>,
    prefix: &str,
    column_limit: usize,
    tab_width: usize,
) -> (r: Vec<String>)
    requires
        prefix@ == doc@.prefix(),
        tab_width > 0,
    ensures
        texts(r@) == block_lines(doc@, texts(body@), column_limit, tab_width),
{
    let ghost all = texts(body@);
    let opener = opener_string(doc);
    let mut out: Vec<String> = Vec::new();
    if doc.is_file_header {
        out.push(opener);
        assert(texts(out@) =~= seq![doc@.opener()]);
        extend_from(&mut out, body, 0);
        assert(all.skip(0) =~= all);
        assert(texts(out@).len() == out.len());
        push_closer(&mut out, doc);
        return out;
    }
    assert(doc@.lines.len() == doc.lines.len());
    if doc.lines.len() == 1 && all_inside_empty(body, prefix, doc) {
        out.push(cat2(opener.as_str(), " */"));
        assert(texts(out@) =~= seq![doc@.opener() + " */"@]);
        return out;
    }
    if body.len() == 0 {
        out.push(opener);
        assert(texts(out@) =~= seq![doc@.opener()]);
        push_closer(&mut out, doc);
        return out;
    }
    assert(all[0] == body@[0]@);
    let first = skip_lead(body[0].as_str(), CharClass::Blank);
    let raw_opener = starts_with(first, opener.as_str());
    let raw_closer = ends_with(first, "*/");
    let head = if raw_opener {
        body[0].clone()
    } else {
        let content = strip_known_prefix(
            body[0].as_str(),
            prefix,
            doc.default_continuation_prefix.as_str(),
        );
        let full = cat3(opener.as_str(), " ", content);
        let head = trim_end(full.as_str()).to_string();
        if body.len() == 1 && !raw_closer {
            let one_line = cat2(head.as_str(), " */");
            let placed = cat2(doc.indent.as_str(), one_line.as_str());
            if display_width(placed.as_str(), tab_width) <= column_limit {
                out.push(one_line);
                assert(texts(out@) =~= seq![one_line@]);
                return out;
            }
        }
        head
    };
    out.push(head);
    assert(texts(out@) =~= seq![head@]);
    extend_from(&mut out, body, 1);
    assert(texts(out@).len() == out.len());
    if !raw_closer {
        push_closer(&mut out, doc);
    }
    out
}

/// Lays out one normalized comment as the source text that replaces it. An
/// empty result means that there is nothing to emit.
pub fn reflow(doc: &NormalizedDoc, column_limit: usize, indent_cfg: IndentConfig) -> (r: String)
    requires
        doc@.wf(),
        indent_cfg.wf(),
    ensures
        r@ == reflowed(doc@, column_limit, indent_cfg.tab_width),
{
    proof {
        reveal(reflowed);
    }
    let prefix = line_prefix_string(doc);
    let tab_width: usize = indent_cfg.tab_width;
    let mut body: Vec<String> = Vec::new();
    let ghost none = texts(body@);
    if doc.style == Style::Block || doc.style == Style::DocBlock {
        emit_paragraphs(doc, prefix.as_str(), column_limit, &mut body, true, tab_width);
        assert(texts(body@) =~= body_lines(
            doc@,
            prefix@,
            text_room(prefix@, column_limit, tab_width),
            true,
        ));
        let lines = frame_block(doc, &body, prefix.as_str(), column_limit, tab_width);
        return join_lines(&lines, doc);
    }
    emit_paragraphs(doc, prefix.as_str(), column_limit, &mut body, false, tab_width);
    let ghost all = texts(body@);
    assert(all =~= body_lines(doc@, prefix@, text_room(prefix@, column_limit, tab_width), false));
    if body.len() > 0 {
        assert(all[0] == body@[0]@);
        if let Some(rest) = strip_prefix(body[0].as_str(), doc.indent.as_str()) {
            let mut lines: Vec<String> = Vec::new();
            lines.push(rest.to_string());
            assert(texts(lines@) =~= seq![rest@]);
            extend_from(&mut lines, &body, 1);
            return join_lines(&lines, doc);
        }
    }
    join_lines(&body, doc)
}

} // verus!
