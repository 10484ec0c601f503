//! Comments without text: a second pass leaves them as the first one emitted them.

use crate::block_settling::{
    lemma_alone, lemma_continues_behind_star, lemma_first_row_read, lemma_joined_front,
    lemma_opener_unbroken, lemma_star_facts, lemma_trimmed_end,
};
use crate::classify::{kind_of, style_of, Kind, Style};
use crate::comment::CommentText;
use crate::final_form::{
    after_first, emitted, first_doc, is_page, lemma_ending, lemma_first_facts, lemma_marker_style,
    lemma_opener_style, lemma_plain_marker, stands_in_source,
};
use crate::kdoc::{kernel_doc, region_start, return_split};
use crate::language::Language;
use crate::linekind::{base_kind, region_before, Region, StrippedText};
use crate::normalize::{
    block_marker_of, line_marker_of, line_stripped, lines_stripped, paragraphs_from, source_lines,
    DocText, LineKind, LineText,
};
use crate::prose_form::{
    lemma_bare_marker, lemma_empty_no_bookend, lemma_keeps_bodies, lemma_marker_alone,
};
use crate::reflow::{bare_prefix, comment_lines, content_of, is_block, reflowed};
use crate::rows::{
    block_opener, eol_of, is_break, lemma_bare_row, lemma_closer_row, lemma_empty_row,
    lemma_ended_lines, lemma_header_row, lemma_opener_found, plain_marker, unbroken,
};
use crate::second_pass::lemma_blank_tail;
use crate::settling::{
    lemma_concat_unbroken, lemma_joined_again, lemma_line_prefix, lemma_read_line,
};
use crate::text::{
    after_lead, all_in, has_prefix, has_suffix, in_class, joined, lemma_lead_len, lemma_trail_len,
    trimmed_end, CharClass,
};
use crate::width::{clamped, columns};
use vstd::prelude::*;

verus! {

/// The comment has lines, and all of them are blank.
pub open spec fn without_text(doc: DocText) -> bool {
    &&& doc.lines.len() > 0
    &&& forall|i: int| 0 <= i < doc.lines.len() ==> (#[trigger] doc.lines[i]).kind == LineKind::Blank
    &&& doc.paragraphs == paragraphs_from(doc.lines, 0, false)
}

/// The opener and the closer of a block without text share a row.
pub open spec fn on_one_row(doc: DocText, m: Seq<char>, limit: usize, tab_width: usize) -> bool {
    doc.lines.len() == 1 || clamped(columns(doc.indent + (m + " */"@), tab_width as nat)) <= limit
}

/// The rows of a block without text.
pub open spec fn empty_rows(doc: DocText, m: Seq<char>, one_row: bool) -> Seq<Seq<char>> {
    if doc.is_file_header {
        seq![m, doc.indent + " *"@, doc.indent + " */"@]
    } else if one_row {
        seq![m + " */"@]
    } else {
        seq![m, doc.indent + " */"@]
    }
}

/// A row of nothing but a star has no content.
proof fn lemma_no_content(indent: Seq<char>)
    requires
        all_in(indent, CharClass::Blank),
    ensures
        content_of(indent + " *"@, indent + " * "@, " * "@).len() == 0,
        after_lead(indent + " *"@, CharClass::Blank) == "*"@,
{
    reveal_strlit(" ");
    reveal_strlit("*");
    reveal_strlit(" *");
    reveal_strlit(" * ");
    let bare = indent + " *"@;
    let cont = " * "@;
    lemma_trail_len(cont, CharClass::White, 1);
    assert(trimmed_end(cont) =~= " *"@);
    let n = (indent.len() + 1) as int;
    assert forall|i: int| 0 <= i < n implies in_class(#[trigger] bare[i], CharClass::Blank) by {
        if i < indent.len() {
            assert(bare[i] == indent[i]);
        }
    }
    lemma_lead_len(bare, CharClass::Blank, n);
    let a = after_lead(bare, CharClass::Blank);
    assert(a =~= "*"@);
    lemma_lead_len(a, CharClass::One('*'), 1);
    assert(after_lead(a, CharClass::One('*')).len() == 0);
    if has_prefix(bare, " *"@) {
        assert(bare.subrange(0, 2) == " *"@);
        assert(bare.subrange(0, 2)[1] == '*');
        if indent.len() > 0 {
            if indent.len() > 1 {
                assert(bare[1] == indent[1]);
                assert(in_class(indent[1], CharClass::Blank));
            }
            assert(bare[1] != '*');
        }
    }
}

/// How a block without text is laid out.
proof fn lemma_empty_block(doc: DocText, m: Seq<char>, limit: usize, tab_width: usize)
    requires
        is_block(doc.style),
        doc.default_continuation_prefix == " * "@,
        all_in(doc.indent, CharClass::Blank),
        block_opener(m, doc.style),
        doc.block_opener_marker == Some(m),
        without_text(doc),
    ensures
        comment_lines(doc, limit, tab_width) == empty_rows(
            doc,
            m,
            on_one_row(doc, m, limit, tab_width),
        ),
{
    reveal_strlit("*");
    reveal_strlit(" *");
    reveal_strlit("*/");
    reveal_strlit(" ");
    reveal_strlit("/*");
    reveal_strlit("/**");
    reveal_strlit("/*!");
    reveal_strlit("/*-");
    lemma_blank_tail(doc.lines, 0, false);
    lemma_star_facts(doc);
    lemma_no_content(doc.indent);
    assert(doc.lines[0].kind == LineKind::Blank);
    let bare = doc.indent + " *"@;
    let body = seq![bare];
    lemma_trimmed_end(bare);
    lemma_trimmed_end(m);
    assert(bare.last() == '*');
    assert(m.last() != '/');
    assert(!has_suffix(bare, "*/"@)) by {
        if has_suffix(bare, "*/"@) {
            assert(bare.subrange(bare.len() - 2, bare.len() as int)[1] == '/');
        }
    }
    assert(!has_suffix(m, "*/"@)) by {
        if has_suffix(m, "*/"@) {
            assert(m.subrange(m.len() - 2, m.len() as int)[1] == '/');
        }
    }
    let rows = comment_lines(doc, limit, tab_width);
    let want = empty_rows(doc, m, on_one_row(doc, m, limit, tab_width));
    if doc.is_file_header {
        assert((seq![m] + body).last() == bare);
        assert(rows =~= want);
    } else {
        assert(crate::reflow::nothing_inside(body, doc));
        if doc.lines.len() == 1 {
            assert(rows =~= want);
        } else {
            let head = crate::reflow::inline_first(bare, doc);
            let none = content_of(bare, doc.prefix(), doc.default_continuation_prefix);
            assert(m + " "@ + none =~= m + " "@);
            let t = m + " "@;
            assert(t[t.len() - 2] == m.last());
            lemma_trail_len(t, CharClass::White, 1);
            assert(head =~= m);
            assert(!has_prefix("*"@, m));
            assert(!has_suffix("*"@, "*/"@));
            assert((seq![m] + body.skip(1)) =~= seq![m]);
            assert(rows =~= want);
        }
    }
}

/// The rows of a block without text hold no line break, and no text either.
proof fn lemma_empty_rows(doc: DocText, m: Seq<char>, one_row: bool, r: int)
    requires
        is_block(doc.style),
        doc.default_continuation_prefix == " * "@,
        all_in(doc.indent, CharClass::Blank),
        block_opener(m, doc.style),
        0 <= r < empty_rows(doc, m, one_row).len(),
    ensures
        ({
            let rows = empty_rows(doc, m, one_row);
            &&& unbroken(rows[r])
            &&& rows[r].len() > 0
            &&& line_stripped(rows[r], doc.style, r == 0, r == rows.len() - 1).1.len() == 0
        }),
{
    reveal_strlit(" */");
    reveal_strlit(" *");
    lemma_star_facts(doc);
    lemma_opener_unbroken(m, doc.style, seq!['x']);
    lemma_empty_row(m, doc.style);
    lemma_header_row(m, doc.style);
    lemma_bare_row(doc.indent, doc.style);
    lemma_closer_row(doc.indent, doc.style);
    assert(all_in(" */"@, CharClass::NotOne('\n')));
    lemma_concat_unbroken(m, " */"@);
    assert((m + " */"@).last() == '/');
    assert(unbroken(m + " */"@));
    let rows = empty_rows(doc, m, one_row);
    if r == 0 {
        if !doc.is_file_header && one_row {
            assert(rows.len() == 1);
            assert(rows[0] == m + " */"@);
        } else {
            assert(rows.len() > 1);
            assert(rows[0] == m);
        }
    } else if r == rows.len() - 1 {
        assert(rows[r] == doc.indent + " */"@);
    } else {
        assert(rows[r] == doc.indent + " *"@);
    }
}

/// Rows without text are read as blank lines.
proof fn lemma_blank_rows(
    d: CommentText,
    kind: Kind,
    limit: usize,
    rows: Seq<Seq<char>>,
    crlf: bool,
    brk: Seq<char>,
)
    requires
        rows.len() > 0,
        rows.last().len() > 0,
        is_break(brk),
        d.text == joined(rows, eol_of(crlf)) + brk,
        forall|r: int|
            0 <= r < rows.len() ==> unbroken(#[trigger] rows[r]) && line_stripped(
                rows[r],
                kind.style,
                r == 0,
                r == rows.len() - 1,
            ).1.len() == 0,
    ensures
        ({
            let lines = d.body(kind, limit);
            &&& lines.len() == rows.len()
            &&& forall|r: int|
                0 <= r < lines.len() ==> (#[trigger] lines[r]).kind == LineKind::Blank
                    && lines[r].text.len() == 0
            &&& forall|r: int| 0 <= r < lines.len() - 1 ==> (#[trigger] lines[r]).had_crlf == crlf
        }),
{
    lemma_ended_lines(rows, crlf, brk);
    let raw = source_lines(d.text);
    let marked = lines_stripped(raw, kind.style);
    let plain = d.plain_lines(kind);
    let lines = d.body(kind, limit);
    assert forall|r: int| 0 <= r < marked.len() implies (#[trigger] marked[r]).body.len() == 0 by {
        assert(raw[r].body == rows[r]);
        assert(unbroken(rows[r]));
    }
    assert forall|r: int| 0 <= r < marked.len() implies !crate::textline::is_bookend(
        (#[trigger] marked[r]).body,
    ) by {
        lemma_empty_no_bookend(marked[r].body);
    }
    lemma_keeps_bodies(d, kind);
    assert forall|r: int| 0 <= r < plain.len() implies (#[trigger] plain[r]).body.len() == 0 by {
        assert(plain[r].body == marked[r].body);
    }
    assert forall|r: int| 0 <= r < lines.len() implies (#[trigger] lines[r]).kind
        == LineKind::Blank && lines[r].text.len() == 0 by {
        lemma_blank_base(plain, kind, r);
        assert(plain[r].body.len() == 0);
    }
    assert forall|r: int| 0 <= r < lines.len() - 1 implies (#[trigger] lines[r]).had_crlf
        == crlf by {
        lemma_read_line(d, kind, limit, r);
        assert(raw[r].had_crlf == crlf);
    }
}

/// A line without text among such lines is blank.
proof fn lemma_blank_base(plain: Seq<StrippedText>, kind: Kind, r: int)
    requires
        0 <= r < plain.len(),
        forall|i: int| 0 <= i < plain.len() ==> (#[trigger] plain[i]).body.len() == 0,
    ensures
        region_before(plain, r) == Region::Text,
        base_kind(plain, r, kind.flavor) == LineKind::Blank,
    decreases r,
{
    assert(plain[r].body.len() == 0);
    lemma_empty_no_bookend(plain[r].body);
    if r > 0 {
        lemma_blank_base(plain, kind, r - 1);
        assert(plain[r - 1].body.len() == 0);
        lemma_opens_nothing(plain[r - 1].body);
    }
}

/// Nothing opens no region.
proof fn lemma_opens_nothing(s: Seq<char>)
    requires
        s.len() == 0,
    ensures
        crate::linekind::region_after(Region::Text, s) == Region::Text,
{
    reveal_strlit("@");
    reveal_strlit("\\");
    lemma_lead_len(s, CharClass::White, 0);
    lemma_lead_len(s, CharClass::Blank, 0);
    lemma_lead_len(s, CharClass::One('`'), 0);
    lemma_lead_len(s, CharClass::One('~'), 0);
    lemma_lead_len(s, CharClass::One(' '), 0);
}

/// Blank lines stay as they are.
proof fn lemma_blank_final(lines: Seq<LineText>)
    requires
        forall|r: int|
            0 <= r < lines.len() ==> (#[trigger] lines[r]).kind == LineKind::Blank
                && lines[r].text.len() == 0,
    ensures
        kernel_doc(return_split(lines, lines.len() as int)) == lines,
{
    lemma_blank_split(lines, lines.len() as int);
    assert(lines.take(lines.len() as int) =~= lines);
    lemma_no_region(lines, 0);
}

proof fn lemma_blank_split(lines: Seq<LineText>, n: int)
    requires
        0 <= n <= lines.len(),
        forall|r: int| 0 <= r < lines.len() ==> (#[trigger] lines[r]).kind == LineKind::Blank,
    ensures
        return_split(lines, n) == lines.take(n),
    decreases n,
{
    if n > 0 {
        lemma_blank_split(lines, n - 1);
        assert(lines[n - 1].kind == LineKind::Blank);
        assert(lines.take(n - 1) + seq![lines[n - 1]] =~= lines.take(n));
    } else {
        assert(lines.take(0) =~= Seq::empty());
    }
}

proof fn lemma_no_region(lines: Seq<LineText>, i: int)
    requires
        0 <= i <= lines.len(),
        forall|r: int| 0 <= r < lines.len() ==> (#[trigger] lines[r]).text.len() == 0,
    ensures
        region_start(lines, i) == lines.len(),
    decreases lines.len() - i,
{
    if i < lines.len() {
        assert(lines[i].text.len() == 0);
        crate::words::lemma_no_words(lines[i].text);
        lemma_no_region(lines, i + 1);
    }
}

/// What is known of a comment without text as it is read again.
proof fn lemma_empty_again(
    d: CommentText,
    kind: Kind,
    lang: Language,
    limit: usize,
    rows: Seq<Seq<char>>,
    crlf: bool,
    brk: Seq<char>,
)
    requires
        rows.len() > 0,
        rows.last().len() > 0,
        is_break(brk),
        d.text == joined(rows, eol_of(crlf)) + brk,
        d.page(kind, lang, limit) is None,
        forall|r: int|
            0 <= r < rows.len() ==> unbroken(#[trigger] rows[r]) && line_stripped(
                rows[r],
                kind.style,
                r == 0,
                r == rows.len() - 1,
            ).1.len() == 0,
    ensures
        ({
            let again = d.normalized(kind, lang, limit);
            &&& without_text(again)
            &&& again.lines.len() == rows.len()
            &&& joined(rows, again.ending()) == joined(rows, eol_of(crlf))
            &&& again.indent == d.line_indent_bytes
            &&& again.style == kind.style
            &&& again.line_marker == line_marker_of(d.text)
            &&& again.block_opener_marker == block_marker_of(d.text)
            &&& again.is_file_header == d.header_form(kind, false)
        }),
{
    reveal(CommentText::normalized);
    let again = d.normalized(kind, lang, limit);
    lemma_blank_rows(d, kind, limit, rows, crlf, brk);
    lemma_blank_final(d.body(kind, limit));
    assert(again.lines == d.body(kind, limit));
    lemma_joined_again(again, rows, crlf);
}

/// The marker of a line comment is found again at the end of a line.
proof fn lemma_marker_ended(m: Seq<char>, brk: Seq<char>)
    requires
        plain_marker(m),
        is_break(brk),
    ensures
        line_marker_of(m + brk) == Some(m),
{
    reveal_strlit("///");
    reveal_strlit("//!");
    reveal_strlit("//");
    reveal_strlit("#!");
    reveal_strlit("\n");
    reveal_strlit("\r\n");
    lemma_marker_alone(m);
    let t = m + brk;
    let n = m.len() as int;
    if brk.len() == 0 {
        assert(t =~= m);
    } else {
        assert(t[n] == '\n' || t[n] == '\r');
        assert forall|p: Seq<char>|
            (p == "///"@ || p == "//!"@ || p == "//"@ || p == "#!"@) implies #[trigger] has_prefix(
            t,
            p,
        ) == has_prefix(m, p) by {
            if has_prefix(t, p) {
                assert(t.subrange(0, p.len() as int) == p);
                if n < p.len() {
                    assert(t.subrange(0, p.len() as int)[n] == t[n]);
                }
                assert(m.subrange(0, p.len() as int) =~= p);
            }
            if has_prefix(m, p) {
                assert(t.subrange(0, p.len() as int) =~= m.subrange(0, p.len() as int));
            }
        }
        assert(has_prefix(t, "///"@) == has_prefix(m, "///"@));
        assert(has_prefix(t, "//!"@) == has_prefix(m, "//!"@));
        assert(has_prefix(t, "//"@) == has_prefix(m, "//"@));
        assert(has_prefix(t, "#!"@) == has_prefix(m, "#!"@));
        if crate::text::leads_with(m, CharClass::One('#')) && !has_prefix(m, "#!"@) {
            crate::text::lemma_lead_len_facts(m, CharClass::One('#'));
            let k = crate::text::lead_len(m, CharClass::One('#')) as int;
            assert(crate::text::lead_run(m, CharClass::One('#')).len() == k);
            assert(k == n);
            assert forall|i: int| 0 <= i < n implies in_class(
                #[trigger] t[i],
                CharClass::One('#'),
            ) by {
                assert(t[i] == m[i]);
            }
            lemma_lead_len(t, CharClass::One('#'), n);
            assert(crate::text::lead_run(t, CharClass::One('#')) =~= m);
        }
    }
}

/// A line comment without text is emitted as its marker.
proof fn lemma_empty_line(doc: DocText, marker: Seq<char>, limit: usize, tab_width: usize)
    requires
        doc.style == Style::Line || doc.style == Style::DocLine,
        doc.line_marker == Some(marker),
        plain_marker(marker),
        all_in(doc.indent, CharClass::Blank),
        without_text(doc),
    ensures
        comment_lines(doc, limit, tab_width) == seq![marker],
{
    lemma_blank_tail(doc.lines, 0, false);
    lemma_line_prefix(doc, marker);
    assert(doc.lines[0].kind == LineKind::Blank);
    let bare = bare_prefix(doc.prefix());
    assert(bare.subrange(0, doc.indent.len() as int) =~= doc.indent);
    assert(bare.skip(doc.indent.len() as int) =~= marker);
    assert(comment_lines(doc, limit, tab_width) =~= seq![marker]);
}

/// The text ends in no line break.
pub open spec fn ends_well(text: Seq<char>) -> bool {
    text.len() > 0 && text.last() != '\n' && text.last() != '\r'
}

proof fn lemma_rows_end(rows: Seq<Seq<char>>, sep: Seq<char>)
    requires
        rows.len() > 0,
        rows.last().len() > 0,
        unbroken(rows.last()),
    ensures
        ends_well(joined(rows, sep)),
{
    let last = rows.last();
    crate::rows::lemma_joined_last(rows, sep);
    assert(in_class(last[last.len() - 1], CharClass::NotOne('\n')));
}

/// A line comment without text settles.
proof fn lemma_empty_line_settles(
    c: CommentText,
    brk: Seq<char>,
    lang: Language,
    limit: usize,
    tab_width: usize,
)
    requires
        stands_in_source(c),
        is_break(brk),
        !is_block(style_of(c.text)),
        without_text(first_doc(c, lang, limit)),
        !is_page(c, lang, limit),
    ensures
        ({
            let d = after_first(c, brk, lang, limit, tab_width);
            &&& kind_of(d.text, lang) == kind_of(c.text, lang)
            &&& emitted(d, lang, limit, tab_width) == emitted(c, lang, limit, tab_width)
        }),
        ends_well(emitted(c, lang, limit, tab_width)),
{
    reveal(reflowed);
    reveal(CommentText::normalized);
    let kind = kind_of(c.text, lang);
    let doc = first_doc(c, lang, limit);
    let d = after_first(c, brk, lang, limit, tab_width);
    let marker = line_marker_of(c.text)->0;
    lemma_first_facts(c, brk, lang, limit, tab_width);
    lemma_plain_marker(c.text);
    lemma_marker_style(c.text);
    lemma_empty_line(doc, marker, limit, tab_width);
    let rows = seq![marker];
    assert(joined(rows, doc.ending()) =~= marker);
    assert(joined(rows, eol_of(false)) =~= marker);
    assert(d.text == marker + brk);
    lemma_marker_ended(marker, brk);
    lemma_marker_style(d.text);
    assert(kind_of(d.text, lang) == kind);
    lemma_bare_marker(Seq::empty(), marker);
    assert(Seq::<char>::empty() + marker =~= marker);
    let indented = DocText { indent: Seq::empty(), ..doc };
    lemma_line_prefix(indented, marker);
    assert(Seq::<char>::empty() + marker =~= marker);
    assert(unbroken(marker) && marker.len() > 0);
    lemma_rows_end(rows, doc.ending());
    lemma_empty_again(d, kind, lang, limit, rows, false, brk);
    let again = d.normalized(kind, lang, limit);
    lemma_empty_line(again, marker, limit, tab_width);
    assert(joined(rows, again.ending()) =~= marker);
}

/// A block without text settles.
#[verifier::spinoff_prover]
proof fn lemma_empty_block_settles(
    c: CommentText,
    lang: Language,
    limit: usize,
    tab_width: usize,
)
    requires
        stands_in_source(c),
        is_block(style_of(c.text)),
        without_text(first_doc(c, lang, limit)),
        !is_page(c, lang, limit),
        !is_page(after_first(c, Seq::empty(), lang, limit, tab_width), lang, limit),
        style_of(c.text) == Style::DocBlock && !first_doc(c, lang, limit).is_file_header
            ==> on_one_row(
            first_doc(c, lang, limit),
            block_marker_of(c.text)->0,
            limit,
            tab_width,
        ),
    ensures
        ({
            let d = after_first(c, Seq::empty(), lang, limit, tab_width);
            &&& kind_of(d.text, lang) == kind_of(c.text, lang)
            &&& emitted(d, lang, limit, tab_width) == emitted(c, lang, limit, tab_width)
        }),
        ends_well(emitted(c, lang, limit, tab_width)),
{
    let none = Seq::<char>::empty();
    let kind = kind_of(c.text, lang);
    let doc = first_doc(c, lang, limit);
    let d = after_first(c, none, lang, limit, tab_width);
    let m = block_marker_of(c.text)->0;
    let one = on_one_row(doc, m, limit, tab_width);
    let rows = empty_rows(doc, m, one);
    lemma_first_facts(c, none, lang, limit, tab_width);
    lemma_opener_style(c.text);
    lemma_continues_behind_star(c, kind, lang, limit);
    lemma_continues_behind_star(d, kind, lang, limit);
    lemma_empty_block(doc, m, limit, tab_width);
    let crlf = lemma_ending(c, lang, limit);
    assert(emitted(c, lang, limit, tab_width) == joined(rows, eol_of(crlf))) by {
        reveal(reflowed);
    }
    assert(d.text =~= joined(rows, eol_of(crlf)) + none);
    assert forall|r: int| 0 <= r < rows.len() implies unbroken(#[trigger] rows[r])
        && rows[r].len() > 0 && line_stripped(
        rows[r],
        kind.style,
        r == 0,
        r == rows.len() - 1,
    ).1.len() == 0 by {
        lemma_empty_rows(doc, m, one, r);
    }
    assert(unbroken(rows[rows.len() - 1]));
    lemma_rows_end(rows, eol_of(crlf));
    lemma_opens_again(doc, d, m, one, crlf);
    lemma_empty_again(d, kind, lang, limit, rows, crlf, none);
    let again = d.normalized(kind, lang, limit);
    assert(again.is_file_header == doc.is_file_header) by {
        reveal(CommentText::normalized);
    }
    lemma_same_rows(doc, again, m, limit, tab_width);
    assert(emitted(d, lang, limit, tab_width) == joined(rows, again.ending())) by {
        reveal(reflowed);
    }
}

/// A block without text that is read from its rows is laid out as these.
proof fn lemma_same_rows(
    doc: DocText,
    again: DocText,
    m: Seq<char>,
    limit: usize,
    tab_width: usize,
)
    requires
        is_block(again.style),
        again.default_continuation_prefix == " * "@,
        all_in(again.indent, CharClass::Blank),
        block_opener(m, again.style),
        again.block_opener_marker == Some(m),
        without_text(again),
        again.indent == doc.indent,
        again.is_file_header == doc.is_file_header,
        again.lines.len() == empty_rows(doc, m, on_one_row(doc, m, limit, tab_width)).len(),
    ensures
        comment_lines(again, limit, tab_width) == empty_rows(
            doc,
            m,
            on_one_row(doc, m, limit, tab_width),
        ),
{
    lemma_empty_block(again, m, limit, tab_width);
}

/// The opener of a block without text is found again, where it stood.
proof fn lemma_opens_again(doc: DocText, d: CommentText, m: Seq<char>, one: bool, crlf: bool)
    requires
        block_opener(m, doc.style),
        is_block(doc.style),
        doc.default_continuation_prefix == " * "@,
        all_in(doc.indent, CharClass::Blank),
        d.text == joined(empty_rows(doc, m, one), eol_of(crlf)),
        doc.style == Style::DocBlock && !doc.is_file_header ==> one,
    ensures
        block_marker_of(d.text) == Some(m),
        style_of(d.text) == doc.style,
        doc.style == Style::DocBlock ==> d.opener_alone() == Some(doc.is_file_header),
{
    reveal_strlit("\n");
    reveal_strlit("\r\n");
    reveal_strlit(" */");
    reveal_strlit("/*");
    reveal_strlit("/**");
    reveal_strlit("/*!");
    reveal_strlit("/*-");
    let rows = empty_rows(doc, m, one);
    lemma_empty_rows(doc, m, one, 0);
    let n = m.len() as int;
    let tail = if rows.len() == 1 {
        assert(d.text =~= rows[0]);
        " */"@
    } else {
        let rest = lemma_joined_front(rows, eol_of(crlf));
        eol_of(crlf) + rest
    };
    assert(d.text =~= m + tail);
    lemma_opener_found(m, doc.style, tail);
    if doc.style == Style::DocBlock {
        lemma_first_row_read(rows, crlf);
        if rows.len() == 1 {
            assert(rows[0].subrange(0, n) =~= m);
        }
        lemma_alone(d, m, rows[0]);
    }
}

/// Output is stable where a comment has no text: a second pass emits the same
/// again. A documentation block whose opener shares its first line with decoration
/// is left out where opener and closer do not fit on one row: the opener stands
/// alone then, which makes the block a header.
pub proof fn law_empty_comment_settles(
    c: CommentText,
    brk: Seq<char>,
    lang: Language,
    limit: usize,
    tab_width: usize,
)
    requires
        stands_in_source(c),
        settles_as_empty(c, brk, lang, limit, tab_width),
    ensures
        ({
            let d = after_first(c, brk, lang, limit, tab_width);
            &&& kind_of(d.text, lang) == kind_of(c.text, lang)
            &&& emitted(d, lang, limit, tab_width) == emitted(c, lang, limit, tab_width)
        }),
        ends_well(emitted(c, lang, limit, tab_width)),
{
    if is_block(style_of(c.text)) {
        assert(brk =~= Seq::empty());
        lemma_empty_block_settles(c, lang, limit, tab_width);
    } else {
        lemma_empty_line_settles(c, brk, lang, limit, tab_width);
    }
}

/// The comment has no text, is no manual page and reads as none when it is
/// emitted, and has an opener that stands as it stood.
pub open spec fn settles_as_empty(
    c: CommentText,
    brk: Seq<char>,
    lang: Language,
    limit: usize,
    tab_width: usize,
) -> bool {
    let doc = first_doc(c, lang, limit);
    &&& is_break(brk)
    &&& is_block(style_of(c.text)) ==> brk.len() == 0
    &&& without_text(doc)
    &&& !is_page(c, lang, limit)
    &&& !is_page(after_first(c, brk, lang, limit, tab_width), lang, limit)
    &&& style_of(c.text) == Style::DocBlock && !doc.is_file_header ==> on_one_row(
        doc,
        block_marker_of(c.text)->0,
        limit,
        tab_width,
    )
}

} // verus!
