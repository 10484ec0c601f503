//! A second pass over a block comment changes nothing.

use crate::classify::{Kind, Style};
use crate::comment::CommentText;
use crate::language::Language;
use crate::laws::law_star_markers_settle;
use crate::normalize::{
    block_marker_of, line_stripped, preformatted, source_lines, DocText, LineKind, ParagraphKind,
    ParagraphText,
};
use crate::reflow::{
    bare_prefix, behind_opener, block_lines, comment_lines, content_of, inline_first, is_block,
    nothing_inside, raw_line, raw_lines, reflowed, stars_collapsed, with_closer,
};
use crate::rows::{
    block_opener, eol_of, lemma_joined_opens, lemma_no_closer, lemma_only_row, lemma_opener_found,
    lemma_opener_row, lemma_source_lines, lemma_star_row, opener_ends, unbroken,
};
use crate::second_pass::{
    lemma_first_laid, lemma_line_at, lemma_line_of, proper_stretch, start_of, text_read, Stretch,
};
use crate::settling::{
    closes, doc_lines, doc_room, doc_stretches, keeps_bodies, prose_read, reads_again, row_goes_out,
    row_stands, sound_stretch, sound_stretches,
};
use crate::text::{
    after_lead, all_in, has_prefix, has_suffix, in_class, is_white, joined, lead_len,
    lemma_lead_len, lemma_lead_len_facts, lemma_trail_len, lemma_trail_len_facts, trail_len,
    trimmed, trimmed_end, trimmed_start, CharClass,
};
use crate::width::{clamped, columns};
use vstd::prelude::*;

verus! {

/// The rows of a block: its opener with the first text `y` or alone, its other
/// lines, and the closer, unless the last line has it.
pub open spec fn framed(
    doc: DocText,
    m: Seq<char>,
    y: Seq<char>,
    body: Seq<Seq<char>>,
    one_row: bool,
) -> Seq<Seq<char>> {
    let closer = if closes(body.last()) {
        Seq::empty()
    } else {
        seq![doc.indent + " */"@]
    };
    if doc.is_file_header {
        seq![m] + body + closer
    } else if one_row {
        seq![m + " "@ + y + " */"@]
    } else {
        seq![m + " "@ + y] + body.skip(1) + closer
    }
}

/// The block fits on one row.
pub open spec fn fits_one_row(
    doc: DocText,
    m: Seq<char>,
    y: Seq<char>,
    body: Seq<Seq<char>>,
    limit: usize,
    tab_width: usize,
) -> bool {
    body.len() == 1 && !closes(body[0]) && clamped(
        columns(doc.indent + (m + " "@ + y + " */"@), tab_width as nat),
    ) <= limit
}

/// The line can share its row with the opener: it holds text, does not open a
/// block itself, and where it closes the block its text does.
pub open spec fn shares_row(doc: DocText, line: Seq<char>) -> bool {
    &&& trimmed_end(content_of(line, doc.prefix(), doc.default_continuation_prefix)).len() > 0
    &&& !has_prefix(after_lead(line, CharClass::Blank), doc.opener())
    &&& closes(line) ==> has_suffix(shared_text(doc, line), "*/"@)
}

/// The text that shares its row with the opener.
pub open spec fn shared_text(doc: DocText, line: Seq<char>) -> Seq<char> {
    trimmed_end(content_of(line, doc.prefix(), doc.default_continuation_prefix))
}

pub proof fn lemma_trimmed_end(s: Seq<char>)
    ensures
        trimmed_end(s).len() <= s.len(),
        trimmed_end(s) == s.take(trimmed_end(s).len() as int),
        trimmed_end(s).len() > 0 ==> !is_white(trimmed_end(s).last()),
        s.len() > 0 && !is_white(s.last()) ==> trimmed_end(s) == s,
        trimmed_end(trimmed_end(s)) == trimmed_end(s),
{
    lemma_trail_len_facts(s, CharClass::White);
    let t = trimmed_end(s);
    if t.len() > 0 {
        assert(t.last() == s[t.len() - 1]);
        lemma_trail_len(t, CharClass::White, 0);
        assert(trimmed_end(t) =~= t);
    } else {
        lemma_trail_len(t, CharClass::White, 0);
        assert(trimmed_end(t) =~= t);
    }
    if s.len() > 0 && !is_white(s.last()) {
        lemma_trail_len(s, CharClass::White, 0);
        assert(t =~= s);
    }
}

/// Trimming the end of a text behind another one.
pub proof fn lemma_trimmed_behind(a: Seq<char>, b: Seq<char>)
    requires
        trimmed_end(b).len() > 0,
    ensures
        trimmed_end(a + b) == a + trimmed_end(b),
{
    lemma_trail_len_facts(b, CharClass::White);
    let n = trail_len(b, CharClass::White) as int;
    let s = a + b;
    assert forall|i: int| s.len() - n <= i < s.len() implies in_class(
        #[trigger] s[i],
        CharClass::White,
    ) by {
        assert(s[i] == b[i - a.len()]);
    }
    assert(s[s.len() - n - 1] == b[b.len() - n - 1]);
    lemma_trail_len(s, CharClass::White, n);
    assert(trimmed_end(s) =~= a + trimmed_end(b));
}

/// The content of a line is what it ends with.
proof fn lemma_content(line: Seq<char>, full: Seq<char>, cont: Seq<char>) -> (n: int)
    ensures
        0 <= n <= line.len(),
        content_of(line, full, cont) == line.skip(n),
{
    let y = content_of(line, full, cont);
    let short = trimmed_end(cont);
    if has_prefix(line, full) {
        full.len() as int
    } else if has_prefix(line, short) {
        let r = line.skip(short.len() as int);
        let n = if has_prefix(r, " "@) {
            (short.len() + " "@.len()) as int
        } else {
            short.len() as int
        };
        assert(y =~= line.skip(n));
        n
    } else {
        lemma_lead_len_facts(line, CharClass::Blank);
        let a = after_lead(line, CharClass::Blank);
        lemma_lead_len_facts(a, CharClass::One('*'));
        let b = after_lead(a, CharClass::One('*'));
        let k = lead_len(line, CharClass::Blank) + lead_len(a, CharClass::One('*'));
        assert(b =~= line.skip(k as int));
        let n = if has_prefix(b, " "@) {
            (k + " "@.len()) as int
        } else {
            k as int
        };
        assert(y =~= line.skip(n));
        n
    }
}

/// A text that ends in a closer passes it on to what it ends.
proof fn lemma_closer_passes(line: Seq<char>, n: int)
    requires
        0 <= n <= line.len(),
        trimmed_end(line.skip(n)).len() > 0,
        has_suffix(trimmed_end(line.skip(n)), "*/"@),
    ensures
        has_suffix(trimmed_end(line), "*/"@),
{
    let b = line.skip(n);
    let a = line.take(n);
    assert(line =~= a + b);
    lemma_trimmed_behind(a, b);
    let t = trimmed_end(b);
    let s = a + t;
    assert(s.subrange(s.len() - "*/"@.len(), s.len() as int) =~= t.subrange(
        t.len() - "*/"@.len(),
        t.len() as int,
    ));
}

/// A text that ends in a closer still does when white space behind it is
/// trimmed.
proof fn lemma_closer_trimmed(s: Seq<char>)
    requires
        has_suffix(s, "*/"@),
    ensures
        has_suffix(trimmed_end(s), "*/"@),
{
    reveal_strlit("*/");
    assert(s.subrange(s.len() - 2, s.len() as int)[1] == '/');
    lemma_trimmed_end(s);
}

/// The first line of a block without its blanks ends as it does.
proof fn lemma_blanks_keep_end(s: Seq<char>)
    requires
        has_suffix(after_lead(s, CharClass::Blank), "*/"@),
    ensures
        has_suffix(s, "*/"@),
{
    lemma_lead_len_facts(s, CharClass::Blank);
    let n = lead_len(s, CharClass::Blank) as int;
    let t = s.skip(n);
    assert(s.subrange(s.len() - "*/"@.len(), s.len() as int) =~= t.subrange(
        t.len() - "*/"@.len(),
        t.len() as int,
    ));
}

/// The lines of a body close the block at most with the last one.
pub open spec fn open_body(body: Seq<Seq<char>>) -> bool {
    forall|k: int|
        0 <= k < body.len() && closes(#[trigger] body[k]) ==> k == body.len() - 1 && has_suffix(
            body[k],
            "*/"@,
        )
}

proof fn lemma_with_closer(lines: Seq<Seq<char>>, doc: DocText)
    requires
        lines.len() > 0,
    ensures
        with_closer(lines, doc) == lines + if closes(lines.last()) {
            Seq::empty()
        } else {
            seq![doc.indent + " */"@]
        },
{
    assert(lines + Seq::<Seq<char>>::empty() =~= lines);
    assert(lines + seq![doc.indent + " */"@] =~= lines.push(doc.indent + " */"@));
}

/// The text that shares the opener's row closes the block when its line does.
proof fn lemma_shared_closes(doc: DocText, m: Seq<char>, line: Seq<char>)
    requires
        shares_row(doc, line),
    ensures
        closes(m + " "@ + shared_text(doc, line)) == closes(line),
        has_suffix(shared_text(doc, line), "*/"@) == closes(line),
{
    reveal_strlit(" ");
    reveal_strlit("*/");
    let full = content_of(line, doc.prefix(), doc.default_continuation_prefix);
    let y = shared_text(doc, line);
    let n = lemma_content(line, doc.prefix(), doc.default_continuation_prefix);
    lemma_trimmed_end(full);
    let head = m + " "@ + y;
    lemma_trimmed_end(head);
    assert(head.last() == y.last());
    if has_suffix(y, "*/"@) {
        lemma_closer_passes(line, n);
        assert(head.subrange(head.len() - 2, head.len() as int) =~= y.subrange(
            y.len() - 2,
            y.len() as int,
        ));
    } else {
        lemma_no_closer(m + " "@, y);
    }
}

/// A block is framed by its opener and closer.
pub proof fn lemma_framed(
    doc: DocText,
    m: Seq<char>,
    body: Seq<Seq<char>>,
    limit: usize,
    tab_width: usize,
)
    requires
        block_opener(m, doc.style),
        doc.opener() == m,
        body.len() > 0,
        open_body(body),
        !doc.is_file_header ==> shares_row(doc, body[0]),
    ensures
        ({
            let y = shared_text(doc, body[0]);
            block_lines(doc, body, limit, tab_width) == framed(
                doc,
                m,
                y,
                body,
                fits_one_row(doc, m, y, body, limit, tab_width),
            )
        }),
{
    let y = shared_text(doc, body[0]);
    if doc.is_file_header {
        let all = seq![doc.opener()] + body;
        assert(all.last() == body[body.len() - 1]);
        lemma_with_closer(all, doc);
    } else {
        let full = content_of(body[0], doc.prefix(), doc.default_continuation_prefix);
        lemma_trimmed_end(full);
        assert(full.len() > 0);
        assert(!nothing_inside(body, doc));
        let first = after_lead(body[0], CharClass::Blank);
        assert(has_suffix(first, "*/"@) == closes(body[0])) by {
            if has_suffix(first, "*/"@) {
                lemma_blanks_keep_end(body[0]);
                lemma_closer_trimmed(body[0]);
            } else if closes(body[0]) {
                lemma_end_behind_blanks(body[0]);
            }
        }
        lemma_trimmed_behind(m + " "@, full);
        let head = inline_first(body[0], doc);
        assert(head == m + " "@ + y);
        lemma_shared_closes(doc, m, body[0]);
        let all = seq![head] + body.skip(1);
        if body.len() == 1 {
            assert(all.last() == head);
            assert(all + Seq::<Seq<char>>::empty() =~= all);
        } else {
            assert(all.last() == body[body.len() - 1]);
            assert(!closes(body[0]));
        }
        lemma_with_closer(all, doc);
    }
}

/// A closer at the end of a line is behind its blanks.
proof fn lemma_end_behind_blanks(s: Seq<char>)
    requires
        has_suffix(s, "*/"@),
    ensures
        has_suffix(after_lead(s, CharClass::Blank), "*/"@),
{
    reveal_strlit("*/");
    let n = lead_len(s, CharClass::Blank) as int;
    lemma_lead_len_facts(s, CharClass::Blank);
    let e = s.subrange(s.len() - 2, s.len() as int);
    assert(e[0] == '*' && e[1] == '/');
    assert(n <= s.len() - 2) by {
        if n > s.len() - 2 {
            assert(in_class(s[s.len() - 2], CharClass::Blank));
        }
    }
    let t = after_lead(s, CharClass::Blank);
    assert(t.subrange(t.len() - 2, t.len() as int) =~= e);
}

/// The comment is a block, and its text is what its stretches are laid out as.
pub open spec fn block_emitted(
    doc: DocText,
    d: CommentText,
    m: Seq<char>,
    crlf: bool,
    limit: usize,
    tab_width: usize,
) -> bool {
    let body = doc_lines(doc, limit, tab_width);
    let y = shared_text(doc, body[0]);
    &&& is_block(doc.style)
    &&& block_opener(m, doc.style)
    &&& doc.block_opener_marker == Some(m)
    &&& doc.default_continuation_prefix == " * "@
    &&& all_in(doc.indent, CharClass::Blank)
    &&& d.line_indent_bytes == doc.indent
    &&& sound_stretches(doc_stretches(doc, limit, tab_width), doc.style)
    &&& !doc.is_file_header ==> shares_row(doc, body[0])
    &&& d.text == joined(
        framed(doc, m, y, body, fits_one_row(doc, m, y, body, limit, tab_width)),
        eol_of(crlf),
    )
}

pub proof fn lemma_star_facts(doc: DocText)
    requires
        is_block(doc.style),
        doc.default_continuation_prefix == " * "@,
        all_in(doc.indent, CharClass::Blank),
    ensures
        doc.prefix() == doc.indent + " * "@,
        all_in(doc.prefix(), CharClass::NotOne('\n')),
        bare_prefix(doc.prefix()) == doc.indent + " *"@,
        unbroken(bare_prefix(doc.prefix())),
        unbroken(doc.indent + " */"@),
        bare_prefix(doc.prefix()) != doc.prefix(),
{
    reveal_strlit(" ");
    reveal_strlit(" *");
    reveal_strlit(" * ");
    reveal_strlit(" */");
    crate::settling::lemma_blanks_unbroken(doc.indent);
    assert(all_in(" * "@, CharClass::NotOne('\n')));
    assert(all_in(" *"@, CharClass::NotOne('\n')));
    assert(all_in(" */"@, CharClass::NotOne('\n')));
    crate::settling::lemma_concat_unbroken(doc.indent, " * "@);
    crate::settling::lemma_concat_unbroken(doc.indent, " *"@);
    crate::settling::lemma_concat_unbroken(doc.indent, " */"@);
    let a = doc.indent + " *"@;
    assert(doc.indent + " * "@ =~= a + " "@);
    crate::settling::lemma_bare(a);
}

proof fn lemma_part_unbroken(l: Seq<char>, a: int, b: int)
    requires
        all_in(l, CharClass::NotOne('\n')),
        0 <= a <= b <= l.len(),
    ensures
        all_in(l.subrange(a, b), CharClass::NotOne('\n')),
{
    let t = l.subrange(a, b);
    assert forall|i: int| 0 <= i < t.len() implies in_class(
        #[trigger] t[i],
        CharClass::NotOne('\n'),
    ) by {
        assert(t[i] == l[a + i]);
        assert(in_class(l[a + i], CharClass::NotOne('\n')));
    }
}

/// The text that shares the opener's row holds no break.
proof fn lemma_shared(doc: DocText, line: Seq<char>)
    requires
        unbroken(line),
        trimmed_end(content_of(line, doc.prefix(), doc.default_continuation_prefix)).len() > 0,
    ensures
        all_in(shared_text(doc, line), CharClass::NotOne('\n')),
        shared_text(doc, line).len() > 0,
        !is_white(shared_text(doc, line).last()),
{
    let n = lemma_content(line, doc.prefix(), doc.default_continuation_prefix);
    let c = line.skip(n);
    let y = shared_text(doc, line);
    lemma_trimmed_end(c);
    assert(y =~= line.subrange(n, n + y.len()));
    lemma_part_unbroken(line, n, n + y.len());
}

pub proof fn lemma_opener_unbroken(m: Seq<char>, style: Style, y: Seq<char>)
    requires
        block_opener(m, style),
        all_in(y, CharClass::NotOne('\n')),
        y.len() > 0,
        !is_white(y.last()),
    ensures
        unbroken(m),
        m.len() > 0,
        unbroken(m + " "@ + y),
        unbroken(m + " "@ + y + " */"@),
{
    reveal_strlit("/*");
    reveal_strlit("/**");
    reveal_strlit("/*!");
    reveal_strlit("/*-");
    reveal_strlit(" ");
    reveal_strlit(" */");
    assert(all_in(m, CharClass::NotOne('\n')));
    assert(all_in(" "@, CharClass::NotOne('\n')));
    assert(all_in(" */"@, CharClass::NotOne('\n')));
    crate::settling::lemma_concat_unbroken(m, " "@);
    crate::settling::lemma_concat_unbroken(m + " "@, y);
    crate::settling::lemma_concat_unbroken(m + " "@ + y, " */"@);
    assert((m + " "@ + y).last() == y.last());
    assert((m + " "@ + y + " */"@).last() == '/');
}

/// The number of the row that the body starts at.
pub open spec fn first_row(doc: DocText) -> int {
    if doc.is_file_header {
        1
    } else {
        0
    }
}

/// No line of a block closes it but the last, and a first line of prose can share
/// its row with the opener.
pub proof fn lemma_lines_stay_open(doc: DocText, limit: usize, tab_width: usize)
    requires
        is_block(doc.style),
        doc.default_continuation_prefix == " * "@,
        all_in(doc.indent, CharClass::Blank),
        doc.block_opener_marker is Some,
        block_opener(doc.block_opener_marker->0, doc.style),
        sound_stretches(doc_stretches(doc, limit, tab_width), doc.style),
    ensures
        ({
            let st = doc_stretches(doc, limit, tab_width);
            let body = doc_lines(doc, limit, tab_width);
            &&& body.len() > 0
            &&& body[0] == st[0].lines[0]
            &&& forall|k: int| 0 <= k < body.len() ==> unbroken(#[trigger] body[k])
            &&& open_body(body)
            &&& closes(body.last()) ==> st.last().kind == ParagraphKind::Preformatted
            &&& st[0].kind == ParagraphKind::Prose ==> shares_row(doc, body[0])
        }),
{
    let st = doc_stretches(doc, limit, tab_width);
    let prefix = doc.prefix();
    let body = doc_lines(doc, limit, tab_width);
    lemma_star_facts(doc);
    assert(sound_stretch(st[0], doc.style));
    lemma_first_laid(st, st.len() as int, prefix);
    assert forall|k: int| 0 <= k < body.len() implies unbroken(#[trigger] body[k]) by {
        crate::settling::lemma_lines_unbroken(doc, limit, tab_width, k);
    }
    assert forall|k: int| 0 <= k < body.len() && closes(#[trigger] body[k]) implies k == body.len()
        - 1 && has_suffix(body[k], "*/"@) && st.last().kind == ParagraphKind::Preformatted by {
        if body[k] != bare_prefix(prefix) {
            let (i, j) = lemma_line_of(st, st.len() as int, k, prefix);
            assert(closes(st[i].lines[j]));
        } else {
            reveal_strlit("*/");
            reveal_strlit(" *");
            let b = bare_prefix(prefix);
            assert(b.last() == '*');
            lemma_trimmed_end(b);
            assert(b.subrange(b.len() - 2, b.len() as int)[1] == '/');
        }
    }
    if st[0].kind == ParagraphKind::Prose {
        let m = doc.block_opener_marker->0;
        let effective = doc_room(doc, limit, tab_width);
        crate::settling::lemma_stretch_of(doc, limit, tab_width, 0);
        crate::settling::lemma_prose_line(doc, st[0], prefix, effective, true, 0);
        let x = body[0].skip(prefix.len() as int);
        assert(x.last() == body[0].last());
        lemma_trimmed_end(x);
        assert(body[0].subrange(0, prefix.len() as int) == prefix);
        assert(body[0] =~= doc.indent + " * "@ + x);
        lemma_star_lead(doc.indent, x);
        lemma_opener_found(m, doc.style, seq![' ']);
        let t = after_lead(body[0], CharClass::Blank);
        if has_prefix(t, m) {
            assert(t.subrange(0, m.len() as int)[0] == m[0]);
        }
        if closes(body[0]) {
            assert(closes(st[0].lines[0]));
        }
    }
}

/// What is known of the first line of a block.
proof fn lemma_block_first(
    doc: DocText,
    d: CommentText,
    m: Seq<char>,
    crlf: bool,
    limit: usize,
    tab_width: usize,
)
    requires
        block_emitted(doc, d, m, crlf, limit, tab_width),
    ensures
        ({
            let body = doc_lines(doc, limit, tab_width);
            let y = shared_text(doc, body[0]);
            &&& body.len() > 0
            &&& body[0] == doc_stretches(doc, limit, tab_width)[0].lines[0]
            &&& forall|k: int| 0 <= k < body.len() ==> unbroken(#[trigger] body[k])
            &&& open_body(body)
            &&& closes(body.last()) ==> doc_stretches(doc, limit, tab_width).last().kind
                == ParagraphKind::Preformatted
            &&& !doc.is_file_header ==> all_in(y, CharClass::NotOne('\n')) && y.len() > 0
                && !is_white(y.last()) && has_suffix(y, "*/"@) == closes(body[0])
        }),
{
    lemma_lines_stay_open(doc, limit, tab_width);
    if !doc.is_file_header {
        lemma_shared(doc, doc_lines(doc, limit, tab_width)[0]);
        lemma_shared_closes(doc, m, doc_lines(doc, limit, tab_width)[0]);
    }
}

/// The last row of a block ends in its closer.
proof fn lemma_last_row(
    doc: DocText,
    m: Seq<char>,
    y: Seq<char>,
    body: Seq<Seq<char>>,
    one: bool,
)
    requires
        body.len() > 0,
        open_body(body),
        closes(body.last()) ==> !one,
        !doc.is_file_header ==> y.len() > 0 && has_suffix(y, "*/"@) == closes(body[0]),
    ensures
        framed(doc, m, y, body, one).len() > 0,
        framed(doc, m, y, body, one).last().len() > 0,
        framed(doc, m, y, body, one).last().last() == '/',
{
    reveal_strlit(" */");
    reveal_strlit("*/");
    let rows = framed(doc, m, y, body, one);
    let n = body.len() - 1;
    if closes(body[n]) {
        let last = if n == 0 && !doc.is_file_header {
            y
        } else {
            body[n]
        };
        assert(has_suffix(last, "*/"@));
        assert(last.subrange(last.len() - 2, last.len() as int)[1] == '/');
        assert(rows.last().last() == last.last()) by {
            if n > 0 && !doc.is_file_header {
                assert(body.skip(1).last() == body[n]);
            }
        }
    } else {
        assert(rows.last().last() == '/');
    }
}

/// The rows of an emitted block.
pub proof fn lemma_block_rows(
    doc: DocText,
    d: CommentText,
    m: Seq<char>,
    crlf: bool,
    limit: usize,
    tab_width: usize,
)
    requires
        block_emitted(doc, d, m, crlf, limit, tab_width),
    ensures
        ({
            let body = doc_lines(doc, limit, tab_width);
            let y = shared_text(doc, body[0]);
            let one = fits_one_row(doc, m, y, body, limit, tab_width);
            let rows = framed(doc, m, y, body, one);
            let raw = source_lines(d.text);
            &&& raw.len() == rows.len()
            &&& forall|k: int|
                0 <= k < rows.len() ==> (#[trigger] raw[k]).body == rows[k] && raw[k].had_crlf == (
                crlf && k < rows.len() - 1)
        }),
{
    reveal_strlit(" */");
    let body = doc_lines(doc, limit, tab_width);
    let y = shared_text(doc, body[0]);
    let one = fits_one_row(doc, m, y, body, limit, tab_width);
    let rows = framed(doc, m, y, body, one);
    lemma_star_facts(doc);
    lemma_block_first(doc, d, m, crlf, limit, tab_width);
    let some = if doc.is_file_header {
        seq!['x']
    } else {
        y
    };
    assert(!is_white('x'));
    lemma_opener_unbroken(m, doc.style, some);
    assert forall|k: int| 0 <= k < rows.len() implies unbroken(#[trigger] rows[k]) by {
        if doc.is_file_header {
            if 0 < k <= body.len() {
                assert(rows[k] == body[k - 1]);
            }
        } else if !one && 0 < k < body.len() {
            assert(rows[k] == body[k]);
        }
    }
    assert(rows.last().len() > 0) by {
        lemma_last_row(doc, m, y, body, one);
    }
    lemma_source_lines(rows, crlf);
}

/// The rows of an emitted block, and what is behind their markers.
#[verifier::spinoff_prover]
#[verifier::rlimit(40)]
pub proof fn lemma_block_marked(
    doc: DocText,
    d: CommentText,
    m: Seq<char>,
    crlf: bool,
    limit: usize,
    tab_width: usize,
    k: int,
)
    requires
        block_emitted(doc, d, m, crlf, limit, tab_width),
        0 <= k < doc_lines(doc, limit, tab_width).len(),
    ensures
        ({
            let body = doc_lines(doc, limit, tab_width);
            let y = shared_text(doc, body[0]);
            let one = fits_one_row(doc, m, y, body, limit, tab_width);
            let rows = framed(doc, m, y, body, one);
            let raw = source_lines(d.text);
            let r = first_row(doc) + k;
            let text = line_stripped(rows[r], doc.style, r == 0, r == rows.len() - 1).1;
            let n = doc.prefix().len() as int;
            &&& raw.len() == rows.len()
            &&& r < rows.len()
            &&& raw[r].body == rows[r]
            &&& r < rows.len() - 1 ==> raw[r].had_crlf == crlf
            &&& r > 0 ==> rows[r] == body[k] && (has_prefix(body[k], doc.prefix()) && !closes(
                body[k],
            ) ==> text == body[k].skip(n))
            &&& r == 0 ==> (!closes(body[0]) ==> text == y) && rows[0] == m + " "@ + y + if one {
                " */"@
            } else {
                Seq::empty()
            }
        }),
{
    let body = doc_lines(doc, limit, tab_width);
    let y = shared_text(doc, body[0]);
    let one = fits_one_row(doc, m, y, body, limit, tab_width);
    let rows = framed(doc, m, y, body, one);
    let raw = source_lines(d.text);
    let prefix = doc.prefix();
    let r = first_row(doc) + k;
    lemma_star_facts(doc);
    lemma_block_first(doc, d, m, crlf, limit, tab_width);
    lemma_block_rows(doc, d, m, crlf, limit, tab_width);
    assert(raw[r].body == rows[r]);
    if r == 0 {
        if one {
            lemma_only_row(m, doc.style, y);
        } else {
            assert(m + " "@ + y + Seq::<char>::empty() =~= m + " "@ + y);
            if !closes(body[0]) {
                assert(rows.len() > 1);
                lemma_opener_row(m, doc.style, y);
            }
        }
    } else {
        assert(rows[r] == body[k]);
        if has_prefix(body[k], prefix) && !closes(body[k]) {
            assert(r < rows.len() - 1);
            let x = body[k].skip(prefix.len() as int);
            assert(body[k].subrange(0, prefix.len() as int) == prefix);
            assert(body[k] =~= doc.indent + " * "@ + x);
            lemma_star_row(doc.indent, x, doc.style);
        }
    }
}

/// What a line of a block says when it is read again.
proof fn lemma_block_text(
    doc: DocText,
    d: CommentText,
    kind: Kind,
    m: Seq<char>,
    crlf: bool,
    limit: usize,
    tab_width: usize,
    k: int,
)
    requires
        block_emitted(doc, d, m, crlf, limit, tab_width),
        kind.style == doc.style,
        keeps_bodies(d, kind),
        0 <= k < doc_lines(doc, limit, tab_width).len(),
    ensures
        ({
            let body = doc_lines(doc, limit, tab_width);
            let y = shared_text(doc, body[0]);
            let one = fits_one_row(doc, m, y, body, limit, tab_width);
            let rows = framed(doc, m, y, body, one);
            let again = d.body(kind, limit);
            let r = first_row(doc) + k;
            &&& again.len() == rows.len()
            &&& r < rows.len()
            &&& again[r].raw == rows[r]
            &&& r > 0 ==> rows[r] == body[k] && (!closes(body[k]) ==> text_read(
                again[r],
                body[k],
                doc.prefix(),
            ))
            &&& r == 0 ==> (!closes(body[0]) ==> again[r].text == y) && rows[0] == m + " "@ + y
                + if one {
                " */"@
            } else {
                Seq::empty()
            }
        }),
{
    lemma_block_marked(doc, d, m, crlf, limit, tab_width, k);
    crate::settling::lemma_read_line(d, kind, limit, first_row(doc) + k);
}

/// A line behind the star has no run of stars to reduce.
proof fn lemma_one_star(indent: Seq<char>, z: Seq<char>)
    requires
        all_in(indent, CharClass::Blank),
    ensures
        stars_collapsed(trimmed_end(indent + " * "@ + z)) == trimmed_end(indent + " * "@ + z),
{
    reveal_strlit(" * ");
    let s = indent + " * "@ + z;
    let b = trimmed_end(s);
    let n = indent.len() as int;
    lemma_trail_len_facts(s, CharClass::White);
    assert(s[n] == ' ' && s[n + 1] == '*' && s[n + 2] == ' ');
    assert(b.len() >= n + 2) by {
        if b.len() < n + 2 {
            assert(in_class(s[n + 1], CharClass::White));
        }
    }
    assert forall|i: int| 0 <= i < n + 1 implies in_class(#[trigger] b[i], CharClass::Blank) by {
        assert(b[i] == s[i]);
        if i < n {
            assert(s[i] == indent[i]);
            assert(in_class(indent[i], CharClass::Blank));
        }
    }
    assert(b[n + 1] == '*');
    lemma_lead_len(b, CharClass::Blank, n + 1);
    let rest = after_lead(b, CharClass::Blank);
    assert(rest[0] == '*');
    if rest.len() > 1 {
        assert(rest[1] == b[n + 2]);
    }
    lemma_lead_len(rest, CharClass::One('*'), 1);
}

/// The lines of a block that keep their layout have no run of stars.
proof fn lemma_stars_settled(
    doc: DocText,
    s: Stretch,
    effective: usize,
    j: int,
)
    requires
        is_block(doc.style),
        doc.default_continuation_prefix == " * "@,
        all_in(doc.indent, CharClass::Blank),
        s.kind == ParagraphKind::Preformatted,
        proper_stretch(doc, s, doc.prefix(), effective, true),
        0 <= j < s.lines.len(),
    ensures
        stars_collapsed(s.lines[j]) == s.lines[j],
{
    let prefix = doc.prefix();
    let para = choose|para: ParagraphText| s.lines == #[trigger] raw_lines(doc, para, prefix, true);
    let li = para.line_indices[j] as int;
    let line = doc.lines[li];
    assert(s.lines[j] == raw_line(doc, li, prefix, true));
    assert(prefix == doc.indent + " * "@);
    lemma_one_star(doc.indent, line.text);
    lemma_one_star(doc.indent, behind_opener(line.raw, doc.opener_or("/*"@)));
    law_star_markers_settle(line.raw);
}

/// A line of a block that keeps its layout goes out as it stands.
proof fn lemma_block_kept(again: DocText, r: int, line: Seq<char>, prefix: Seq<char>)
    requires
        is_block(again.style),
        r > 0,
        again.lines[r].raw == line,
        stars_collapsed(line) == line,
        again.lines[r].kind == LineKind::LabelRow || again.lines[r].kind == LineKind::Banner
            ==> has_prefix(line, prefix) && trimmed_end(line) == line && text_read(
            again.lines[r],
            line,
            prefix,
        ),
    ensures
        raw_line(again, r, prefix, true) == line,
{
    if has_prefix(line, prefix) && text_read(again.lines[r], line, prefix) {
        assert(line.subrange(0, prefix.len() as int) == prefix);
        assert(prefix + again.lines[r].text =~= line);
    }
}

/// The first line of a block that keeps its layout, laid out again from the
/// opener's row.
proof fn lemma_opener_kept(
    again: DocText,
    m: Seq<char>,
    y: Seq<char>,
    tail: Seq<char>,
    prefix: Seq<char>,
)
    requires
        is_block(again.style),
        block_opener(m, again.style),
        again.block_opener_marker == Some(m),
        again.lines[0].raw == m + " "@ + y + tail,
        (y + tail).len() > 0,
        !is_white((y + tail).last()),
    ensures
        raw_line(again, 0, prefix, true) == prefix + (y + tail),
{
    reveal_strlit(" ");
    let x = y + tail;
    let row = m + " "@ + x;
    assert(again.lines[0].raw =~= row);
    assert(m + (" "@ + x) =~= row);
    lemma_opener_found(m, again.style, " "@ + x);
    assert(row[0] == m[0]);
    lemma_lead_len(row, CharClass::Blank, 0);
    assert(after_lead(row, CharClass::Blank) =~= row);
    assert(row.subrange(0, m.len() as int) =~= m);
    let rest = row.skip(m.len() as int);
    assert(rest =~= " "@ + x);
    assert(rest.subrange(0, 1) =~= " "@);
    assert(rest.skip(1) =~= x);
    assert(behind_opener(row, m) == x);
    assert((prefix + x).last() == x.last());
    lemma_trimmed_end(prefix + x);
}

/// A one-row block that keeps its layout is framed by its own closer.
proof fn lemma_closed_row(
    again: DocText,
    m: Seq<char>,
    y: Seq<char>,
    limit: usize,
    tab_width: usize,
)
    requires
        block_opener(m, again.style),
        again.opener() == m,
        !again.is_file_header,
        again.default_continuation_prefix == " * "@,
        is_block(again.style),
        all_in(again.indent, CharClass::Blank),
        y.len() > 0,
    ensures
        block_lines(again, seq![again.prefix() + (y + " */"@)], limit, tab_width) == seq![
            m + " "@ + y + " */"@,
        ],
{
    reveal_strlit(" */");
    reveal_strlit("*/");
    reveal_strlit(" * ");
    let prefix = again.prefix();
    let x = y + " */"@;
    let b = prefix + x;
    let body = seq![b];
    assert(prefix == again.indent + " * "@);
    assert(b.subrange(0, prefix.len() as int) =~= prefix);
    assert(b.skip(prefix.len() as int) =~= x);
    assert(content_of(body[0], prefix, again.default_continuation_prefix) == x);
    assert(!nothing_inside(body, again));
    lemma_star_lead(again.indent, x);
    let first = after_lead(b, CharClass::Blank);
    lemma_opener_found(m, again.style, seq![' ']);
    if has_prefix(first, m) {
        assert(first.subrange(0, m.len() as int)[0] == m[0]);
    }
    assert(first.subrange(first.len() - 2, first.len() as int) =~= "*/"@);
    let head = m + " "@ + x;
    assert(head.last() == '/');
    lemma_trimmed_end(head);
    assert(inline_first(b, again) == head);
    assert(head =~= m + " "@ + y + " */"@);
    assert(seq![head] + body.skip(1) =~= seq![head]);
}

/// A line behind the star starts with it.
proof fn lemma_star_lead(indent: Seq<char>, x: Seq<char>)
    requires
        all_in(indent, CharClass::Blank),
    ensures
        after_lead(indent + " * "@ + x, CharClass::Blank) == "* "@ + x,
        after_lead(indent + " * "@ + x, CharClass::Blank)[0] == '*',
{
    reveal_strlit(" * ");
    reveal_strlit("* ");
    let s = indent + " * "@ + x;
    let n = indent.len() + 1;
    assert forall|i: int| 0 <= i < n implies in_class(#[trigger] s[i], CharClass::Blank) by {
        if i < indent.len() {
            assert(s[i] == indent[i]);
            assert(in_class(indent[i], CharClass::Blank));
        }
    }
    assert(s[n as int] == '*');
    lemma_lead_len(s, CharClass::Blank, n as int);
    assert(after_lead(s, CharClass::Blank) =~= "* "@ + x);
}

/// A block that is read again with another first line of the same text is framed
/// as it was.
#[verifier::spinoff_prover]
#[verifier::rlimit(40)]
proof fn lemma_framed_again(
    doc: DocText,
    again: DocText,
    m: Seq<char>,
    body: Seq<Seq<char>>,
    first: Seq<char>,
    limit: usize,
    tab_width: usize,
)
    requires
        is_block(doc.style),
        block_opener(m, doc.style),
        again.style == doc.style,
        again.indent == doc.indent,
        all_in(doc.indent, CharClass::Blank),
        again.is_file_header == doc.is_file_header,
        doc.default_continuation_prefix == " * "@,
        again.default_continuation_prefix == " * "@,
        doc.opener() == m,
        again.opener() == m,
        body.len() > 0,
        open_body(body),
        !doc.is_file_header ==> shares_row(doc, body[0]),
        first == body[0] || (!doc.is_file_header && first == doc.prefix() + shared_text(
            doc,
            body[0],
        )),
    ensures
        ({
            let y = shared_text(doc, body[0]);
            block_lines(again, body.update(0, first), limit, tab_width) == framed(
                doc,
                m,
                y,
                body,
                fits_one_row(doc, m, y, body, limit, tab_width),
            )
        }),
{
    let prefix = doc.prefix();
    let y = shared_text(doc, body[0]);
    let other = body.update(0, first);
    assert(again.prefix() == prefix);
    if first != body[0] {
        reveal_strlit(" * ");
        let full = content_of(body[0], prefix, " * "@);
        lemma_trimmed_end(full);
        assert(first.subrange(0, prefix.len() as int) =~= prefix);
        assert(first.skip(prefix.len() as int) =~= y);
        assert(content_of(first, prefix, " * "@) == y);
        assert(shared_text(again, first) == y);
        lemma_star_lead(doc.indent, y);
        lemma_opener_found(m, doc.style, seq![' ']);
        let t = after_lead(first, CharClass::Blank);
        if has_prefix(t, m) {
            assert(t.subrange(0, m.len() as int)[0] == m[0]);
        }
        assert(first.last() == y.last());
        lemma_trimmed_end(first);
        lemma_shared_closes(doc, m, body[0]);
        reveal_strlit("*/");
        if has_suffix(y, "*/"@) {
            assert(first.subrange(first.len() - 2, first.len() as int) =~= y.subrange(
                y.len() - 2,
                y.len() as int,
            ));
        } else {
            assert(prefix.last() == ' ');
            lemma_no_closer(prefix, y);
        }
        assert(closes(first) == closes(body[0]));
        assert(closes(first) ==> has_suffix(first, "*/"@));
    }
    assert forall|k: int| 0 <= k < other.len() && closes(#[trigger] other[k]) implies k
        == other.len() - 1 && has_suffix(other[k], "*/"@) by {
        if k > 0 {
            assert(other[k] == body[k]);
        } else {
            assert(closes(body[0]));
        }
    }
    assert(closes(other.last()) == closes(body.last())) by {
        if body.len() > 1 {
            assert(other.last() == body.last());
        }
    }
    lemma_framed(again, m, other, limit, tab_width);
    assert(other.skip(1) =~= body.skip(1));
    if doc.is_file_header {
        assert(other =~= body);
    }
}

/// Joined rows start with the first one and the separator behind it.
pub proof fn lemma_joined_front(rows: Seq<Seq<char>>, sep: Seq<char>) -> (tail: Seq<char>)
    requires
        rows.len() > 1,
    ensures
        joined(rows, sep) == rows[0] + sep + tail,
    decreases rows.len(),
{
    let head = rows.drop_last();
    if rows.len() == 2 {
        assert(joined(head, sep) == rows[0]);
        rows[1]
    } else {
        let t = lemma_joined_front(head, sep);
        let tail = t + sep + rows.last();
        assert(joined(rows, sep) =~= rows[0] + sep + tail);
        tail
    }
}

/// The first row is read back from the text.
pub proof fn lemma_first_row_read(rows: Seq<Seq<char>>, crlf: bool)
    requires
        rows.len() > 0,
        unbroken(rows[0]),
        rows[0].len() > 0,
        !is_white(rows[0].last()),
    ensures
        ({
            let text = joined(rows, eol_of(crlf));
            trimmed_end(text.take(lead_len(text, CharClass::NotOne('\n')) as int)) == rows[0]
        }),
{
    reveal_strlit("\n");
    reveal_strlit("\r\n");
    let text = joined(rows, eol_of(crlf));
    let a = rows[0];
    lemma_trimmed_end(a);
    if rows.len() == 1 {
        lemma_lead_len(text, CharClass::NotOne('\n'), a.len() as int);
        assert(text.take(a.len() as int) =~= a);
    } else {
        let tail = lemma_joined_front(rows, eol_of(crlf));
        let b = if crlf {
            a.push('\r')
        } else {
            a
        };
        assert forall|i: int| 0 <= i < b.len() implies in_class(
            #[trigger] text[i],
            CharClass::NotOne('\n'),
        ) by {
            if i < a.len() {
                assert(text[i] == a[i]);
                assert(in_class(a[i], CharClass::NotOne('\n')));
            }
        }
        assert(text[b.len() as int] == '\n');
        lemma_lead_len(text, CharClass::NotOne('\n'), b.len() as int);
        assert(text.take(b.len() as int) =~= b);
        if crlf {
            assert(b[b.len() - 2] == a.last());
            lemma_trail_len(b, CharClass::White, 1);
            assert(trimmed_end(b) =~= a);
        }
    }
}

/// A documentation block whose first row is its opener has it alone there.
pub proof fn lemma_alone(d: CommentText, m: Seq<char>, row: Seq<char>)
    requires
        block_opener(m, Style::DocBlock),
        trimmed_end(d.text.take(lead_len(d.text, CharClass::NotOne('\n')) as int)) == row,
        row == m || (row.len() > m.len() && has_prefix(row, m)),
    ensures
        d.opener_alone() == Some(row == m),
{
    reveal_strlit("/*");
    reveal_strlit("/**");
    reveal_strlit("/*!");
}

/// A text that starts with an opener and what may follow it.
pub proof fn lemma_text_opens(text: Seq<char>, m: Seq<char>, style: Style)
    requires
        block_opener(m, style),
        text.len() > m.len(),
        has_prefix(text, m),
        opener_ends(text.skip(m.len() as int)),
    ensures
        block_marker_of(text) == Some(m),
        crate::classify::style_of(text) == style,
{
    let rest = text.skip(m.len() as int);
    assert(text.subrange(0, m.len() as int) == m);
    assert(text =~= m + rest);
    lemma_opener_found(m, style, rest);
}

/// The first row of an emitted block starts with its opener.
proof fn lemma_first_framed(
    doc: DocText,
    m: Seq<char>,
    y: Seq<char>,
    body: Seq<Seq<char>>,
    one: bool,
)
    requires
        block_opener(m, doc.style),
        body.len() > 0,
        !doc.is_file_header ==> all_in(y, CharClass::NotOne('\n')) && y.len() > 0 && !is_white(
            y.last(),
        ),
    ensures
        ({
            let row = framed(doc, m, y, body, one)[0];
            &&& unbroken(row)
            &&& row.len() > 0
            &&& !is_white(row.last())
            &&& has_prefix(row, m)
            &&& doc.is_file_header ==> row == m && framed(doc, m, y, body, one).len() > 1
            &&& !doc.is_file_header ==> row.len() > m.len() && row[m.len() as int] == ' '
        }),
{
    reveal_strlit(" ");
    reveal_strlit(" */");
    let row = framed(doc, m, y, body, one)[0];
    let some = if doc.is_file_header {
        seq!['x']
    } else {
        y
    };
    assert(!is_white('x'));
    lemma_opener_unbroken(m, doc.style, some);
    lemma_opener_found(m, doc.style, seq![' ']);
    assert(row.subrange(0, m.len() as int) =~= m);
    assert(!is_white(m.last())) by {
        reveal_strlit("/*");
        reveal_strlit("/**");
        reveal_strlit("/*!");
        reveal_strlit("/*-");
    }
}

/// The opener of an emitted block is found again, where it stood.
pub proof fn lemma_block_opens(
    doc: DocText,
    d: CommentText,
    m: Seq<char>,
    crlf: bool,
    limit: usize,
    tab_width: usize,
)
    requires
        block_emitted(doc, d, m, crlf, limit, tab_width),
    ensures
        block_marker_of(d.text) == Some(m),
        crate::classify::style_of(d.text) == doc.style,
        doc.style == Style::DocBlock ==> d.opener_alone() == Some(doc.is_file_header),
{
    let body = doc_lines(doc, limit, tab_width);
    let y = shared_text(doc, body[0]);
    let one = fits_one_row(doc, m, y, body, limit, tab_width);
    let rows = framed(doc, m, y, body, one);
    lemma_block_first(doc, d, m, crlf, limit, tab_width);
    lemma_first_framed(doc, m, y, body, one);
    let row = rows[0];
    let n = m.len() as int;
    lemma_first_row_read(rows, crlf);
    lemma_joined_opens(rows, eol_of(crlf));
    assert(row.subrange(0, n) == m);
    assert(d.text.subrange(0, n) =~= m) by {
        assert forall|i: int| 0 <= i < n implies d.text[i] == m[i] by {
            assert(d.text.take(row.len() as int)[i] == row[i]);
            assert(row.subrange(0, n)[i] == m[i]);
        }
    }
    if doc.is_file_header {
        reveal_strlit("\n");
        reveal_strlit("\r\n");
        let tail = lemma_joined_front(rows, eol_of(crlf));
        assert(d.text[n] == eol_of(crlf)[0]);
    } else {
        assert(d.text.take(row.len() as int)[n] == row[n]);
    }
    lemma_text_opens(d.text, m, doc.style);
    if doc.style == Style::DocBlock {
        lemma_alone(d, m, row);
    }
}

/// The lines of a block go on behind a star.
pub proof fn lemma_continues_behind_star(
    d: CommentText,
    kind: Kind,
    lang: Language,
    limit: usize,
)
    requires
        is_block(kind.style),
    ensures
        d.normalized(kind, lang, limit).default_continuation_prefix == " * "@,
{
    reveal(CommentText::normalized);
    let raw = source_lines(d.text);
    let plain = d.plain_lines(kind);
    crate::rows::lemma_block_prefix(plain, raw, kind.style);
}

/// An emitted block ends in its closer.
pub proof fn lemma_block_ends(
    doc: DocText,
    d: CommentText,
    m: Seq<char>,
    crlf: bool,
    limit: usize,
    tab_width: usize,
)
    requires
        block_emitted(doc, d, m, crlf, limit, tab_width),
    ensures
        d.text.len() > 0,
        d.text.last() == '/',
{
    reveal_strlit(" */");
    let body = doc_lines(doc, limit, tab_width);
    let y = shared_text(doc, body[0]);
    let one = fits_one_row(doc, m, y, body, limit, tab_width);
    let rows = framed(doc, m, y, body, one);
    lemma_block_first(doc, d, m, crlf, limit, tab_width);
    lemma_last_row(doc, m, y, body, one);
    crate::rows::lemma_joined_last(rows, eol_of(crlf));
}

/// A line behind the star has no run of stars to reduce.
proof fn lemma_single_star(indent: Seq<char>, x: Seq<char>)
    requires
        all_in(indent, CharClass::Blank),
    ensures
        stars_collapsed(indent + " * "@ + x) == indent + " * "@ + x,
{
    reveal_strlit("* ");
    lemma_star_lead(indent, x);
    let rest = after_lead(indent + " * "@ + x, CharClass::Blank);
    assert(rest == "* "@ + x);
    assert(rest[1] == ' ');
    lemma_lead_len(rest, CharClass::One('*'), 1);
}

/// No line of a block has a run of stars to reduce.
proof fn lemma_row_stars(doc: DocText, limit: usize, tab_width: usize, k: int)
    requires
        is_block(doc.style),
        doc.default_continuation_prefix == " * "@,
        all_in(doc.indent, CharClass::Blank),
        sound_stretches(doc_stretches(doc, limit, tab_width), doc.style),
        0 <= k < doc_lines(doc, limit, tab_width).len(),
    ensures
        stars_collapsed(doc_lines(doc, limit, tab_width)[k]) == doc_lines(
            doc,
            limit,
            tab_width,
        )[k],
{
    let st = doc_stretches(doc, limit, tab_width);
    let prefix = doc.prefix();
    let effective = doc_room(doc, limit, tab_width);
    let line = doc_lines(doc, limit, tab_width)[k];
    lemma_star_facts(doc);
    if line == bare_prefix(prefix) {
        reveal_strlit(" *");
        reveal_strlit(" * ");
        let none = Seq::<char>::empty();
        lemma_one_star(doc.indent, none);
        let s = doc.indent + " * "@ + none;
        assert(s[s.len() - 2] == '*');
        lemma_trail_len(s, CharClass::White, 1);
        assert(trimmed_end(s) =~= line);
    } else {
        let (i, j) = lemma_line_of(st, st.len() as int, k, prefix);
        assert(sound_stretch(st[i], doc.style));
        crate::settling::lemma_stretch_of(doc, limit, tab_width, i);
        if st[i].kind == ParagraphKind::Preformatted {
            lemma_stars_settled(doc, st[i], effective, j);
        } else {
            if st[i].kind == ParagraphKind::Prose {
                crate::settling::lemma_prose_text(doc, limit, tab_width, i, j);
                assert(line.subrange(0, prefix.len() as int) == prefix);
            } else {
                assert(line.subrange(0, prefix.len() as int) =~= prefix);
            }
            let x = line.skip(prefix.len() as int);
            assert(line =~= doc.indent + " * "@ + x);
            lemma_single_star(doc.indent, x);
        }
    }
}

/// A trimmed text ends in no white space.
proof fn lemma_trimmed_is_ended(x: Seq<char>)
    requires
        trimmed(x) == x,
    ensures
        trimmed_end(x) == x,
{
    lemma_trimmed_end(trimmed_start(x));
    lemma_trimmed_end(x);
    if x.len() == 0 {
        assert(trimmed_end(x) =~= x);
    }
}

/// The first line that goes out when the block is laid out again.
spec fn block_first_again(doc: DocText, again: DocText, body: Seq<Seq<char>>) -> Seq<char> {
    if !doc.is_file_header && preformatted(again.lines[0].kind) {
        raw_line(again, 0, doc.prefix(), true)
    } else {
        body[0]
    }
}

/// A line below the first row goes out as it stands.
proof fn lemma_later_goes_out(
    again: DocText,
    body: Seq<Seq<char>>,
    k: int,
    first: Seq<char>,
    prefix: Seq<char>,
    from: int,
)
    requires
        is_block(again.style),
        0 <= k < body.len(),
        0 < from + k,
        k == 0 ==> first == body[0],
        again.lines[from + k].raw == body[k],
        !closes(body[k]) ==> text_read(again.lines[from + k], body[k], prefix),
        row_stands(again.lines[from + k], body[k], prefix, true),
        stars_collapsed(body[k]) == body[k],
    ensures
        row_goes_out(again, body.update(0, first), k, prefix, true, from),
{
    let l = again.lines[from + k];
    assert(body.update(0, first)[k] == body[k]);
    if preformatted(l.kind) {
        lemma_block_kept(again, from + k, body[k], prefix);
    }
    if l.kind == LineKind::AtxHeader {
        let x = body[k].skip(prefix.len() as int);
        assert(body[k].subrange(0, prefix.len() as int) == prefix);
        assert(prefix + x =~= body[k]);
    }
}

/// The line that shares its row with the opener goes out as it stands.
proof fn lemma_first_goes_out(
    doc: DocText,
    again: DocText,
    body: Seq<Seq<char>>,
    first: Seq<char>,
)
    requires
        body.len() > 0,
        !doc.is_file_header,
        first == block_first_again(doc, again, body),
        !closes(body[0]) ==> again.lines[0].text == shared_text(doc, body[0]),
        row_stands(again.lines[0], body[0], doc.prefix(), true),
    ensures
        row_goes_out(again, body.update(0, first), 0, doc.prefix(), true, 0),
{
    let prefix = doc.prefix();
    let l = again.lines[0];
    if l.kind == LineKind::AtxHeader {
        let x = body[0].skip(prefix.len() as int);
        lemma_trimmed_is_ended(x);
        lemma_shared_is(doc, body[0]);
        assert(body[0].subrange(0, prefix.len() as int) == prefix);
        assert(prefix + x =~= body[0]);
    }
}

/// A line of an emitted block goes out as it stands.
#[verifier::spinoff_prover]
#[verifier::rlimit(40)]
proof fn lemma_block_goes_out(
    doc: DocText,
    d: CommentText,
    kind: Kind,
    lang: Language,
    m: Seq<char>,
    crlf: bool,
    limit: usize,
    tab_width: usize,
    k: int,
)
    requires
        block_emitted(doc, d, m, crlf, limit, tab_width),
        kind.style == doc.style,
        reads_again(d, kind, lang, doc, limit, tab_width, first_row(doc)),
        0 <= k < doc_lines(doc, limit, tab_width).len(),
    ensures
        ({
            let again = d.normalized(kind, lang, limit);
            let body = doc_lines(doc, limit, tab_width);
            let first = block_first_again(doc, again, body);
            row_goes_out(again, body.update(0, first), k, doc.prefix(), true, first_row(doc))
        }),
{
    let prefix = doc.prefix();
    let from = first_row(doc);
    let body = doc_lines(doc, limit, tab_width);
    let again = d.normalized(kind, lang, limit);
    let first = block_first_again(doc, again, body);
    crate::settling::lemma_read_doc(d, kind, lang, doc, limit, tab_width, from);
    lemma_block_text(doc, d, kind, m, crlf, limit, tab_width, k);
    assert(row_stands(again.lines[from + k], body[k], prefix, true));
    lemma_row_stars(doc, limit, tab_width, k);
    assert(again.style == doc.style);
    if from + k > 0 {
        lemma_later_goes_out(again, body, k, first, prefix, from);
    } else {
        lemma_first_goes_out(doc, again, body, first);
    }
}

/// What a line behind the prefix shares with the opener.
proof fn lemma_shared_is(doc: DocText, line: Seq<char>)
    requires
        has_prefix(line, doc.prefix()),
        trimmed_end(line.skip(doc.prefix().len() as int)) == line.skip(doc.prefix().len() as int),
    ensures
        shared_text(doc, line) == line.skip(doc.prefix().len() as int),
{
}

/// A line of prose of an emitted block is read.
#[verifier::spinoff_prover]
#[verifier::rlimit(60)]
proof fn lemma_block_prose_read(
    doc: DocText,
    d: CommentText,
    kind: Kind,
    lang: Language,
    m: Seq<char>,
    crlf: bool,
    limit: usize,
    tab_width: usize,
    i: int,
    j: int,
)
    requires
        block_emitted(doc, d, m, crlf, limit, tab_width),
        kind.style == doc.style,
        reads_again(d, kind, lang, doc, limit, tab_width, first_row(doc)),
        0 <= i < doc_stretches(doc, limit, tab_width).len(),
        doc_stretches(doc, limit, tab_width)[i].kind == ParagraphKind::Prose,
        0 <= j < doc_stretches(doc, limit, tab_width)[i].lines.len(),
    ensures
        prose_read(
            d.normalized(kind, lang, limit),
            doc,
            doc_stretches(doc, limit, tab_width),
            doc_room(doc, limit, tab_width),
            first_row(doc),
            i,
            j,
        ),
{
    let prefix = doc.prefix();
    let from = first_row(doc);
    let st = doc_stretches(doc, limit, tab_width);
    let effective = doc_room(doc, limit, tab_width);
    let body = doc_lines(doc, limit, tab_width);
    let k = start_of(st, i, prefix, 0) + j;
    crate::settling::lemma_read_doc(d, kind, lang, doc, limit, tab_width, from);
    lemma_star_facts(doc);
    lemma_line_at(st, st.len() as int, i, j, prefix);
    lemma_block_text(doc, d, kind, m, crlf, limit, tab_width, k);
    crate::settling::lemma_prose_text(doc, limit, tab_width, i, j);
    assert(sound_stretch(st[i], doc.style));
    assert(!closes(st[i].lines[j]));
    if from + k == 0 {
        crate::settling::lemma_stretch_of(doc, limit, tab_width, i);
        crate::settling::lemma_prose_line(doc, st[i], prefix, effective, true, j);
        let x = body[0].skip(prefix.len() as int);
        assert(x.last() == body[0].last());
        lemma_trimmed_end(x);
        lemma_shared_is(doc, body[0]);
    }
}

/// An emitted block is laid out again as it is.
#[verifier::spinoff_prover]
#[verifier::rlimit(40)]
pub proof fn lemma_block_settles(
    doc: DocText,
    d: CommentText,
    kind: Kind,
    lang: Language,
    m: Seq<char>,
    crlf: bool,
    limit: usize,
    tab_width: usize,
)
    requires
        block_emitted(doc, d, m, crlf, limit, tab_width),
        kind.style == doc.style,
        kind.flavor == doc.flavor,
        doc.style == Style::Block ==> doc.is_file_header == d.at_file_start,
        reads_again(d, kind, lang, doc, limit, tab_width, first_row(doc)),
    ensures
        reflowed(d.normalized(kind, lang, limit), limit, tab_width) == d.text,
{
    let st = doc_stretches(doc, limit, tab_width);
    let prefix = doc.prefix();
    let effective = doc_room(doc, limit, tab_width);
    let from = first_row(doc);
    let body = doc_lines(doc, limit, tab_width);
    let y = shared_text(doc, body[0]);
    let one = fits_one_row(doc, m, y, body, limit, tab_width);
    let rows = framed(doc, m, y, body, one);
    let again = d.normalized(kind, lang, limit);
    let first = block_first_again(doc, again, body);
    crate::settling::lemma_read_doc(d, kind, lang, doc, limit, tab_width, from);
    lemma_block_first(doc, d, m, crlf, limit, tab_width);
    lemma_block_rows(doc, d, m, crlf, limit, tab_width);
    lemma_block_opens(doc, d, m, crlf, limit, tab_width);
    assert(again.is_file_header == doc.is_file_header);
    lemma_continues_behind_star(d, kind, lang, limit);
    assert(again.prefix() == prefix);
    assert forall|k: int| 0 <= k < body.len() implies #[trigger] row_goes_out(
        again,
        body.update(0, first),
        k,
        prefix,
        true,
        from,
    ) by {
        lemma_block_goes_out(doc, d, kind, lang, m, crlf, limit, tab_width, k);
    }
    assert forall|i: int, j: int|
        0 <= i < st.len() && st[i].kind == ParagraphKind::Prose && 0 <= j
            < st[i].lines.len() implies #[trigger] prose_read(
        again,
        doc,
        st,
        effective,
        from,
        i,
        j,
    ) by {
        lemma_block_prose_read(doc, d, kind, lang, m, crlf, limit, tab_width, i, j);
    }
    crate::settling::lemma_body_of(doc, again, limit, tab_width, first, from);
    assert(block_lines(again, body.update(0, first), limit, tab_width) == rows) by {
        if !doc.is_file_header && preformatted(again.lines[0].kind) {
            lemma_first_kept(doc, d, kind, lang, m, crlf, limit, tab_width);
        } else {
            lemma_framed_again(doc, again, m, body, first, limit, tab_width);
        }
    }
    assert(comment_lines(again, limit, tab_width) == rows);
    assert forall|k: int| 0 <= k < rows.len() - 1 implies (#[trigger] again.lines[k]).had_crlf
        == crlf by {
        crate::settling::lemma_read_line(d, kind, limit, k);
    }
    crate::settling::lemma_joined_again(again, rows, crlf);
    reveal(reflowed);
}

/// A block whose first line keeps its layout is framed as it was.
proof fn lemma_first_kept(
    doc: DocText,
    d: CommentText,
    kind: Kind,
    lang: Language,
    m: Seq<char>,
    crlf: bool,
    limit: usize,
    tab_width: usize,
)
    requires
        block_emitted(doc, d, m, crlf, limit, tab_width),
        kind.style == doc.style,
        reads_again(d, kind, lang, doc, limit, tab_width, first_row(doc)),
        !doc.is_file_header,
        ({
            let again = d.normalized(kind, lang, limit);
            &&& again.is_file_header == doc.is_file_header
            &&& again.default_continuation_prefix == " * "@
            &&& again.block_opener_marker == Some(m)
        }),
    ensures
        ({
            let again = d.normalized(kind, lang, limit);
            let body = doc_lines(doc, limit, tab_width);
            let y = shared_text(doc, body[0]);
            let first = raw_line(again, 0, doc.prefix(), true);
            block_lines(again, body.update(0, first), limit, tab_width) == framed(
                doc,
                m,
                y,
                body,
                fits_one_row(doc, m, y, body, limit, tab_width),
            )
        }),
{
    reveal_strlit(" */");
    let prefix = doc.prefix();
    let body = doc_lines(doc, limit, tab_width);
    let y = shared_text(doc, body[0]);
    let one = fits_one_row(doc, m, y, body, limit, tab_width);
    let again = d.normalized(kind, lang, limit);
    let first = raw_line(again, 0, prefix, true);
    crate::settling::lemma_read_doc(d, kind, lang, doc, limit, tab_width, 0);
    lemma_block_first(doc, d, m, crlf, limit, tab_width);
    lemma_block_text(doc, d, kind, m, crlf, limit, tab_width, 0);
    let tail = if one {
        " */"@
    } else {
        Seq::empty()
    };
    assert((y + tail).last() == if one {
        '/'
    } else {
        y.last()
    });
    lemma_opener_kept(again, m, y, tail, prefix);
    if one {
        assert(again.prefix() == prefix);
        lemma_closed_row(again, m, y, limit, tab_width);
        assert(body.update(0, first) =~= seq![prefix + (y + " */"@)]);
    } else {
        assert(y + tail =~= y);
        lemma_framed_again(doc, again, m, body, first, limit, tab_width);
    }
}

} // verus!
