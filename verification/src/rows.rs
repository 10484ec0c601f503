//! Reading back the rows that a comment is emitted as.

use crate::classify::{style_of, Style};
use crate::laws::single_spaced;
use crate::linekind::StrippedText;
use crate::normalize::{
    block_marker_of, continuation_prefix, line_marker_of, line_marker_stripped, line_stripped,
    lines_stripped, member_stripped, raw_of, source_lines, RawText,
};
use crate::reflow::is_block;
use crate::text::{
    after_lead, all_in, has_prefix, has_suffix, in_class, is_white, joined, lead_len, lead_run,
    lemma_lead_len, lemma_lead_len_facts, lemma_trail_len, split_on, trimmed, trimmed_end,
    trimmed_start, CharClass,
};
use crate::words::{all_words, is_word};
use crate::wrap::line_text;
use vstd::prelude::*;

verus! {

/// A text without `c` is one piece.
pub proof fn lemma_split_one(s: Seq<char>, c: char)
    requires
        all_in(s, CharClass::NotOne(c)),
    ensures
        split_on(s, c) == seq![s],
{
    lemma_lead_len(s, CharClass::NotOne(c), s.len() as int);
}

/// `c` between two texts splits them.
pub proof fn lemma_split_apart(a: Seq<char>, c: char, b: Seq<char>)
    ensures
        split_on(a + seq![c] + b, c) == split_on(a, c) + split_on(b, c),
    decreases a.len(),
{
    let s = a + seq![c] + b;
    let n = lead_len(a, CharClass::NotOne(c)) as int;
    lemma_lead_len_facts(a, CharClass::NotOne(c));
    assert forall|i: int| 0 <= i < n implies in_class(#[trigger] s[i], CharClass::NotOne(c)) by {
        assert(s[i] == a[i]);
    }
    if n < a.len() {
        assert(s[n] == a[n]);
        lemma_lead_len(s, CharClass::NotOne(c), n);
        let rest = a.skip(n + 1);
        lemma_split_apart(rest, c, b);
        assert(s.skip(n + 1) =~= rest + seq![c] + b);
        assert(s.take(n) =~= a.take(n));
        assert(split_on(s, c) =~= split_on(a, c) + split_on(b, c));
    } else {
        assert(s[n] == c);
        lemma_lead_len(s, CharClass::NotOne(c), n);
        assert(s.skip(n + 1) =~= b);
        assert(s.take(n) =~= a);
        assert(split_on(s, c) =~= split_on(a, c) + split_on(b, c));
    }
}

/// Text without `c` behind a text goes on with its last piece.
pub proof fn lemma_split_extend(s: Seq<char>, t: Seq<char>, c: char)
    requires
        all_in(t, CharClass::NotOne(c)),
    ensures
        split_on(s, c).len() > 0,
        split_on(s + t, c) == split_on(s, c).drop_last().push(split_on(s, c).last() + t),
    decreases s.len(),
{
    let n = lead_len(s, CharClass::NotOne(c)) as int;
    lemma_lead_len_facts(s, CharClass::NotOne(c));
    let u = s + t;
    assert forall|i: int| 0 <= i < n implies in_class(#[trigger] u[i], CharClass::NotOne(c)) by {
        assert(u[i] == s[i]);
    }
    if n < s.len() {
        assert(u[n] == s[n]);
        lemma_lead_len(u, CharClass::NotOne(c), n);
        let rest = s.skip(n + 1);
        lemma_split_extend(rest, t, c);
        assert(u.skip(n + 1) =~= rest + t);
        assert(u.take(n) =~= s.take(n));
        assert(split_on(u, c) =~= split_on(s, c).drop_last().push(split_on(s, c).last() + t));
    } else {
        assert(all_in(u, CharClass::NotOne(c))) by {
            assert forall|i: int| 0 <= i < u.len() implies in_class(
                #[trigger] u[i],
                CharClass::NotOne(c),
            ) by {
                if i >= s.len() {
                    assert(u[i] == t[i - s.len()]);
                }
            }
        }
        lemma_split_one(u, c);
        assert(split_on(s, c) =~= seq![s]);
        assert(split_on(u, c) =~= split_on(s, c).drop_last().push(split_on(s, c).last() + t));
    }
}

/// A line without a break in it, or a part of one at its end.
pub open spec fn unbroken(l: Seq<char>) -> bool {
    all_in(l, CharClass::NotOne('\n')) && (l.len() > 0 ==> l.last() != '\r')
}

/// The line ending of a comment.
pub open spec fn eol_of(crlf: bool) -> Seq<char> {
    if crlf {
        "\r\n"@
    } else {
        "\n"@
    }
}

/// A text with one more line behind it is split into its pieces and that line;
/// a carriage return goes with the piece that it ends.
proof fn lemma_split_more(h: Seq<char>, last: Seq<char>, crlf: bool)
    requires
        all_in(last, CharClass::NotOne('\n')),
    ensures
        split_on(h, '\n').len() > 0,
        split_on(h + eol_of(crlf) + last, '\n') == if crlf {
            split_on(h, '\n').drop_last().push(split_on(h, '\n').last().push('\r')).push(last)
        } else {
            split_on(h, '\n').push(last)
        },
{
    reveal_strlit("\n");
    reveal_strlit("\r\n");
    lemma_split_one(last, '\n');
    let s = h + eol_of(crlf) + last;
    let before = split_on(h, '\n');
    if crlf {
        let cr = seq!['\r'];
        assert(all_in(cr, CharClass::NotOne('\n')));
        lemma_split_extend(h, cr, '\n');
        lemma_split_apart(h + cr, '\n', last);
        assert(s =~= h + cr + seq!['\n'] + last);
        assert(before.last() + cr =~= before.last().push('\r'));
        let ended = before.drop_last().push(before.last().push('\r'));
        assert(ended + seq![last] =~= ended.push(last));
    } else {
        lemma_split_apart(h, '\n', last);
        assert(s =~= h + seq!['\n'] + last);
        assert(before + seq![last] =~= before.push(last));
    }
}

/// The pieces that joined lines are split into again.
pub open spec fn joined_piece(lines: Seq<Seq<char>>, crlf: bool, j: int) -> Seq<char> {
    if crlf && j < lines.len() - 1 {
        lines[j].push('\r')
    } else {
        lines[j]
    }
}

proof fn lemma_split_joined(lines: Seq<Seq<char>>, crlf: bool)
    requires
        lines.len() > 0,
        forall|j: int|
            0 <= j < lines.len() ==> all_in(#[trigger] lines[j], CharClass::NotOne('\n')),
    ensures
        split_on(joined(lines, eol_of(crlf)), '\n') == Seq::new(
            lines.len(),
            |j: int| joined_piece(lines, crlf, j),
        ),
    decreases lines.len(),
{
    let want = Seq::new(lines.len(), |j: int| joined_piece(lines, crlf, j));
    if lines.len() == 1 {
        lemma_split_one(lines[0], '\n');
        assert(want =~= seq![lines[0]]);
    } else {
        let head = lines.drop_last();
        assert forall|j: int| 0 <= j < head.len() implies all_in(
            #[trigger] head[j],
            CharClass::NotOne('\n'),
        ) by {
            assert(head[j] == lines[j]);
        }
        lemma_split_joined(head, crlf);
        let last = lines[lines.len() - 1];
        let h = joined(head, eol_of(crlf));
        lemma_split_more(h, last, crlf);
        let before = split_on(h, '\n');
        let pieces = split_on(joined(lines, eol_of(crlf)), '\n');
        assert(joined(lines, eol_of(crlf)) == h + eol_of(crlf) + last);
        assert forall|j: int| 0 <= j < lines.len() implies pieces[j] == want[j] by {
            if j < head.len() {
                assert(before[j] == joined_piece(head, crlf, j));
                assert(head[j] == lines[j]);
            }
        }
        assert(pieces =~= want);
    }
}

pub proof fn lemma_joined_last(lines: Seq<Seq<char>>, sep: Seq<char>)
    requires
        lines.len() > 0,
        lines.last().len() > 0,
    ensures
        joined(lines, sep).len() > 0,
        joined(lines, sep).last() == lines.last().last(),
{
}

/// The source lines of joined lines are those lines.
pub proof fn lemma_source_lines(lines: Seq<Seq<char>>, crlf: bool)
    requires
        lines.len() > 0,
        lines.last().len() > 0,
        forall|j: int| 0 <= j < lines.len() ==> unbroken(#[trigger] lines[j]),
    ensures
        source_lines(joined(lines, eol_of(crlf))) == Seq::new(
            lines.len(),
            |j: int| RawText { body: lines[j], had_crlf: crlf && j < lines.len() - 1 },
        ),
{
    reveal_strlit("\n");
    reveal_strlit("\r");
    let s = joined(lines, eol_of(crlf));
    assert forall|j: int| 0 <= j < lines.len() implies all_in(
        #[trigger] lines[j],
        CharClass::NotOne('\n'),
    ) by {
        assert(unbroken(lines[j]));
    }
    lemma_split_joined(lines, crlf);
    let pieces = split_on(s, '\n');
    let last = lines[lines.len() - 1];
    lemma_joined_last(lines, eol_of(crlf));
    assert(!has_suffix(s, "\n"@)) by {
        if has_suffix(s, "\n"@) {
            assert(s.subrange(s.len() - 1, s.len() as int)[0] == '\n');
            assert(in_class(last[last.len() - 1], CharClass::NotOne('\n')));
        }
    }
    let want = Seq::new(
        lines.len(),
        |j: int| RawText { body: lines[j], had_crlf: crlf && j < lines.len() - 1 },
    );
    assert forall|j: int| 0 <= j < lines.len() implies raw_of(#[trigger] pieces[j]) == want[j] by {
        assert(pieces[j] == joined_piece(lines, crlf, j));
        lemma_raw_of(lines[j], crlf && j < lines.len() - 1);
    }
    assert(source_lines(s) =~= want);
}

/// A line break that a comment may end in.
pub open spec fn is_break(brk: Seq<char>) -> bool {
    brk.len() == 0 || brk == "\n"@ || brk == "\r\n"@
}

/// The source lines of joined lines are those lines, with a line break behind
/// them and without one.
pub proof fn lemma_ended_lines(lines: Seq<Seq<char>>, crlf: bool, brk: Seq<char>)
    requires
        lines.len() > 0,
        lines.last().len() > 0,
        forall|j: int| 0 <= j < lines.len() ==> unbroken(#[trigger] lines[j]),
        is_break(brk),
    ensures
        ({
            let raw = source_lines(joined(lines, eol_of(crlf)) + brk);
            &&& raw.len() == lines.len()
            &&& forall|j: int| 0 <= j < lines.len() ==> (#[trigger] raw[j]).body == lines[j]
            &&& forall|j: int| 0 <= j < lines.len() - 1 ==> (#[trigger] raw[j]).had_crlf == crlf
        }),
{
    let s = joined(lines, eol_of(crlf));
    if brk.len() == 0 {
        assert(s + brk =~= s);
        lemma_source_lines(lines, crlf);
    } else {
        reveal_strlit("\n");
        reveal_strlit("\r\n");
        assert forall|j: int| 0 <= j < lines.len() implies all_in(
            #[trigger] lines[j],
            CharClass::NotOne('\n'),
        ) by {
            assert(unbroken(lines[j]));
        }
        lemma_split_joined(lines, crlf);
        let none = Seq::<char>::empty();
        let cr = brk == "\r\n"@;
        lemma_split_more(s, none, cr);
        assert(s + eol_of(cr) + none =~= s + brk);
        let t = s + brk;
        assert(t.subrange(t.len() - 1, t.len() as int) =~= "\n"@);
        let pieces = split_on(t, '\n');
        let raw = source_lines(t);
        assert forall|j: int| 0 <= j < lines.len() implies (#[trigger] raw[j]).body == lines[j] && (
        j < lines.len() - 1 ==> raw[j].had_crlf == crlf) by {
            assert(unbroken(lines[j]));
            lemma_raw_of(lines[j], crlf && j < lines.len() - 1);
            lemma_raw_of(lines[j], cr);
            if j < lines.len() - 1 {
                assert(pieces[j] == joined_piece(lines, crlf, j));
            } else {
                assert(joined_piece(lines, crlf, j) == lines[j]);
            }
            assert(raw[j] == raw_of(pieces[j]));
        }
    }
}

proof fn lemma_raw_of(l: Seq<char>, crlf: bool)
    requires
        unbroken(l),
    ensures
        raw_of(
            if crlf {
                l.push('\r')
            } else {
                l
            },
        ) == (RawText { body: l, had_crlf: crlf }),
{
    reveal_strlit("\r");
    if crlf {
        let p = l.push('\r');
        assert(p.subrange(p.len() - 1, p.len() as int) =~= "\r"@);
        assert(p.take(p.len() - 1) =~= l);
    } else if has_suffix(l, "\r"@) {
        assert(l.subrange(l.len() - 1, l.len() as int)[0] == '\r');
    }
}

/// A marker that a space behind it delimits.
pub open spec fn plain_marker(m: Seq<char>) -> bool {
    m == "//"@ || m == "///"@ || m == "//!"@ || m == "#!"@ || (m.len() > 0 && all_in(
        m,
        CharClass::One('#'),
    ))
}

pub proof fn lemma_marker_found(m: Seq<char>, rest: Seq<char>)
    requires
        plain_marker(m),
    ensures
        line_marker_of(m + seq![' '] + rest) == Some(m),
        m.len() > 0,
        !in_class(m[0], CharClass::Blank),
        !is_white(m[0]),
{
    reveal_strlit("///");
    reveal_strlit("//!");
    reveal_strlit("//");
    reveal_strlit("#!");
    let t = m + seq![' '] + rest;
    let a = "///"@;
    let b = "//!"@;
    let c = "//"@;
    let d = "#!"@;
    assert(t[m.len() as int] == ' ');
    if m == c {
        assert(t[2] == ' ');
        if has_prefix(t, a) {
            assert(t.subrange(0, 3)[2] == a[2]);
        }
        if has_prefix(t, b) {
            assert(t.subrange(0, 3)[2] == b[2]);
        }
        assert(t.subrange(0, 2) =~= c);
    } else if m == a {
        assert(t.subrange(0, 3) =~= a);
    } else if m == b {
        if has_prefix(t, a) {
            assert(t.subrange(0, 3)[2] == a[2]);
        }
        assert(t.subrange(0, 3) =~= b);
    } else {
        assert(t[0] == '#') by {
            if m == d {
                assert(t[0] == d[0]);
            } else {
                assert(in_class(m[0], CharClass::One('#')));
                assert(t[0] == m[0]);
            }
        }
        if has_prefix(t, a) {
            assert(t.subrange(0, 3)[0] == a[0]);
        }
        if has_prefix(t, b) {
            assert(t.subrange(0, 3)[0] == b[0]);
        }
        if has_prefix(t, c) {
            assert(t.subrange(0, 2)[0] == c[0]);
        }
        if m == d {
            assert(t.subrange(0, 2) =~= d);
        } else {
            if has_prefix(t, d) {
                assert(t.subrange(0, 2)[1] == d[1]);
                if m.len() > 1 {
                    assert(in_class(m[1], CharClass::One('#')));
                    assert(t[1] == m[1]);
                } else {
                    assert(t[1] == ' ');
                }
            }
            assert forall|i: int| 0 <= i < m.len() implies in_class(
                #[trigger] t[i],
                CharClass::One('#'),
            ) by {
                assert(t[i] == m[i]);
            }
            lemma_lead_len(t, CharClass::One('#'), m.len() as int);
            assert(lead_run(t, CharClass::One('#')) =~= m);
        }
    }
}

/// A line of a line comment is stripped to its text.
pub proof fn lemma_stripped(indent: Seq<char>, m: Seq<char>, body: Seq<char>)
    requires
        all_in(indent, CharClass::Blank),
        plain_marker(m),
    ensures
        line_marker_stripped(indent + m + " "@ + body).1 == body,
{
    reveal_strlit(" ");
    lemma_marker_found(m, body);
    let line = indent + m + " "@ + body;
    let t = m + seq![' '] + body;
    assert(line =~= indent + t);
    assert forall|i: int| 0 <= i < indent.len() implies in_class(
        #[trigger] line[i],
        CharClass::Blank,
    ) by {
        assert(line[i] == indent[i]);
    }
    assert(line[indent.len() as int] == m[0]);
    lemma_lead_len(line, CharClass::Blank, indent.len() as int);
    assert(after_lead(line, CharClass::Blank) =~= t);
    let rest = t.skip(m.len() as int);
    assert(rest =~= " "@ + body);
    assert(rest.subrange(0, 1) =~= " "@);
    assert(rest.skip(1) =~= body);
}

/// A line holds words set apart by single spaces.
pub proof fn lemma_line_shape(words: Seq<Seq<char>>, a: int, b: int)
    requires
        all_words(words),
        0 <= a < b <= words.len(),
    ensures
        ({
            let l = line_text(words, a, b);
            &&& l.len() > 0
            &&& !is_white(l[0])
            &&& !is_white(l.last())
            &&& single_spaced(l)
            &&& all_in(l, CharClass::NotOne('\n'))
            &&& trimmed(l) == l
        }),
    decreases b - a,
{
    reveal_strlit(" ");
    let part = words.subrange(a, b);
    let l = line_text(words, a, b);
    assert(is_word(words[b - 1]));
    let w = words[b - 1];
    assert forall|i: int| 0 <= i < w.len() implies !is_white(#[trigger] w[i]) by {
        assert(in_class(w[i], CharClass::Solid));
    }
    if a + 1 == b {
        assert(part[0] == w);
        assert(l == w);
        assert(all_in(l, CharClass::NotOne('\n'))) by {
            assert forall|i: int| 0 <= i < l.len() implies in_class(
                #[trigger] l[i],
                CharClass::NotOne('\n'),
            ) by {
                assert(!is_white(w[i]));
            }
        }
        assert(single_spaced(l)) by {
            assert forall|i: int| 0 <= i < l.len() && in_class(#[trigger] l[i], CharClass::Blank) implies l[i]
                == ' ' && (i + 1 < l.len() ==> !in_class(l[i + 1], CharClass::Blank)) by {
                assert(!is_white(w[i]));
            }
        }
    } else {
        lemma_line_shape(words, a, b - 1);
        let h = line_text(words, a, b - 1);
        assert(part.drop_last() =~= words.subrange(a, b - 1));
        assert(l == h + " "@ + w);
        assert(all_in(l, CharClass::NotOne('\n'))) by {
            assert forall|i: int| 0 <= i < l.len() implies in_class(
                #[trigger] l[i],
                CharClass::NotOne('\n'),
            ) by {
                if i < h.len() {
                    assert(l[i] == h[i]);
                    assert(in_class(h[i], CharClass::NotOne('\n')));
                } else if i > h.len() {
                    assert(l[i] == w[i - h.len() - 1]);
                    assert(!is_white(w[i - h.len() - 1]));
                }
            }
        }
        assert(single_spaced(l)) by {
            assert forall|i: int| 0 <= i < l.len() && in_class(#[trigger] l[i], CharClass::Blank) implies l[i]
                == ' ' && (i + 1 < l.len() ==> !in_class(l[i + 1], CharClass::Blank)) by {
                if i < h.len() {
                    assert(l[i] == h[i]);
                    assert(in_class(h[i], CharClass::Blank));
                    if i + 1 < h.len() {
                        assert(l[i + 1] == h[i + 1]);
                    } else {
                        assert(h[i] == h.last());
                    }
                } else if i == h.len() {
                    assert(l[i + 1] == w[0]);
                    assert(!is_white(w[0]));
                } else {
                    assert(l[i] == w[i - h.len() - 1]);
                    assert(!is_white(w[i - h.len() - 1]));
                }
            }
        }
        assert(l[0] == h[0]);
        assert(l.last() == w.last());
    }
    lemma_lead_len(l, CharClass::White, 0);
    assert(trimmed_start(l) =~= l);
    lemma_trail_len(l, CharClass::White, 0);
    assert(trimmed_end(l) =~= l);
}

/// Two stretches of words with a space between them are one stretch.
pub proof fn lemma_lines_join(words: Seq<Seq<char>>, a: int, b: int)
    requires
        0 < a < b <= words.len(),
    ensures
        line_text(words, 0, a) + " "@ + line_text(words, a, b) == line_text(words, 0, b),
    decreases b - a,
{
    let whole = words.subrange(0, b);
    assert(whole.drop_last() =~= words.subrange(0, b - 1));
    assert(line_text(words, 0, b) == line_text(words, 0, b - 1) + " "@ + words[b - 1]);
    if b == a + 1 {
        assert(words.subrange(a, b)[0] == words[a]);
        assert(line_text(words, a, b) == words[a]);
    } else {
        lemma_lines_join(words, a, b - 1);
        let part = words.subrange(a, b);
        assert(part.drop_last() =~= words.subrange(a, b - 1));
        assert(line_text(words, a, b) == line_text(words, a, b - 1) + " "@ + words[b - 1]);
        assert(line_text(words, 0, a) + " "@ + (line_text(words, a, b - 1) + " "@ + words[b - 1])
            =~= line_text(words, 0, a) + " "@ + line_text(words, a, b - 1) + " "@ + words[b - 1]);
    }
}

pub proof fn lemma_joined_opens(lines: Seq<Seq<char>>, sep: Seq<char>)
    requires
        lines.len() > 0,
    ensures
        joined(lines, sep).len() >= lines[0].len(),
        joined(lines, sep).take(lines[0].len() as int) == lines[0],
    decreases lines.len(),
{
    let s = joined(lines, sep);
    if lines.len() == 1 {
        assert(s.take(lines[0].len() as int) =~= lines[0]);
    } else {
        let head = lines.drop_last();
        lemma_joined_opens(head, sep);
        let h = joined(head, sep);
        assert(head[0] == lines[0]);
        assert(s.take(lines[0].len() as int) =~= h.take(lines[0].len() as int));
    }
}

/// A text that ends in no closer does not end in one behind a space either.
pub proof fn lemma_no_closer(lead: Seq<char>, body: Seq<char>)
    requires
        body.len() > 0,
        lead.len() > 0,
        lead.last() == ' ',
        !has_suffix(body, "*/"@),
    ensures
        !has_suffix(lead + body, "*/"@),
{
    reveal_strlit("*/");
    let s = lead + body;
    if has_suffix(s, "*/"@) {
        let p = s.subrange(s.len() - 2, s.len() as int);
        assert(p[0] == '*' && p[1] == '/');
        if body.len() >= 2 {
            assert(body.subrange(body.len() - 2, body.len() as int) =~= p);
        } else {
            assert(p[0] == s[lead.len() - 1]);
        }
    }
}

/// The marker opens a block of that style.
pub open spec fn block_opener(m: Seq<char>, style: Style) -> bool {
    if style == Style::DocBlock {
        m == "/**"@ || m == "/*!"@
    } else {
        style == Style::Block && (m == "/*"@ || m == "/*-"@)
    }
}

/// What may follow the opener of an emitted block.
pub open spec fn opener_ends(tail: Seq<char>) -> bool {
    tail.len() > 0 && (tail[0] == ' ' || tail[0] == '\n' || tail[0] == '\r')
}

proof fn lemma_third(t: Seq<char>, p: Seq<char>)
    requires
        has_prefix(t, p),
    ensures
        t.len() >= p.len(),
        forall|i: int| 0 <= i < p.len() ==> t[i] == #[trigger] p[i],
{
    let h = t.subrange(0, p.len() as int);
    assert forall|i: int| 0 <= i < p.len() implies t[i] == #[trigger] p[i] by {
        assert(h[i] == t[i]);
    }
}

/// The opener of a block is found again, and with it the style.
pub proof fn lemma_opener_found(m: Seq<char>, style: Style, tail: Seq<char>)
    requires
        block_opener(m, style),
        opener_ends(tail),
    ensures
        block_marker_of(m + tail) == Some(m),
        style_of(m + tail) == style,
        m.len() >= 2,
        m[0] == '/',
{
    reveal_strlit("/*");
    reveal_strlit("/**");
    reveal_strlit("/*!");
    reveal_strlit("/*-");
    reveal_strlit("/*--");
    reveal_strlit("///");
    reveal_strlit("//!");
    let t = m + tail;
    let n = m.len() as int;
    assert(t[n] == tail[0]);
    assert(t.subrange(0, n) =~= m);
    assert(m[0] == '/' && m[1] == '*');
    assert(t[1] == m[1]);
    if has_prefix(t, "///"@) {
        lemma_third(t, "///"@);
        assert("///"@[1] == '/');
    }
    if has_prefix(t, "//!"@) {
        lemma_third(t, "//!"@);
        assert("//!"@[1] == '/');
    }
    assert(t.subrange(0, 2) =~= "/*"@);
    if m == "/**"@ {
        assert(t.skip(3) =~= tail);
    } else {
        if has_prefix(t, "/**"@) {
            lemma_third(t, "/**"@);
            assert("/**"@[2] == '*');
        }
        if m != "/*!"@ && has_prefix(t, "/*!"@) {
            lemma_third(t, "/*!"@);
            assert("/*!"@[2] == '!');
        }
        if m == "/*"@ && has_prefix(t, "/*-"@) {
            lemma_third(t, "/*-"@);
            assert("/*-"@[2] == '-');
        }
        if m == "/*-"@ && has_prefix(t, "/*--"@) {
            lemma_third(t, "/*--"@);
            assert("/*--"@[3] == '-');
        }
    }
}

/// What is behind the opener on the first row.
proof fn lemma_opener_rest(m: Seq<char>, style: Style, x: Seq<char>, last: bool)
    requires
        block_opener(m, style),
    ensures
        ({
            let t = m + " "@ + x;
            let text = if last && has_suffix(x, "*/"@) {
                trimmed_end(x.take(x.len() - 2))
            } else {
                x
            };
            crate::normalize::opener_stripped(Seq::empty(), t, style, last) == Some(
                (Seq::<char>::empty() + m + " "@, text),
            )
        }),
{
    reveal_strlit("/*");
    reveal_strlit("/**");
    reveal_strlit("/*!");
    reveal_strlit("/*-");
    reveal_strlit("/*--");
    reveal_strlit(" ");
    let t = m + " "@ + x;
    let n = m.len() as int;
    assert(t[n] == ' ');
    assert(t.subrange(0, n) =~= m);
    assert(t[0] == m[0] && t[1] == m[1]);
    assert(t.subrange(0, 2) =~= "/*"@);
    if m != "/**"@ && has_prefix(t, "/**"@) {
        lemma_third(t, "/**"@);
        assert("/**"@[2] == '*');
    }
    if m != "/*-"@ && has_prefix(t, "/*-"@) {
        lemma_third(t, "/*-"@);
        assert("/*-"@[2] == '-');
    }
    if has_prefix(t, "/*--"@) {
        lemma_third(t, "/*--"@);
        assert("/*--"@[2] == '-' && "/*--"@[3] == '-');
    }
    let rest = t.skip(n);
    assert(rest =~= " "@ + x);
    assert(rest.subrange(0, 1) =~= " "@);
    assert(rest.skip(1) =~= x);
}

/// The first row of a block holds its text behind the opener.
pub proof fn lemma_opener_row(m: Seq<char>, style: Style, x: Seq<char>)
    requires
        block_opener(m, style),
        x.len() > 0,
        !has_suffix(x, "*/"@),
    ensures
        line_stripped(m + " "@ + x, style, true, false).1 == x,
{
    reveal_strlit(" ");
    let line = m + " "@ + x;
    assert(seq![' '] =~= " "@);
    lemma_opener_found(m, style, " "@ + x);
    assert(m + (" "@ + x) =~= line);
    assert(line[0] == m[0]);
    lemma_lead_len(line, CharClass::Blank, 0);
    assert(after_lead(line, CharClass::Blank) =~= line);
    assert(lead_run(line, CharClass::Blank) =~= Seq::empty());
    lemma_no_closer(m + " "@, x);
    lemma_opener_rest(m, style, x, false);
}

/// The only row of a block holds its text between opener and closer.
pub proof fn lemma_only_row(m: Seq<char>, style: Style, x: Seq<char>)
    requires
        block_opener(m, style),
        x.len() > 0,
        !is_white(x.last()),
    ensures
        line_stripped(m + " "@ + x + " */"@, style, true, true).1 == x,
{
    reveal_strlit(" ");
    reveal_strlit(" */");
    reveal_strlit("*/");
    let line = m + " "@ + x + " */"@;
    let y = x + " */"@;
    assert(line =~= m + " "@ + y);
    lemma_opener_found(m, style, " "@ + y);
    assert(m + (" "@ + y) =~= line);
    assert(line[0] == m[0]);
    lemma_lead_len(line, CharClass::Blank, 0);
    assert(after_lead(line, CharClass::Blank) =~= line);
    assert(lead_run(line, CharClass::Blank) =~= Seq::empty());
    lemma_opener_rest(m, style, y, true);
    assert(y.subrange(y.len() - 2, y.len() as int) =~= "*/"@);
    let z = y.take(y.len() - 2);
    assert(z =~= x + " "@);
    assert(z.last() == ' ');
    assert(z[z.len() - 2] == x.last());
    lemma_trail_len(z, CharClass::White, 1);
    assert(trimmed_end(z) =~= x);
}

/// An opener and a closer on one row have no text between them.
pub proof fn lemma_empty_row(m: Seq<char>, style: Style)
    requires
        block_opener(m, style),
    ensures
        line_stripped(m + " */"@, style, true, true).1.len() == 0,
{
    reveal_strlit(" ");
    reveal_strlit(" */");
    reveal_strlit("*/");
    let line = m + " */"@;
    let y = "*/"@;
    assert(line =~= m + " "@ + y);
    lemma_opener_found(m, style, " "@ + y);
    assert(line[0] == m[0]);
    lemma_lead_len(line, CharClass::Blank, 0);
    assert(after_lead(line, CharClass::Blank) =~= line);
    assert(lead_run(line, CharClass::Blank) =~= Seq::empty());
    lemma_opener_rest(m, style, y, true);
    assert(y.subrange(y.len() - 2, y.len() as int) =~= "*/"@);
    lemma_trail_len(y.take(0), CharClass::White, 0);
}

/// The opener of a header stands on a row without text.
pub proof fn lemma_header_row(m: Seq<char>, style: Style)
    requires
        block_opener(m, style),
    ensures
        line_stripped(m, style, true, false).1.len() == 0,
{
    reveal_strlit("/*");
    reveal_strlit("/**");
    reveal_strlit("/*!");
    reveal_strlit("/*-");
    reveal_strlit("/*--");
    reveal_strlit("*/");
    reveal_strlit(" ");
    lemma_lead_len(m, CharClass::Blank, 0);
    let t = after_lead(m, CharClass::Blank);
    assert(t =~= m);
    if has_suffix(t, "*/"@) {
        assert(t.subrange(t.len() - 2, t.len() as int)[1] == '/');
        assert(t.last() == '/');
    }
    assert(t.subrange(0, t.len() as int) =~= m);
    assert(t.subrange(0, 2) =~= "/*"@);
    if m != "/**"@ && has_prefix(t, "/**"@) {
        lemma_third(t, "/**"@);
        assert("/**"@[2] == '*');
    }
    if m != "/*-"@ && has_prefix(t, "/*-"@) {
        lemma_third(t, "/*-"@);
        assert("/*-"@[2] == '-');
    }
    assert(t.skip(t.len() as int).len() == 0);
}

proof fn lemma_indented(indent: Seq<char>, rest: Seq<char>)
    requires
        all_in(indent, CharClass::Blank),
        rest.len() >= 2,
        rest[0] == ' ',
        rest[1] == '*',
    ensures
        ({
            let line = indent + rest;
            &&& lead_run(line, CharClass::Blank) == indent + " "@
            &&& after_lead(line, CharClass::Blank) == rest.skip(1)
            &&& lead_len(line, CharClass::Blank) == indent.len() + 1
        }),
{
    reveal_strlit(" ");
    let line = indent + rest;
    let ws = indent + " "@;
    assert forall|i: int| 0 <= i < ws.len() implies in_class(#[trigger] line[i], CharClass::Blank) by {
        if i < indent.len() {
            assert(line[i] == indent[i]);
            assert(in_class(indent[i], CharClass::Blank));
        }
    }
    assert(line[ws.len() as int] == rest[1]);
    lemma_lead_len(line, CharClass::Blank, ws.len() as int);
    assert(lead_run(line, CharClass::Blank) =~= ws);
    assert(after_lead(line, CharClass::Blank) =~= rest.skip(1));
}

/// A row that starts with a star is no block by itself.
proof fn lemma_no_member(ws: Seq<char>, t: Seq<char>, first: bool)
    requires
        t.len() > 0,
        t[0] == '*',
    ensures
        member_stripped(ws, t, first) is None,
{
    reveal_strlit("/*");
    reveal_strlit("/**");
    reveal_strlit("/*!");
    if has_prefix(t, "/*"@) {
        lemma_third(t, "/*"@);
        assert("/*"@[0] == '/');
    }
    if has_prefix(t, "/**"@) {
        lemma_third(t, "/**"@);
        assert("/**"@[0] == '/');
    }
    if has_prefix(t, "/*!"@) {
        lemma_third(t, "/*!"@);
        assert("/*!"@[0] == '/');
    }
}

/// A continuation row holds its text behind the star.
pub proof fn lemma_star_row(indent: Seq<char>, x: Seq<char>, style: Style)
    requires
        all_in(indent, CharClass::Blank),
        is_block(style),
    ensures
        line_stripped(indent + " * "@ + x, style, false, false).1 == x,
{
    reveal_strlit("* ");
    reveal_strlit(" * ");
    let rest = " * "@ + x;
    assert(indent + " * "@ + x =~= indent + rest);
    lemma_indented(indent, rest);
    let t = rest.skip(1);
    assert(t =~= "* "@ + x);
    lemma_no_member(indent + " "@, t, false);
    assert(t.subrange(0, 2) =~= "* "@);
    assert(t.skip(2) =~= x);
}

/// A row of nothing but the star has no text.
pub proof fn lemma_bare_row(indent: Seq<char>, style: Style)
    requires
        all_in(indent, CharClass::Blank),
        is_block(style),
    ensures
        line_stripped(indent + " *"@, style, false, false).1.len() == 0,
{
    reveal_strlit("* ");
    reveal_strlit(" *");
    reveal_strlit("*");
    lemma_indented(indent, " *"@);
    let t = " *"@.skip(1);
    lemma_no_member(indent + " "@, t, false);
    assert(t.subrange(0, 1) =~= "*"@);
}

/// The closer row has no text.
pub proof fn lemma_closer_row(indent: Seq<char>, style: Style)
    requires
        all_in(indent, CharClass::Blank),
        is_block(style),
    ensures
        line_stripped(indent + " */"@, style, false, true).1.len() == 0,
{
    reveal_strlit(" */");
    reveal_strlit("*/");
    reveal_strlit("**/");
    lemma_indented(indent, " */"@);
    let t = " */"@.skip(1);
    lemma_no_member(indent + " "@, t, false);
    assert(t.subrange(0, 2) =~= "*/"@);
    assert(t.take(0).len() == 0);
    lemma_lead_len(t.take(0), CharClass::Two(' ', '*'), 0);
}

/// White space around a marker is trimmed.
proof fn lemma_trim_marker(ws: Seq<char>, stars: Seq<char>)
    requires
        all_in(ws, CharClass::Blank),
        stars.len() > 0,
        all_in(stars, CharClass::One('*')),
    ensures
        trimmed(ws + (" "@ + stars + " "@)) == stars,
{
    reveal_strlit(" ");
    let s = ws + (" "@ + stars + " "@);
    let n = ws.len() + 1;
    assert forall|i: int| 0 <= i < n implies in_class(#[trigger] s[i], CharClass::White) by {
        if i < ws.len() {
            assert(s[i] == ws[i]);
            assert(in_class(ws[i], CharClass::Blank));
        }
    }
    assert(s[n as int] == stars[0]);
    lemma_lead_len(s, CharClass::White, n as int);
    let t = trimmed_start(s);
    assert(t =~= stars + " "@);
    assert(t[t.len() - 2] == stars[stars.len() - 1]);
    lemma_trail_len(t, CharClass::White, 1);
    assert(trimmed(s) =~= stars);
}

/// The rows of a block go on behind a star, whatever they went on behind.
pub proof fn lemma_block_prefix(plain: Seq<StrippedText>, raw: Seq<RawText>, style: Style)
    requires
        is_block(style),
        plain.len() == raw.len(),
        forall|i: int|
            0 <= i < plain.len() ==> (#[trigger] plain[i]).prefix == lines_stripped(
                raw,
                style,
            )[i].prefix,
    ensures
        continuation_prefix(plain) == " * "@,
{
    reveal_strlit(" ");
    reveal_strlit("*");
    reveal_strlit(" * ");
    reveal_strlit(" ** ");
    if plain.len() >= 3 {
        assert(plain[1].prefix == lines_stripped(raw, style)[1].prefix);
        let line = raw[1].body;
        let ws = lead_run(line, CharClass::Blank);
        lemma_lead_len_facts(line, CharClass::Blank);
        let one = seq!['*'];
        let two = seq!['*', '*'];
        assert(" * "@ =~= " "@ + one + " "@);
        assert(" ** "@ =~= " "@ + two + " "@);
        lemma_trim_marker(ws, one);
        lemma_trim_marker(ws, two);
        assert(plain[1].prefix == ws + " * "@ || plain[1].prefix == ws + " ** "@);
    } else {
        assert(all_in("*"@, CharClass::One('*')));
    }
}

} // verus!
