//! Comments that other tools read are left as they are, and only these.

use crate::bytes::span;
use crate::comment::{comment_at, pinned, CommentText};
use crate::directive::{
    acsl_annotation, bare_body, bare_cr, bare_cr_at, cppcheck_suppress, formatter_directive,
    keyword_of_line, line_splice, lint_directive, lint_keyword, passthrough_directive,
    suppress_line,
};
use crate::language::Language;
use crate::plan_laws::law_directives_stay;
use crate::planner::comment_splices;
use crate::spacing_laws::lemma_trimmed_with;
use crate::text::{
    after_lead, all_in, before_trail, has_prefix, has_suffix, has_text, in_class, is_white,
    lead_len, lead_run, lemma_lead_len, lemma_lead_len_facts, lemma_trail_len,
    lemma_trail_len_facts, less_suffix, lines_of, sub_at, trail_len, trimmed, trimmed_end,
    trimmed_start, CharClass,
};
use vstd::prelude::*;
use vstd::utf8::encode_utf8;

verus! {

/// What is in the class in front of a text is dropped, up to what is not.
pub proof fn lemma_lead_dropped(m: Seq<char>, rest: Seq<char>, k: CharClass)
    requires
        all_in(m, k),
        rest.len() == 0 || !in_class(rest[0], k),
    ensures
        after_lead(m + rest, k) == rest,
        lead_run(m + rest, k) == m,
{
    let s = m + rest;
    assert forall|i: int| 0 <= i < m.len() implies in_class(#[trigger] s[i], k) by {
        assert(s[i] == m[i]);
    }
    if rest.len() > 0 {
        assert(s[m.len() as int] == rest[0]);
    }
    lemma_lead_len(s, k, m.len() as int);
    assert(after_lead(s, k) =~= rest);
    assert(lead_run(s, k) =~= m);
}

/// What is in the class behind a text is dropped, down to what is not.
pub proof fn lemma_trail_dropped(rest: Seq<char>, m: Seq<char>, k: CharClass)
    requires
        all_in(m, k),
        rest.len() == 0 || !in_class(rest.last(), k),
    ensures
        before_trail(rest + m, k) == rest,
{
    let s = rest + m;
    let n = m.len() as int;
    assert forall|i: int| s.len() - n <= i < s.len() implies in_class(#[trigger] s[i], k) by {
        assert(s[i] == m[i - rest.len()]);
    }
    if rest.len() > 0 {
        assert(s[s.len() - n - 1] == rest.last());
    }
    lemma_trail_len(s, k, n);
    assert(before_trail(s, k) =~= rest);
}

/// A text in white space is what trimming leaves.
pub proof fn lemma_trimmed_is(a: Seq<char>, d: Seq<char>, b: Seq<char>)
    requires
        all_in(a, CharClass::White),
        all_in(b, CharClass::White),
        d.len() > 0,
        !is_white(d[0]),
        !is_white(d.last()),
    ensures
        trimmed(a + d + b) == d,
        trimmed_start(a + d + b) == d + b,
{
    lemma_trimmed_with(a + d, b);
    lemma_lead_dropped(a, d, CharClass::White);
    lemma_trail_dropped(d, Seq::empty(), CharClass::White);
    assert(d + Seq::<char>::empty() =~= d);
    assert(a + d + b =~= a + (d + b));
    assert((d + b)[0] == d[0]);
    lemma_lead_dropped(a, d + b, CharClass::White);
}

/// The comment's text is a switch for the formatter: `clang-format off` or `clang-format on`
/// behind the marker, alone or with a colon and a reason behind it.
pub open spec fn is_formatter_switch(text: Seq<char>) -> bool {
    exists|a: Seq<char>, d: Seq<char>, r: Seq<char>, b: Seq<char>|
        #[trigger] switch_parts(a, d, r, b) && (text == "//"@ + a + d + r + b || text == "/*"@ + a + d
            + r + b + "*/"@)
}

/// White space, the switch, nothing or a colon and what follows, and white space.
pub open spec fn switch_parts(a: Seq<char>, d: Seq<char>, r: Seq<char>, b: Seq<char>) -> bool {
    &&& all_in(a, CharClass::White)
    &&& all_in(b, CharClass::White)
    &&& d == "clang-format off"@ || d == "clang-format on"@
    &&& r.len() == 0 || (r[0] == ':' && !is_white(r.last()) && r.last() != '/' && r.last() != '*')
}

proof fn lemma_switch_body(m: Seq<char>, a: Seq<char>, d: Seq<char>, r: Seq<char>, b: Seq<char>, z: Seq<char>)
    requires
        all_in(m, CharClass::Two('/', '*')),
        all_in(z, CharClass::Two('/', '*')),
        switch_parts(a, d, r, b),
    ensures
        bare_body(m + a + d + r + b + z) == d + r,
        formatter_directive(m + a + d + r + b + z),
{
    reveal_strlit("clang-format off");
    reveal_strlit("clang-format on");
    reveal_strlit("clang-format off:");
    reveal_strlit("clang-format on:");
    let k = CharClass::Two('/', '*');
    let body = a + d + r + b + z;
    let text = m + a + d + r + b + z;
    assert(text =~= m + body);
    assert(!in_class(body[0], k)) by {
        if a.len() > 0 {
            assert(body[0] == a[0]);
            assert(in_class(a[0], CharClass::White));
        } else {
            assert(body[0] == d[0]);
        }
    }
    lemma_lead_dropped(m, body, k);
    let mid = a + d + r + b;
    assert(body =~= mid + z);
    assert(!in_class(mid.last(), k)) by {
        if b.len() > 0 {
            assert(mid.last() == b.last());
            assert(in_class(b[b.len() - 1], CharClass::White));
        } else if r.len() > 0 {
            assert(mid.last() == r.last());
        } else {
            assert(mid.last() == d.last());
        }
    }
    lemma_trail_dropped(mid, z, k);
    let core = d + r;
    assert(core[0] == d[0]);
    if r.len() > 0 {
        assert(core.last() == r.last());
    } else {
        assert(core =~= d);
    }
    lemma_trimmed_is(a, core, b);
    assert(a + core + b =~= mid);
    if r.len() > 0 {
        let n = d.len() as int;
        if d == "clang-format off"@ {
            assert(core.subrange(0, n + 1) =~= "clang-format off:"@);
        } else {
            assert(core.subrange(0, n + 1) =~= "clang-format on:"@);
        }
    }
}

proof fn lemma_switch(text: Seq<char>)
    requires
        is_formatter_switch(text),
    ensures
        formatter_directive(text),
{
    reveal_strlit("//");
    reveal_strlit("/*");
    reveal_strlit("*/");
    let none = Seq::<char>::empty();
    let (a, d, r, b) = choose|a: Seq<char>, d: Seq<char>, r: Seq<char>, b: Seq<char>|
        #[trigger] switch_parts(a, d, r, b) && (text == "//"@ + a + d + r + b || text == "/*"@ + a + d
            + r + b + "*/"@);
    if text == "//"@ + a + d + r + b {
        lemma_switch_body("//"@, a, d, r, b, none);
        assert("//"@ + a + d + r + b + none =~= text);
    } else {
        lemma_switch_body("/*"@, a, d, r, b, "*/"@);
    }
}

/// The words that a linter's instruction starts with, by language.
pub open spec fn names_linter(k: Seq<char>, lang: Language) -> bool {
    if lang == Language::C || lang == Language::Cpp {
        ||| k == "NOLINT"@
        ||| k == "NOLINTNEXTLINE"@
        ||| k == "NOLINTBEGIN"@
        ||| k == "NOLINTEND"@
        ||| k == "coverity"@
        ||| k == "IWYU"@
        ||| k == "NOSONAR"@
    } else if lang == Language::Shell {
        k == "shellcheck"@
    } else {
        lang == Language::Rust && k == "cbindgen"@
    }
}

/// The comment starts with an instruction for a linter: the marker, white space, the word,
/// and then the end of the line, white space or the start of an argument.
pub open spec fn is_linter_line(m: Seq<char>, a: Seq<char>, k: Seq<char>, r: Seq<char>, lang: Language) -> bool {
    &&& m.len() > 0
    &&& forall|i: int|
        0 <= i < m.len() ==> #[trigger] m[i] == '/' || m[i] == '*' || m[i] == '#'
    &&& all_in(a, CharClass::Blank)
    &&& names_linter(k, lang)
    &&& r.len() == 0 || is_white(r[0]) || r[0] == '(' || r[0] == '[' || r[0] == ':' || r[0] == '='
}

/// The keyword of such a line.
proof fn lemma_linter_keyword(m: Seq<char>, a: Seq<char>, k: Seq<char>, r: Seq<char>, lang: Language)
    requires
        is_linter_line(m, a, k, r, lang),
        all_in(r, CharClass::NotOne('\n')),
    ensures
        keyword_of_line(m + a + k + r) == k,
{
    reveal_strlit("NOLINT");
    reveal_strlit("NOLINTNEXTLINE");
    reveal_strlit("NOLINTBEGIN");
    reveal_strlit("NOLINTEND");
    reveal_strlit("coverity");
    reveal_strlit("IWYU");
    reveal_strlit("NOSONAR");
    reveal_strlit("shellcheck");
    reveal_strlit("cbindgen");
    let line = m + a + k + r;
    let three = CharClass::Three('/', '*', '#');
    assert(k.len() > 0 && !is_white(k[0]) && !is_white(k.last()));
    assert(all_in(k, CharClass::KeywordText));
    let front = m + a + k;
    let tail = trimmed_end(r);
    lemma_trail_len_facts(r, CharClass::White);
    let w = r.skip(tail.len() as int);
    assert(r =~= tail + w);
    assert(all_in(w, CharClass::White)) by {
        assert forall|i: int| 0 <= i < w.len() implies in_class(#[trigger] w[i], CharClass::White) by {
            assert(w[i] == r[tail.len() + i]);
        }
    }
    let core = front + tail;
    assert(line =~= core + w);
    assert(core[0] == m[0]);
    assert(!is_white(m[0])) by {
        assert(m[0] == '/' || m[0] == '*' || m[0] == '#');
    }
    assert(!is_white(core.last())) by {
        if tail.len() > 0 {
            assert(core.last() == tail.last());
            assert(tail.last() == r[tail.len() - 1]);
        } else {
            assert(core =~= front);
            assert(core.last() == k.last());
        }
    }
    let none = Seq::<char>::empty();
    lemma_trimmed_is(none, core, w);
    assert(none + core + w =~= line);
    let body = a + k + tail;
    assert(core =~= m + body);
    assert(!in_class(body[0], three)) by {
        if a.len() > 0 {
            assert(body[0] == a[0]);
            assert(in_class(a[0], CharClass::Blank));
        } else {
            assert(body[0] == k[0]);
        }
    }
    assert(all_in(m, three)) by {
        assert forall|i: int| 0 <= i < m.len() implies in_class(#[trigger] m[i], three) by {}
    }
    lemma_lead_dropped(m, body, three);
    let kt = k + tail;
    assert(body =~= a + kt);
    assert(kt[0] == k[0]);
    assert(all_in(a, CharClass::White)) by {
        assert forall|i: int| 0 <= i < a.len() implies in_class(#[trigger] a[i], CharClass::White) by {
            assert(in_class(a[i], CharClass::Blank));
        }
    }
    lemma_lead_dropped(a, kt, CharClass::White);
    if tail.len() > 0 {
        assert(tail[0] == r[0]);
    }
    lemma_lead_dropped(k, tail, CharClass::KeywordText);
}

/// The first line of a text.
proof fn lemma_first_of(line: Seq<char>, rest: Seq<char>)
    requires
        line.len() > 0,
        all_in(line, CharClass::NotOne('\n')),
        line.last() != '\r',
        rest.len() == 0 || rest[0] == '\n' || (rest.len() > 1 && rest[0] == '\r' && rest[1] == '\n'),
    ensures
        lines_of(line + rest).len() > 0,
        lines_of(line + rest)[0] == line,
{
    let s = line + rest;
    let k = CharClass::NotOne('\n');
    if rest.len() == 0 {
        assert(s =~= line);
        lemma_lead_len(s, k, s.len() as int);
    } else {
        let cr = if rest[0] == '\n' {
            Seq::<char>::empty()
        } else {
            seq!['\r']
        };
        let n = (line.len() + cr.len()) as int;
        assert forall|i: int| 0 <= i < n implies in_class(#[trigger] s[i], k) by {
            if i < line.len() {
                assert(s[i] == line[i]);
                assert(in_class(line[i], k));
            } else {
                assert(s[i] == rest[0]);
            }
        }
        assert(s[n] == '\n') by {
            assert(s[n] == rest[n - line.len()]);
        }
        lemma_lead_len(s, k, n);
        let got = s.take(n);
        assert(got =~= line + cr);
        if cr.len() > 0 {
            assert(got.subrange(got.len() - 1, got.len() as int) =~= seq!['\r']);
            assert(got.take(got.len() - 1) =~= line);
        } else {
            assert(got =~= line);
            if has_suffix(got, seq!['\r']) {
                assert(got.subrange(got.len() - 1, got.len() as int)[0] == got.last());
            }
        }
    }
}

/// The comment is one that another tool reads: it switches the formatter, instructs a
/// linter, suppresses a warning, or is an annotation.
pub open spec fn is_for_a_tool(text: Seq<char>, lang: Language) -> bool {
    ||| is_formatter_switch(text)
    ||| exists|m: Seq<char>, a: Seq<char>, k: Seq<char>, r: Seq<char>, more: Seq<char>|
        text == #[trigger] (m + a + k + r + more) && is_linter_line(m, a, k, r, lang)
            && starts_line_below(m + a + k + r, more)
    ||| exists|above: Seq<char>, m: Seq<char>, r: Seq<char>|
        text == #[trigger] (above + m + "cppcheck-suppress"@ + r) && suppresses(above, m, r)
    ||| (lang == Language::C || lang == Language::Cpp) && (has_prefix(text, "/*@"@) || has_prefix(
        text,
        "//@"@,
    ))
}

/// The line ends where `more` starts.
pub open spec fn starts_line_below(line: Seq<char>, more: Seq<char>) -> bool {
    &&& all_in(line, CharClass::NotOne('\n'))
    &&& line.last() != '\r'
    &&& more.len() == 0 || more[0] == '\n' || (more.len() > 1 && more[0] == '\r' && more[1]
        == '\n')
}

/// The marker in front of the word: spaces, slashes and stars, and spaces.
pub open spec fn marker_parts(m: Seq<char>, i: int, j: int) -> bool {
    &&& 0 <= i <= j <= m.len()
    &&& forall|t: int| 0 <= t < i ==> #[trigger] m[t] == ' '
    &&& forall|t: int| i <= t < j ==> #[trigger] m[t] == '/' || m[t] == '*'
    &&& forall|t: int| j <= t < m.len() ==> #[trigger] m[t] == ' '
}

/// Whole lines, the marker in front of the word, and behind it the end, a blank, a bracket or
/// a dash.
pub open spec fn suppresses(above: Seq<char>, m: Seq<char>, r: Seq<char>) -> bool {
    &&& above.len() == 0 || above.last() == '\n'
    &&& exists|i: int, j: int| #[trigger] marker_parts(m, i, j)
    &&& r.len() == 0 || r[0] == ' ' || r[0] == '\t' || r[0] == '[' || r[0] == '-' || r[0] == '\n'
}

proof fn lemma_linter(m: Seq<char>, a: Seq<char>, k: Seq<char>, r: Seq<char>, more: Seq<char>, lang: Language)
    requires
        is_linter_line(m, a, k, r, lang),
        starts_line_below(m + a + k + r, more),
    ensures
        lint_directive(m + a + k + r + more, lang),
{
    let line = m + a + k + r;
    assert(all_in(r, CharClass::NotOne('\n'))) by {
        assert forall|i: int| 0 <= i < r.len() implies in_class(
            #[trigger] r[i],
            CharClass::NotOne('\n'),
        ) by {
            assert(line[m.len() + a.len() + k.len() + i] == r[i]);
            assert(in_class(line[m.len() + a.len() + k.len() + i], CharClass::NotOne('\n')));
        }
    }
    lemma_linter_keyword(m, a, k, r, lang);
    lemma_first_of(line, more);
}

/// A line below whole lines is one of the lines.
proof fn lemma_line_below(above: Seq<char>, rest: Seq<char>) -> (i: int)
    requires
        above.len() == 0 || above.last() == '\n',
        lines_of(rest).len() > 0,
    ensures
        0 <= i < lines_of(above + rest).len(),
        lines_of(above + rest)[i] == lines_of(rest)[0],
    decreases above.len(),
{
    let s = above + rest;
    let k = CharClass::NotOne('\n');
    if above.len() == 0 {
        assert(s =~= rest);
        0
    } else {
        let n = lead_len(s, k) as int;
        lemma_lead_len_facts(s, k);
        let z = above.len() - 1;
        assert(s[z] == '\n');
        assert(n <= z) by {
            if n > z {
                assert(in_class(s[z], k));
            }
        }
        let less = above.skip(n + 1);
        assert(s.skip(n + 1) =~= less + rest);
        if less.len() > 0 {
            assert(less.last() == above.last());
        }
        let j = lemma_line_below(less, rest);
        j + 1
    }
}

proof fn lemma_suppress(above: Seq<char>, m: Seq<char>, r: Seq<char>)
    requires
        suppresses(above, m, r),
    ensures
        cppcheck_suppress(above + m + "cppcheck-suppress"@ + r),
{
    reveal_strlit("cppcheck-suppress");
    let d = "cppcheck-suppress"@;
    let text = above + m + d + r;
    let k = CharClass::NotOne('\n');
    let n = lead_len(r, k) as int;
    lemma_lead_len_facts(r, k);
    let r1 = r.take(n);
    let more = r.skip(n);
    let (i, j) = choose|i: int, j: int| #[trigger] marker_parts(m, i, j);
    let rest = m + d + r;
    let full = m + d + r1;
    assert(all_in(full, k)) by {
        assert forall|t: int| 0 <= t < full.len() implies in_class(#[trigger] full[t], k) by {
            if t < m.len() {
                assert(full[t] == m[t]);
                assert(m[t] == ' ' || m[t] == '/' || m[t] == '*');
            } else if t < m.len() + d.len() {
                assert(full[t] == d[t - m.len()]);
            } else {
                assert(full[t] == r[t - m.len() - d.len()]);
                assert(in_class(r[t - m.len() - d.len()], k));
            }
        }
    }
    let line = less_suffix(full, seq!['\r']);
    assert(lines_of(rest).len() > 0 && (lines_of(rest)[0] == line || lines_of(rest)[0] == full)) by {
        assert(rest =~= full + more);
        assert forall|t: int| 0 <= t < full.len() implies in_class(#[trigger] rest[t], k) by {
            assert(rest[t] == full[t]);
            assert(in_class(full[t], k));
        }
        if more.len() > 0 {
            assert(rest[full.len() as int] == r[n]);
        }
        lemma_lead_len(rest, k, full.len() as int);
        assert(rest.take(full.len() as int) =~= full);
        if more.len() == 0 {
            assert(rest =~= full);
        }
    }
    let got = lines_of(rest)[0];
    let r2 = if got == full {
        r1
    } else {
        less_suffix(r1, seq!['\r'])
    };
    assert(got == m + d + r2 && (r2 == r1 || (r1.len() > 0 && r2 == r1.drop_last()))) by {
        if got != full {
            assert(has_suffix(full, seq!['\r']));
            assert(full.subrange(full.len() - 1, full.len() as int)[0] == '\r');
            assert(full.last() == '\r');
            assert(r1.len() > 0) by {
                if r1.len() == 0 {
                    assert(full.last() == d.last());
                }
            }
            assert(r1.subrange(r1.len() - 1, r1.len() as int) =~= seq!['\r']);
            assert(full.take(full.len() - 1) =~= m + d + r1.drop_last());
            assert(r1.take(r1.len() - 1) =~= r1.drop_last());
        }
    }
    lemma_suppress_line(m, i, j, r2);
    let q = lemma_line_below(above, rest);
    assert(above + rest =~= text);
    assert(suppress_line(lines_of(text)[q]));
}

/// The line with the word is one that suppresses.
proof fn lemma_suppress_line(m: Seq<char>, i: int, j: int, r: Seq<char>)
    requires
        marker_parts(m, i, j),
        r.len() == 0 || r[0] == ' ' || r[0] == '\t' || r[0] == '[' || r[0] == '-',
    ensures
        suppress_line(m + "cppcheck-suppress"@ + r),
{
    reveal_strlit("cppcheck-suppress");
    let d = "cppcheck-suppress"@;
    let k = CharClass::Two('/', '*');
    let a = m.subrange(0, i);
    let b = m.subrange(i, j);
    let e = m.subrange(j, m.len() as int);
    assert(m =~= a + b + e);
    assert(all_in(a, CharClass::White));
    assert(all_in(e, CharClass::White));
    assert(all_in(b, k)) by {
        assert forall|t: int| 0 <= t < b.len() implies in_class(#[trigger] b[t], k) by {
            assert(b[t] == m[i + t]);
        }
    }
    let tail = trimmed_end(r);
    lemma_trail_len_facts(r, CharClass::White);
    let w = r.skip(tail.len() as int);
    assert(r =~= tail + w);
    assert(all_in(w, CharClass::White)) by {
        assert forall|t: int| 0 <= t < w.len() implies in_class(#[trigger] w[t], CharClass::White) by {
            assert(w[t] == r[tail.len() + t]);
        }
    }
    let dt = d + tail;
    assert(!is_white(dt.last())) by {
        if tail.len() > 0 {
            assert(dt.last() == tail.last());
            assert(tail.last() == r[tail.len() - 1]);
        } else {
            assert(dt =~= d);
        }
    }
    let edt = e + dt;
    let core = b + edt;
    let line = m + d + r;
    assert(dt[0] == 'c');
    if j > i {
        assert(core[0] == b[0]);
        lemma_trimmed_is(a, core, w);
        assert(a + core + w =~= line);
        assert(core.last() == dt.last());
        assert(!in_class(edt[0], k)) by {
            if e.len() > 0 {
                assert(edt[0] == e[0]);
                assert(in_class(e[0], CharClass::White));
            } else {
                assert(edt[0] == dt[0]);
            }
        }
        lemma_lead_dropped(b, edt, k);
        lemma_trimmed_is(e, dt, Seq::empty());
        assert(e + dt + Seq::<char>::empty() =~= edt);
    } else {
        let lead = a + e;
        assert(all_in(lead, CharClass::White)) by {
            assert forall|t: int| 0 <= t < lead.len() implies in_class(
                #[trigger] lead[t],
                CharClass::White,
            ) by {
                if t < a.len() {
                    assert(in_class(a[t], CharClass::White));
                } else {
                    assert(in_class(e[t - a.len()], CharClass::White));
                }
            }
        }
        lemma_trimmed_is(lead, dt, w);
        assert(lead + dt + w =~= line);
        lemma_lead_dropped(Seq::empty(), dt, k);
        assert(Seq::<char>::empty() + dt =~= dt);
        lemma_trimmed_is(Seq::empty(), dt, Seq::empty());
        assert(Seq::<char>::empty() + dt + Seq::<char>::empty() =~= dt);
    }
    assert(dt.subrange(0, d.len() as int) =~= d);
    assert(dt.skip(d.len() as int) =~= tail);
    if tail.len() > 0 {
        assert(tail[0] == r[0]);
    }
}

/// A comment that another tool reads stays as it is, whatever the limit: nothing is planned
/// for it, but for the closer of an annotation on several lines.
pub proof fn law_comments_for_tools_stay(
    src: Seq<char>,
    start: int,
    end: int,
    lang: Language,
    relocate_before: Option<usize>,
    prev: Option<CommentText>,
    limit: usize,
    tab_width: usize,
)
    requires
        is_for_a_tool(span(src, start, end), lang),
    ensures
        ({
            let c = comment_at(src, start, end, lang, relocate_before, None);
            &&& c.force_passthrough
            &&& comment_splices(src, c, prev, lang, limit, tab_width).len() == 0 || ((lang
                == Language::C || lang == Language::Cpp) && (has_prefix(c.text, "/*@"@)
                || has_prefix(c.text, "//@"@)))
        }),
{
    let text = span(src, start, end);
    let c = comment_at(src, start, end, lang, relocate_before, None);
    if is_formatter_switch(text) {
        lemma_switch(text);
    } else if exists|m: Seq<char>, a: Seq<char>, k: Seq<char>, r: Seq<char>, more: Seq<char>|
        text == #[trigger] (m + a + k + r + more) && is_linter_line(m, a, k, r, lang)
            && starts_line_below(m + a + k + r, more) {
        let (m, a, k, r, more) = choose|
            m: Seq<char>,
            a: Seq<char>,
            k: Seq<char>,
            r: Seq<char>,
            more: Seq<char>,
        |
            text == #[trigger] (m + a + k + r + more) && is_linter_line(m, a, k, r, lang)
                && starts_line_below(m + a + k + r, more);
        lemma_linter(m, a, k, r, more, lang);
    } else if exists|above: Seq<char>, m: Seq<char>, r: Seq<char>|
        text == #[trigger] (above + m + "cppcheck-suppress"@ + r) && suppresses(above, m, r) {
        let (above, m, r) = choose|above: Seq<char>, m: Seq<char>, r: Seq<char>|
            text == #[trigger] (above + m + "cppcheck-suppress"@ + r) && suppresses(above, m, r);
        lemma_suppress(above, m, r);
    }
    assert(passthrough_directive(text, lang));
    if !crate::comment::acsl_split_allowed(src, c, lang) {
        law_directives_stay(src, c, prev, lang, limit, tab_width);
    }
}

/// The text holds something that a tool would read: by its letters alone, wherever they
/// stand.
pub open spec fn mentions_a_tool(text: Seq<char>, lang: Language) -> bool {
    ||| has_text(text, "clang-format off"@)
    ||| has_text(text, "clang-format on"@)
    ||| has_text(text, "cppcheck-suppress"@)
    ||| (lang == Language::C || lang == Language::Cpp) && (has_prefix(text, "/*@"@) || has_prefix(
        text,
        "//@"@,
    ) || has_text(text, "NOLINT"@) || has_text(text, "coverity"@) || has_text(text, "IWYU"@)
        || has_text(text, "NOSONAR"@))
    ||| lang == Language::Shell && has_text(text, "shellcheck"@)
    ||| lang == Language::Rust && has_text(text, "cbindgen"@)
}

/// A part of a part is a part.
pub proof fn lemma_part_of(s: Seq<char>, a: int, b: int, p: Seq<char>)
    requires
        0 <= a <= b <= s.len(),
        has_text(s.subrange(a, b), p),
    ensures
        has_text(s, p),
{
    let t = s.subrange(a, b);
    let i = choose|i: int| #[trigger] sub_at(t, p, i);
    assert(s.subrange(a + i, a + i + p.len()) =~= t.subrange(i, i + p.len()));
    assert(sub_at(s, p, a + i));
}

proof fn lemma_starts_has(s: Seq<char>, p: Seq<char>)
    requires
        has_prefix(s, p),
    ensures
        has_text(s, p),
{
    assert(sub_at(s, p, 0));
}

/// What trimming and dropping leave is a part of the text.
proof fn lemma_lead_part(s: Seq<char>, k: CharClass, p: Seq<char>)
    requires
        has_text(after_lead(s, k), p),
    ensures
        has_text(s, p),
{
    lemma_lead_len_facts(s, k);
    let n = lead_len(s, k) as int;
    assert(after_lead(s, k) =~= s.subrange(n, s.len() as int));
    lemma_part_of(s, n, s.len() as int, p);
}

proof fn lemma_trail_part(s: Seq<char>, k: CharClass, p: Seq<char>)
    requires
        has_text(before_trail(s, k), p),
    ensures
        has_text(s, p),
{
    lemma_trail_len_facts(s, k);
    let n = trail_len(s, k) as int;
    assert(before_trail(s, k) =~= s.subrange(0, s.len() - n));
    lemma_part_of(s, 0, s.len() - n, p);
}

proof fn lemma_trimmed_part(s: Seq<char>, p: Seq<char>)
    requires
        has_text(trimmed(s), p),
    ensures
        has_text(s, p),
{
    lemma_trail_part(trimmed_start(s), CharClass::White, p);
    lemma_lead_part(s, CharClass::White, p);
}

/// What a line holds, the text holds.
proof fn lemma_line_part(s: Seq<char>, i: int, p: Seq<char>)
    requires
        0 <= i < lines_of(s).len(),
        has_text(lines_of(s)[i], p),
    ensures
        has_text(s, p),
    decreases s.len(),
{
    let k = CharClass::NotOne('\n');
    let n = lead_len(s, k) as int;
    lemma_lead_len_facts(s, k);
    if n < s.len() {
        if i == 0 {
            let t = s.take(n);
            let u = less_suffix(t, seq!['\r']);
            assert(u =~= t.subrange(0, u.len() as int));
            lemma_part_of(t, 0, u.len() as int, p);
            assert(t =~= s.subrange(0, n));
            lemma_part_of(s, 0, n, p);
        } else {
            let rest = s.skip(n + 1);
            lemma_line_part(rest, i - 1, p);
            assert(rest =~= s.subrange(n + 1, s.len() as int));
            lemma_part_of(s, n + 1, s.len() as int, p);
        }
    }
}

proof fn lemma_keyword_part(line: Seq<char>, p: Seq<char>)
    requires
        has_text(keyword_of_line(line), p),
    ensures
        has_text(line, p),
{
    let a = after_lead(trimmed(line), CharClass::Three('/', '*', '#'));
    let b = trimmed_start(a);
    lemma_lead_len_facts(b, CharClass::KeywordText);
    let n = lead_len(b, CharClass::KeywordText) as int;
    assert(lead_run(b, CharClass::KeywordText) =~= b.subrange(0, n));
    lemma_part_of(b, 0, n, p);
    lemma_lead_part(a, CharClass::White, p);
    lemma_lead_part(trimmed(line), CharClass::Three('/', '*', '#'), p);
    lemma_trimmed_part(line, p);
}

proof fn lemma_whole(k: Seq<char>)
    ensures
        has_text(k, k),
{
    assert(k.subrange(0, k.len() as int) =~= k);
    assert(sub_at(k, k, 0));
}

/// Prose is no instruction: a comment is left to other tools only if it mentions one, nests
/// blocks in Rust, holds a carriage return of its own, or is a line comment of C or C++ with a
/// backslash at the end of a line.
pub proof fn law_only_comments_for_tools_are_pinned(
    src: Seq<char>,
    start: int,
    end: int,
    lang: Language,
)
    requires
        pinned(src, start, end, lang),
    ensures
        ({
            let text = span(src, start, end);
            let inside = text.subrange(2, text.len() - 2);
            ||| mentions_a_tool(text, lang)
            ||| lang == Language::Rust && text.len() >= 4 && (has_text(inside, "/*"@) || has_text(
                inside,
                "*/"@,
            ))
            ||| exists|i: int|
                start <= i < end && #[trigger] encode_utf8(src)[i] == 13 && !(i + 1 < encode_utf8(
                    src,
                ).len() && encode_utf8(src)[i + 1] == 10)
            ||| (lang == Language::C || lang == Language::Cpp) && has_prefix(text, "//"@)
                && text.contains('\\')
        }),
{
    let text = span(src, start, end);
    if bare_cr(encode_utf8(src), start, end) {
        let i = choose|i: int| start <= i < end && #[trigger] bare_cr_at(encode_utf8(src), i);
        assert(encode_utf8(src)[i] == 13);
    } else if line_splice(text, lang) {
        let i = choose|i: int|
            0 <= i < lines_of(text).len() && crate::directive::spliced(
                #[trigger] lines_of(text)[i],
            );
        let l = lines_of(text)[i];
        let k = CharClass::Three(' ', '\t', '\r');
        let b = before_trail(l, k);
        lemma_suffix_has(b, "\\"@);
        lemma_trail_part(l, k, "\\"@);
        lemma_line_part(text, i, "\\"@);
        let j = choose|j: int| #[trigger] sub_at(text, "\\"@, j);
        reveal_strlit("\\");
        assert(text.subrange(j, j + 1)[0] == text[j]);
    } else if passthrough_directive(text, lang) {
        lemma_tool_mentioned(text, lang);
    }
}

proof fn lemma_suffix_has(s: Seq<char>, p: Seq<char>)
    requires
        has_suffix(s, p),
    ensures
        has_text(s, p),
{
    assert(sub_at(s, p, s.len() - p.len()));
}

proof fn lemma_tool_mentioned(text: Seq<char>, lang: Language)
    requires
        passthrough_directive(text, lang),
    ensures
        mentions_a_tool(text, lang),
{
    if formatter_directive(text) {
        lemma_formatter_mentioned(text);
    } else if cppcheck_suppress(text) {
        let i = choose|i: int|
            0 <= i < lines_of(text).len() && suppress_line(#[trigger] lines_of(text)[i]);
        let line = lines_of(text)[i];
        let d = "cppcheck-suppress"@;
        let a = after_lead(trimmed(line), CharClass::Two('/', '*'));
        lemma_starts_has(trimmed(a), d);
        lemma_trimmed_part(a, d);
        lemma_lead_part(trimmed(line), CharClass::Two('/', '*'), d);
        lemma_trimmed_part(line, d);
        lemma_line_part(text, i, d);
    } else if lint_directive(text, lang) {
        let line = lines_of(text)[0];
        let k = keyword_of_line(line);
        lemma_whole(k);
        lemma_nolint(k);
        let p = if (lang == Language::C || lang == Language::Cpp) && (k == "NOLINTNEXTLINE"@ || k
            == "NOLINTBEGIN"@ || k == "NOLINTEND"@) {
            "NOLINT"@
        } else {
            k
        };
        lemma_keyword_part(line, p);
        lemma_line_part(text, 0, p);
        assert(has_text(text, p));
        assert(lint_keyword(k, lang));
        if lang == Language::C || lang == Language::Cpp {
            assert(p == "NOLINT"@ || p == "coverity"@ || p == "IWYU"@ || p == "NOSONAR"@);
        } else if lang == Language::Shell {
            assert(p == "shellcheck"@);
        } else {
            assert(lang == Language::Rust);
            assert(p == "cbindgen"@);
        }
    } else {
        assert(acsl_annotation(text));
        assert(lang == Language::C || lang == Language::Cpp);
    }
}

proof fn lemma_nolint(k: Seq<char>)
    ensures
        k == "NOLINTNEXTLINE"@ || k == "NOLINTBEGIN"@ || k == "NOLINTEND"@ ==> has_text(
            k,
            "NOLINT"@,
        ),
{
    reveal_strlit("NOLINT");
    reveal_strlit("NOLINTNEXTLINE");
    reveal_strlit("NOLINTBEGIN");
    reveal_strlit("NOLINTEND");
    if k == "NOLINTNEXTLINE"@ || k == "NOLINTBEGIN"@ || k == "NOLINTEND"@ {
        assert(k.subrange(0, 6) =~= "NOLINT"@);
        assert(sub_at(k, "NOLINT"@, 0));
    }
}

proof fn lemma_formatter_mentioned(text: Seq<char>)
    requires
        formatter_directive(text),
    ensures
        has_text(text, "clang-format off"@) || has_text(text, "clang-format on"@),
{
    let k = CharClass::Two('/', '*');
    let body = bare_body(text);
    lemma_switch_names(body);
    let p = if has_text(body, "clang-format off"@) {
        "clang-format off"@
    } else {
        "clang-format on"@
    };
    let a = after_lead(text, k);
    lemma_trimmed_part(before_trail(a, k), p);
    lemma_trail_part(a, k, p);
    lemma_lead_part(text, k, p);
}

proof fn lemma_switch_names(body: Seq<char>)
    requires
        body == "clang-format off"@ || body == "clang-format on"@ || has_prefix(
            body,
            "clang-format off:"@,
        ) || has_prefix(body, "clang-format on:"@),
    ensures
        has_text(body, "clang-format off"@) || has_text(body, "clang-format on"@),
{
    lemma_whole(body);
    if has_prefix(body, "clang-format off:"@) {
        lemma_front_of("clang-format off"@, "clang-format off:"@, body);
    }
    if has_prefix(body, "clang-format on:"@) {
        lemma_front_of("clang-format on"@, "clang-format on:"@, body);
    }
}

proof fn lemma_front_of(p: Seq<char>, q: Seq<char>, body: Seq<char>)
    requires
        has_prefix(body, q),
        p == "clang-format off"@ && q == "clang-format off:"@ || p == "clang-format on"@ && q
            == "clang-format on:"@,
    ensures
        has_text(body, p),
{
    reveal_strlit("clang-format off");
    reveal_strlit("clang-format on");
    reveal_strlit("clang-format off:");
    reveal_strlit("clang-format on:");
    assert(q =~= p + seq![':']);
    let h = body.subrange(0, q.len() as int);
    assert(h == q);
    assert forall|i: int| 0 <= i < p.len() implies body[i] == #[trigger] p[i] by {
        assert(h[i] == q[i]);
    }
    assert(body.subrange(0, p.len() as int) =~= p);
    assert(sub_at(body, p, 0));
}

} // verus!
