//! Prose of lower-case letters is read as prose, and settles.

use crate::classify::{kind_of, style_of, DocFlavor};
use crate::comment::CommentText;
use crate::final_form::{after_first, emitted, stands_in_source};
use crate::language::Language;
use crate::linekind::{
    art_adjacent_bookend, atx_header, base_kind, blockquote, label_shape, list_item, metadata_line,
    reference_link, setext_rule, StrippedText,
};
use crate::normalize::{lines_stripped, source_lines, LineKind};
use crate::plain_form::{is_plain_prose, law_plain_prose_settles, may_be_page};
use crate::plain_words::{
    law_lower_case_is_plain, lemma_plain_before, lemma_plain_no_bookend, lemma_plain_region,
    plain_text, plain_word,
};
use crate::prose_form::{lemma_empty_no_bookend, lemma_keeps_bodies};
use crate::reflow::is_block;
use crate::rows::is_break;
use crate::style_laws::lemma_word_at;
use crate::text::{
    all_in, count_in, has_prefix, has_text, in_class, is_white, lead_len, lemma_lead_len,
    lemma_lead_len_facts, lemma_trail_len_facts, sub_at, trail_len, trimmed, trimmed_start,
    words_of, CharClass,
};
use crate::textline::{
    art, assignment_line, half_banner, indented_code, is_bookend, kernel_doc_tag, table_row,
};
use crate::words::lemma_words_are_words;
use vstd::prelude::*;

verus! {

/// A lower-case letter that drawings are not made of.
pub open spec fn plain_letter(c: char) -> bool {
    'a' <= c <= 'z' && c != 'v'
}

/// A line of lower-case letters with single spaces between words, and at most one in
/// front.
pub open spec fn plain_line(s: Seq<char>) -> bool {
    &&& forall|i: int| 0 <= i < s.len() ==> plain_letter(#[trigger] s[i]) || s[i] == ' '
    &&& forall|i: int| 0 <= i < s.len() - 1 && #[trigger] s[i] == ' ' ==> s[i + 1] != ' '
}

/// The words of such a line are plain.
proof fn lemma_plain_text(s: Seq<char>)
    requires
        plain_line(s),
    ensures
        plain_text(s),
{
    lemma_words_are_words(s);
    assert forall|j: int| 0 <= j < words_of(s).len() implies plain_word(
        #[trigger] words_of(s)[j],
    ) by {
        let w = words_of(s)[j];
        let o = lemma_word_at(s, j);
        assert(crate::words::is_word(w));
        assert forall|i: int| 0 <= i < w.len() implies 'a' <= #[trigger] w[i] <= 'z' by {
            assert(s.subrange(o, o + w.len())[i] == s[o + i]);
            assert(in_class(w[i], CharClass::Solid));
            assert(plain_letter(s[o + i]) || s[o + i] == ' ');
        }
        law_lower_case_is_plain(w);
    }
}

/// Trimming leaves such a line one, with a letter in front.
proof fn lemma_plain_trimmed(s: Seq<char>)
    requires
        plain_line(s),
    ensures
        plain_line(trimmed(s)),
        plain_line(trimmed_start(s)),
        trimmed(s).len() > 0 ==> plain_letter(trimmed(s)[0]),
        trimmed_start(s).len() > 0 ==> plain_letter(trimmed_start(s)[0]),
{
    let n = lead_len(s, CharClass::White) as int;
    lemma_lead_len_facts(s, CharClass::White);
    let t = trimmed_start(s);
    lemma_trail_len_facts(t, CharClass::White);
    let u = trimmed(s);
    assert forall|i: int| 0 <= i < t.len() implies plain_letter(#[trigger] t[i]) || t[i] == ' ' by {
        assert(t[i] == s[n + i]);
    }
    assert forall|i: int| 0 <= i < t.len() - 1 && #[trigger] t[i] == ' ' implies t[i + 1] != ' ' by {
        assert(t[i] == s[n + i] && t[i + 1] == s[n + i + 1]);
    }
    assert forall|i: int| 0 <= i < u.len() implies plain_letter(#[trigger] u[i]) || u[i] == ' ' by {
        assert(u[i] == t[i]);
    }
    assert forall|i: int| 0 <= i < u.len() - 1 && #[trigger] u[i] == ' ' implies u[i + 1] != ' ' by {
        assert(u[i] == t[i] && u[i + 1] == t[i + 1]);
    }
    if t.len() > 0 {
        assert(t[0] == s[n]);
        assert(!is_white(t[0]));
    }
}

/// Nothing is counted where nothing is in the class.
pub proof fn lemma_none_counted(s: Seq<char>, k: CharClass)
    requires
        forall|i: int| 0 <= i < s.len() ==> !in_class(#[trigger] s[i], k),
    ensures
        count_in(s, k) == 0,
    decreases s.len(),
{
    if s.len() > 0 {
        assert(!in_class(s[s.len() - 1], k));
        let a = s.drop_last();
        assert forall|i: int| 0 <= i < a.len() implies !in_class(#[trigger] a[i], k) by {
            assert(a[i] == s[i]);
        }
        lemma_none_counted(a, k);
    }
}

/// Such a line holds no text with another character in it.
proof fn lemma_holds_no(s: Seq<char>, p: Seq<char>, j: int)
    requires
        plain_line(s),
        0 <= j < p.len(),
        !plain_letter(p[j]) && p[j] != ' ',
    ensures
        !has_text(s, p),
        !has_prefix(s, p),
{
    if has_text(s, p) {
        let i = choose|i: int| #[trigger] sub_at(s, p, i);
        assert(s.subrange(i, i + p.len())[j] == s[i + j]);
    }
    if has_prefix(s, p) {
        assert(s.subrange(0, p.len() as int)[j] == s[j]);
    }
}

/// Such a line is no drawing.
proof fn lemma_no_art(s: Seq<char>)
    requires
        plain_line(s),
    ensures
        !art(s),
{
    reveal_strlit("+-|/\\><^v*=");
    assert forall|i: int| 0 <= i < s.len() implies !in_class(
        #[trigger] s[i],
        CharClass::AsciiArt,
    ) && !in_class(s[i], CharClass::UnicodeArt) by {
        assert(plain_letter(s[i]) || s[i] == ' ');
        let a = "+-|/\\><^v*="@;
        if a.contains(s[i]) {
            let k = choose|k: int| 0 <= k < a.len() && a[k] == s[i];
            assert(a[k] == s[i]);
        }
    }
    lemma_none_counted(s, CharClass::AsciiArt);
    lemma_none_counted(s, CharClass::UnicodeArt);
    assert forall|i: int| 0 <= i && i + 2 <= s.len() implies !all_in(
        #[trigger] s.subrange(i, i + 2),
        CharClass::UnicodeArt,
    ) by {
        assert(s.subrange(i, i + 2)[0] == s[i]);
        assert(!in_class(s.subrange(i, i + 2)[0], CharClass::UnicodeArt));
    }
}

/// Such a line is no row of a table.
proof fn lemma_no_row(s: Seq<char>)
    requires
        plain_line(s),
    ensures
        !table_row(s),
{
    reveal_strlit("+--");
    reveal_strlit("  ");
    let t = trimmed(s);
    let u = trimmed_start(s);
    lemma_plain_trimmed(s);
    lemma_holds_no(t, "+--"@, 0);
    assert forall|i: int| 0 <= i < t.len() implies !in_class(
        #[trigger] t[i],
        CharClass::One('|'),
    ) by {
        assert(plain_letter(t[i]) || t[i] == ' ');
    }
    lemma_none_counted(t, CharClass::One('|'));
    if t.contains('\t') {
        let i = choose|i: int| 0 <= i < t.len() && t[i] == '\t';
        assert(plain_letter(t[i]) || t[i] == ' ');
    }
    if u.len() > 0 && has_prefix(u.skip(1), "  "@) {
        assert(u.skip(1).subrange(0, 2)[0] == u[1]);
        assert(u.skip(1).subrange(0, 2)[1] == u[2]);
        assert(u[1] == ' ');
        assert(u[2] != ' ');
    }
}

/// Such a line is no metadata.
proof fn lemma_no_metadata(s: Seq<char>)
    requires
        plain_line(s),
    ensures
        !metadata_line(s),
{
    reveal_strlit("SPDX-");
    reveal_strlit("Version:");
    reveal_strlit("License:");
    reveal_strlit("Copyright");
    let t = trimmed(s);
    lemma_plain_trimmed(s);
    lemma_holds_no(t, "SPDX-"@, 0);
    lemma_holds_no(t, "Version:"@, 0);
    lemma_holds_no(t, "License:"@, 0);
    lemma_holds_no(t, "Copyright"@, 0);
}

/// Such a line opens nothing.
proof fn lemma_opens_nothing(s: Seq<char>)
    requires
        plain_line(s),
    ensures
        !atx_header(s),
        !setext_rule(s),
        !blockquote(s),
        !reference_link(s),
        !list_item(s),
        !kernel_doc_tag(trimmed_start(s)),
        !indented_code(s),
        !label_shape(s),
{
    reveal_strlit(">");
    reveal_strlit("> ");
    let t = trimmed(s);
    let u = trimmed_start(s);
    lemma_plain_trimmed(s);
    if t.len() > 0 {
        lemma_lead_len(t, CharClass::One('#'), 0);
        assert(!in_class(t[0], CharClass::One('=')) && !in_class(t[0], CharClass::One('-')));
        if has_prefix(t, "> "@) {
            assert(t.subrange(0, 2)[0] == t[0]);
        }
    } else {
        lemma_lead_len(t, CharClass::One('#'), 0);
    }
    if u.len() > 0 {
        lemma_lead_len(u, CharClass::Digit, 0);
    } else {
        lemma_lead_len(u, CharClass::Digit, 0);
    }
    let lead = crate::text::lead_run(s, CharClass::Blank);
    lemma_lead_len_facts(s, CharClass::Blank);
    assert forall|i: int| 0 <= i < lead.len() implies lead[i] == ' ' by {
        assert(lead[i] == s[i]);
        assert(in_class(s[i], CharClass::Blank));
        assert(plain_letter(s[i]) || s[i] == ' ');
    }
    if lead.len() >= 2 {
        assert(lead[0] == s[0] && lead[1] == s[1]);
        assert(s[0] == ' ');
        assert(s[1] != ' ');
    }
}

/// Such a line is no row and no banner.
proof fn lemma_no_banner(s: Seq<char>)
    requires
        plain_line(s),
    ensures
        !assignment_line(s),
        !half_banner(s),
        !is_bookend(s),
{
    let t = trimmed(s);
    lemma_plain_trimmed(s);
    lemma_plain_text(s);
    crate::pieces::lemma_has_words(s);
    let n = lead_len(t, CharClass::NotOne('=')) as int;
    lemma_lead_len_facts(t, CharClass::NotOne('='));
    if n < t.len() {
        assert(plain_letter(t[n]) || t[n] == ' ');
    }
    if words_of(s).len() > 0 {
        assert(plain_word(words_of(s)[0]));
        lemma_plain_no_bookend(s);
        lemma_lead_len(t, CharClass::Rule, 0);
        let m = trail_len(t, CharClass::Rule) as int;
        lemma_trail_len_facts(t, CharClass::Rule);
        if m > 0 {
            assert(in_class(t[t.len() - 1], CharClass::Rule));
            assert(plain_letter(t[t.len() - 1]) || t[t.len() - 1] == ' ');
        }
    } else {
        let none = Seq::<char>::empty();
        assert(t =~= none);
        lemma_empty_no_bookend(none);
        lemma_lead_len(none, CharClass::White, 0);
        lemma_trail_len_facts(none, CharClass::White);
        assert(trimmed(none) =~= none);
        assert(is_bookend(s) == is_bookend(none));
    }
}

/// A line among such lines is prose or blank.
proof fn lemma_line_kind(plain: Seq<StrippedText>, flavor: DocFlavor, r: int)
    requires
        0 <= r < plain.len(),
        forall|i: int| 0 <= i < plain.len() ==> plain_line((#[trigger] plain[i]).body),
    ensures
        base_kind(plain, r, flavor) == LineKind::Prose || base_kind(plain, r, flavor)
            == LineKind::Blank,
{
    let s = plain[r].body;
    assert forall|i: int| 0 <= i < plain.len() implies plain_text((#[trigger] plain[i]).body) by {
        lemma_plain_text(plain[i].body);
    }
    lemma_plain_before(plain, r);
    lemma_plain_region(s);
    lemma_opens_nothing(s);
    lemma_no_metadata(s);
    lemma_no_row(s);
    lemma_no_art(s);
    lemma_no_banner(s);
    lemma_plain_trimmed(s);
    assert(!art_adjacent_bookend(plain, r));
    assert(crate::linekind::command_shape(s) is None);
}

/// The comment holds lines of lower-case letters, one of them at least.
pub open spec fn is_lower_prose(c: CommentText, lang: Language) -> bool {
    let marked = lines_stripped(source_lines(c.text), style_of(c.text));
    &&& stands_in_source(c)
    &&& !may_be_page(c, lang)
    &&& marked.len() <= usize::MAX
    &&& forall|r: int| 0 <= r < marked.len() ==> plain_line((#[trigger] marked[r]).body)
    &&& exists|r: int| 0 <= r < marked.len() && trimmed((#[trigger] marked[r]).body).len() > 0
}

/// Such a comment is read as plain prose.
pub proof fn law_lower_case_reads_as_prose(c: CommentText, lang: Language, limit: usize)
    requires
        is_lower_prose(c, lang),
    ensures
        is_plain_prose(c, lang, limit),
{
    let kind = kind_of(c.text, lang);
    let marked = lines_stripped(source_lines(c.text), kind.style);
    let plain = c.plain_lines(kind);
    let lines = c.body(kind, limit);
    assert forall|r: int| 0 <= r < marked.len() implies !is_bookend((#[trigger] marked[r]).body) by {
        lemma_no_banner(marked[r].body);
    }
    lemma_keeps_bodies(c, kind);
    assert forall|r: int| 0 <= r < plain.len() implies plain_line((#[trigger] plain[r]).body) by {
        assert(plain[r].body == marked[r].body);
    }
    assert forall|r: int| 0 <= r < lines.len() implies ((#[trigger] lines[r]).kind
        == LineKind::Prose || lines[r].kind == LineKind::Blank) && plain_text(lines[r].text) by {
        lemma_line_kind(plain, kind.flavor, r);
        lemma_no_banner(plain[r].body);
        lemma_opens_nothing(plain[r].body);
        lemma_plain_text(plain[r].body);
        assert(lines[r].text == plain[r].body);
    }
    let some = choose|r: int|
        0 <= r < marked.len() && trimmed((#[trigger] marked[r]).body).len() > 0;
    assert(plain[some].body == marked[some].body);
    assert(lines[some].kind != LineKind::Blank) by {
        lemma_not_blank(plain, kind.flavor, some);
        lemma_no_banner(plain[some].body);
        lemma_opens_nothing(plain[some].body);
    }
}

/// A line with text among such lines is not blank.
proof fn lemma_not_blank(plain: Seq<StrippedText>, flavor: DocFlavor, r: int)
    requires
        0 <= r < plain.len(),
        forall|i: int| 0 <= i < plain.len() ==> plain_line((#[trigger] plain[i]).body),
        trimmed(plain[r].body).len() > 0,
    ensures
        base_kind(plain, r, flavor) != LineKind::Blank,
{
    assert forall|i: int| 0 <= i < plain.len() implies plain_text((#[trigger] plain[i]).body) by {
        lemma_plain_text(plain[i].body);
    }
    lemma_plain_before(plain, r);
}

/// Prose of lower-case letters is stable, whatever its style, its paragraphs and the
/// limit: a second pass emits the same text again.
pub proof fn law_lower_case_prose_settles(
    c: CommentText,
    brk: Seq<char>,
    lang: Language,
    limit: usize,
    tab_width: usize,
)
    requires
        is_lower_prose(c, lang),
        is_break(brk),
        is_block(style_of(c.text)) ==> brk.len() == 0,
        source_lines(after_first(c, brk, lang, limit, tab_width).text).len() <= usize::MAX,
    ensures
        emitted(after_first(c, brk, lang, limit, tab_width), lang, limit, tab_width) == emitted(
            c,
            lang,
            limit,
            tab_width,
        ),
{
    law_lower_case_reads_as_prose(c, lang, limit);
    law_plain_prose_settles(c, brk, lang, limit, tab_width);
}

} // verus!
