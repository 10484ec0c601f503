//! Fences, commands and the text behind them.

use crate::classify::DocFlavor;
use crate::linekind::{
    closes_fence, command_shape, line_kinds, opens_fence, region_before, tag_keyword, tag_shape,
    LineKind, Region, StrippedText, TagShape,
};
use crate::reflow::hanging_indent;
use crate::shape_laws::{below_plain_lines, keeps_layout, lemma_region_text};
use crate::text::{
    after_lead, in_class, is_white, is_word_char, lead_len, lead_run, lemma_lead_len, trimmed,
    trimmed_start, CharClass,
};
use crate::textline::{fence_run, kernel_doc_tag};
use crate::wrap::{lone_kdoc_name, tag_start};
use vstd::prelude::*;

verus! {

/// The line is a run of at least `n` of `c` and nothing else.
pub open spec fn is_run_of(s: Seq<char>, c: char, n: int) -> bool {
    let t = trimmed(s);
    0 < t.len() && n <= t.len() && forall|k: int| 0 <= k < t.len() ==> #[trigger] t[k] == c
}

/// The line starts with exactly `n` of `c` behind blanks. No other backtick follows backticks.
pub open spec fn starts_fence(s: Seq<char>, blanks: Seq<char>, c: char, n: int, rest: Seq<char>) -> bool {
    &&& n >= 3
    &&& c == '`' || c == '~'
    &&& s == blanks + Seq::new(n as nat, |k: int| c) + rest
    &&& forall|k: int| 0 <= k < blanks.len() ==> #[trigger] blanks[k] == ' ' || blanks[k] == '\t'
    &&& rest.len() > 0 ==> rest[0] != c
    &&& c == '`' ==> !rest.contains('`')
}

proof fn lemma_fence_opens(s: Seq<char>, blanks: Seq<char>, c: char, n: int, rest: Seq<char>)
    requires
        starts_fence(s, blanks, c, n, rest),
    ensures
        opens_fence(s),
        fence_run(s) == Some((c, n as nat)),
        trimmed(s).len() > 0,
{
    let run = Seq::new(n as nat, |k: int| c);
    let b = blanks.len() as int;
    assert(s[b] == c);
    assert forall|k: int| 0 <= k < b implies in_class(#[trigger] s[k], CharClass::Blank) by {
        assert(s[k] == blanks[k]);
    }
    lemma_lead_len(s, CharClass::Blank, b);
    let t = after_lead(s, CharClass::Blank);
    assert(t =~= run + rest);
    assert forall|k: int| 0 <= k < n implies in_class(#[trigger] t[k], CharClass::One(c)) by {
        assert(t[k] == run[k]);
    }
    if rest.len() > 0 {
        assert(t[n] == rest[0]);
    }
    lemma_lead_len(t, CharClass::One(c), n);
    assert(t[0] == c);
    assert(t.skip(n) =~= rest);
    crate::ordinary_prose::lemma_trimmed_at(s);
    assert(trimmed(s).len() > 0) by {
        crate::pieces::lemma_solid_inside(s, b);
        crate::pieces::lemma_has_words(s);
    }
}

proof fn lemma_runs_are_closers(s: Seq<char>, c: char, n: int)
    requires
        n >= 0,
    ensures
        closes_fence(s, c, n as nat) == is_run_of(s, c, n),
{
    let t = trimmed(s);
    if is_run_of(s, c, n) {
        assert forall|k: int| 0 <= k < t.len() implies in_class(
            #[trigger] t[k],
            CharClass::One(c),
        ) by {
            assert(t[k] == c);
        }
    }
    if closes_fence(s, c, n as nat) {
        assert forall|k: int| 0 <= k < t.len() implies #[trigger] t[k] == c by {
            assert(in_class(t[k], CharClass::One(c)));
        }
    }
}

proof fn lemma_inside_fence(lines: Seq<StrippedText>, i: int, k: int, c: char, n: int)
    requires
        0 <= i < k <= lines.len(),
        n >= 0,
        region_before(lines, i + 1) == Region::Fence(c, n as nat),
        forall|j: int| i < j < k ==> !is_run_of((#[trigger] lines[j]).body, c, n),
    ensures
        region_before(lines, k) == Region::Fence(c, n as nat),
    decreases k,
{
    if k > i + 1 {
        lemma_inside_fence(lines, i, k - 1, c, n);
        assert(!is_run_of(lines[k - 1].body, c, n));
        lemma_runs_are_closers(lines[k - 1].body, c, n);
    }
}

/// From a fence of three or more on, every line keeps its layout up to the first line that is a
/// run of the same character, as long at least; behind that line text goes on.
pub proof fn law_fences_keep_their_text(
    lines: Seq<StrippedText>,
    flavor: DocFlavor,
    budget: usize,
    i: int,
    k: int,
    blanks: Seq<char>,
    c: char,
    n: int,
    rest: Seq<char>,
)
    requires
        0 <= i <= k < lines.len(),
        below_plain_lines(lines, i),
        starts_fence(lines[i].body, blanks, c, n, rest),
        forall|j: int| i < j < k ==> !is_run_of((#[trigger] lines[j]).body, c, n),
    ensures
        keeps_layout(lines, flavor, budget, k),
        k > i && is_run_of(lines[k].body, c, n) ==> region_before(lines, k + 1) == Region::Text,
        !(k > i && is_run_of(lines[k].body, c, n)) ==> region_before(lines, k + 1) != Region::Text,
{
    lemma_region_text(lines, i);
    lemma_fence_opens(lines[i].body, blanks, c, n, rest);
    if k > i {
        lemma_inside_fence(lines, i, k, c, n);
        lemma_runs_are_closers(lines[k].body, c, n);
    }
}

/// The commands that open text to be shown as it is.
pub open spec fn shows_text(k: Seq<char>) -> bool {
    k == "code"@ || k == "verbatim"@ || k == "dot"@ || k == "msc"@ || k == "startuml"@
}

/// The commands that end such text.
pub open spec fn ends_text(k: Seq<char>) -> bool {
    k == "endcode"@ || k == "endverbatim"@ || k == "enddot"@ || k == "endmsc"@ || k == "enduml"@
}

/// The commands that a name follows.
pub open spec fn takes_a_name(k: Seq<char>) -> bool {
    k == "param"@ || k == "tparam"@ || k == "retval"@ || k == "throw"@ || k == "throws"@ || k
        == "exception"@
}

/// The commands that text follows.
pub open spec fn takes_text(k: Seq<char>) -> bool {
    ||| k == "return"@ || k == "returns"@ || k == "brief"@ || k == "short"@ || k == "details"@
    ||| k == "note"@ || k == "warning"@ || k == "attention"@ || k == "see"@ || k == "sa"@
    ||| k == "file"@ || k == "author"@ || k == "authors"@ || k == "date"@ || k == "version"@
    ||| k == "since"@ || k == "deprecated"@ || k == "todo"@ || k == "bug"@ || k == "pre"@
    ||| k == "post"@ || k == "invariant"@ || k == "remark"@ || k == "remarks"@
    ||| k == "copyright"@ || k == "example"@ || k == "ingroup"@ || k == "defgroup"@
    ||| k == "addtogroup"@
}

/// The line starts with `@` or a backslash, the keyword, and then nothing or white space.
pub open spec fn starts_command(s: Seq<char>, lead: Seq<char>, k: Seq<char>, rest: Seq<char>) -> bool {
    &&& s == lead + k + rest
    &&& lead.len() > 0
    &&& lead.last() == '@' || lead.last() == '\\'
    &&& forall|j: int| 0 <= j < lead.len() - 1 ==> is_white(#[trigger] lead[j])
    &&& rest.len() > 0 ==> is_white(rest[0])
}

proof fn lemma_word_text(k: Seq<char>)
    requires
        shows_text(k) || ends_text(k) || takes_a_name(k) || takes_text(k),
    ensures
        k.len() > 0,
        forall|j: int| 0 <= j < k.len() ==> 'a' <= #[trigger] k[j] <= 'z',
{
    if shows_text(k) || ends_text(k) {
        lemma_lower_show(k);
    }
    if takes_text(k) {
        lemma_lower_text(k);
    }
    reveal_strlit("param");
    reveal_strlit("tparam");
    reveal_strlit("retval");
    reveal_strlit("throw");
    reveal_strlit("throws");
    reveal_strlit("exception");
}

proof fn lemma_lower_show(k: Seq<char>)
    requires
        shows_text(k) || ends_text(k),
    ensures
        k.len() > 0,
        forall|j: int| 0 <= j < k.len() ==> 'a' <= #[trigger] k[j] <= 'z',
{
    reveal_strlit("code");
    reveal_strlit("verbatim");
    reveal_strlit("dot");
    reveal_strlit("msc");
    reveal_strlit("startuml");
    reveal_strlit("endcode");
    reveal_strlit("endverbatim");
    reveal_strlit("enddot");
    reveal_strlit("endmsc");
    reveal_strlit("enduml");
}

proof fn lemma_lower_text(k: Seq<char>)
    requires
        takes_text(k),
    ensures
        k.len() > 0,
        forall|j: int| 0 <= j < k.len() ==> 'a' <= #[trigger] k[j] <= 'z',
{
    reveal_strlit("return");
    reveal_strlit("returns");
    reveal_strlit("brief");
    reveal_strlit("short");
    reveal_strlit("details");
    reveal_strlit("note");
    reveal_strlit("warning");
    reveal_strlit("attention");
    reveal_strlit("see");
    reveal_strlit("sa");
    reveal_strlit("file");
    reveal_strlit("author");
    reveal_strlit("authors");
    reveal_strlit("date");
    reveal_strlit("version");
    reveal_strlit("since");
    reveal_strlit("deprecated");
    reveal_strlit("todo");
    reveal_strlit("bug");
    reveal_strlit("pre");
    reveal_strlit("post");
    reveal_strlit("invariant");
    reveal_strlit("remark");
    reveal_strlit("remarks");
    reveal_strlit("copyright");
    reveal_strlit("example");
    reveal_strlit("ingroup");
    reveal_strlit("defgroup");
    reveal_strlit("addtogroup");
}

proof fn lemma_text_shape(k: Seq<char>)
    requires
        takes_text(k),
    ensures
        tag_shape(k) == Some(TagShape::Plain),
{
    reveal_strlit("param");
    reveal_strlit("tparam");
    reveal_strlit("retval");
    reveal_strlit("throw");
    reveal_strlit("throws");
    reveal_strlit("exception");
    reveal_strlit("return");
    reveal_strlit("returns");
    reveal_strlit("brief");
    reveal_strlit("short");
    reveal_strlit("details");
    reveal_strlit("note");
    reveal_strlit("warning");
    reveal_strlit("attention");
    reveal_strlit("see");
    reveal_strlit("sa");
    reveal_strlit("file");
    reveal_strlit("author");
    reveal_strlit("authors");
    reveal_strlit("date");
    reveal_strlit("version");
    reveal_strlit("since");
    reveal_strlit("deprecated");
    reveal_strlit("todo");
    reveal_strlit("bug");
    reveal_strlit("pre");
    reveal_strlit("post");
    reveal_strlit("invariant");
    reveal_strlit("remark");
    reveal_strlit("remarks");
    reveal_strlit("copyright");
    reveal_strlit("example");
    reveal_strlit("ingroup");
    reveal_strlit("defgroup");
    reveal_strlit("addtogroup");
    assert("param"@.len() == 5);
    assert("tparam"@.len() == 6);
    assert("retval"@.len() == 6);
    assert("throw"@.len() == 5);
    assert("throws"@.len() == 6);
    assert("exception"@.len() == 9);
    assert("return"@.len() == 6);
    assert("returns"@.len() == 7);
    assert("brief"@.len() == 5);
    assert("short"@.len() == 5);
    assert("details"@.len() == 7);
    assert("note"@.len() == 4);
    assert("warning"@.len() == 7);
    assert("attention"@.len() == 9);
    assert("see"@.len() == 3);
    assert("sa"@.len() == 2);
    assert("file"@.len() == 4);
    assert("author"@.len() == 6);
    assert("authors"@.len() == 7);
    assert("date"@.len() == 4);
    assert("version"@.len() == 7);
    assert("since"@.len() == 5);
    assert("deprecated"@.len() == 10);
    assert("todo"@.len() == 4);
    assert("bug"@.len() == 3);
    assert("pre"@.len() == 3);
    assert("post"@.len() == 4);
    assert("invariant"@.len() == 9);
    assert("remark"@.len() == 6);
    assert("remarks"@.len() == 7);
    assert("copyright"@.len() == 9);
    assert("example"@.len() == 7);
    assert("ingroup"@.len() == 7);
    assert("defgroup"@.len() == 8);
    assert("addtogroup"@.len() == 10);
    assert("param"@[0] != "brief"@[0]);
    assert("param"@[0] != "short"@[0]);
    assert("param"@[0] != "since"@[0]);
    assert("tparam"@[0] != "return"@[0]);
    assert("tparam"@[0] != "author"@[0]);
    assert("tparam"@[0] != "remark"@[0]);
    assert("retval"@[3] != "return"@[3]);
    assert("retval"@[0] != "author"@[0]);
    assert("retval"@[2] != "remark"@[2]);
    assert("throw"@[0] != "brief"@[0]);
    assert("throw"@[0] != "short"@[0]);
    assert("throw"@[0] != "since"@[0]);
    assert("throws"@[0] != "return"@[0]);
    assert("throws"@[0] != "author"@[0]);
    assert("throws"@[0] != "remark"@[0]);
    assert("exception"@[0] != "attention"@[0]);
    assert("exception"@[0] != "invariant"@[0]);
    assert("exception"@[0] != "copyright"@[0]);
}

proof fn lemma_show_shape(k: Seq<char>)
    requires
        shows_text(k) || ends_text(k),
    ensures
        tag_shape(k) == if shows_text(k) {
            Some(TagShape::VerbatimOpen)
        } else {
            Some(TagShape::VerbatimClose)
        },
{
    reveal_strlit("param");
    reveal_strlit("tparam");
    reveal_strlit("retval");
    reveal_strlit("throw");
    reveal_strlit("throws");
    reveal_strlit("exception");
    reveal_strlit("return");
    reveal_strlit("returns");
    reveal_strlit("brief");
    reveal_strlit("short");
    reveal_strlit("details");
    reveal_strlit("note");
    reveal_strlit("warning");
    reveal_strlit("attention");
    reveal_strlit("see");
    reveal_strlit("sa");
    reveal_strlit("file");
    reveal_strlit("author");
    reveal_strlit("authors");
    reveal_strlit("date");
    reveal_strlit("version");
    reveal_strlit("since");
    reveal_strlit("deprecated");
    reveal_strlit("todo");
    reveal_strlit("bug");
    reveal_strlit("pre");
    reveal_strlit("post");
    reveal_strlit("invariant");
    reveal_strlit("remark");
    reveal_strlit("remarks");
    reveal_strlit("copyright");
    reveal_strlit("example");
    reveal_strlit("ingroup");
    reveal_strlit("defgroup");
    reveal_strlit("addtogroup");
    reveal_strlit("code");
    reveal_strlit("verbatim");
    reveal_strlit("dot");
    reveal_strlit("msc");
    reveal_strlit("startuml");
    reveal_strlit("endcode");
    reveal_strlit("endverbatim");
    reveal_strlit("enddot");
    reveal_strlit("endmsc");
    reveal_strlit("enduml");
    assert("param"@.len() == 5);
    assert("tparam"@.len() == 6);
    assert("retval"@.len() == 6);
    assert("throw"@.len() == 5);
    assert("throws"@.len() == 6);
    assert("exception"@.len() == 9);
    assert("return"@.len() == 6);
    assert("returns"@.len() == 7);
    assert("brief"@.len() == 5);
    assert("short"@.len() == 5);
    assert("details"@.len() == 7);
    assert("note"@.len() == 4);
    assert("warning"@.len() == 7);
    assert("attention"@.len() == 9);
    assert("see"@.len() == 3);
    assert("sa"@.len() == 2);
    assert("file"@.len() == 4);
    assert("author"@.len() == 6);
    assert("authors"@.len() == 7);
    assert("date"@.len() == 4);
    assert("version"@.len() == 7);
    assert("since"@.len() == 5);
    assert("deprecated"@.len() == 10);
    assert("todo"@.len() == 4);
    assert("bug"@.len() == 3);
    assert("pre"@.len() == 3);
    assert("post"@.len() == 4);
    assert("invariant"@.len() == 9);
    assert("remark"@.len() == 6);
    assert("remarks"@.len() == 7);
    assert("copyright"@.len() == 9);
    assert("example"@.len() == 7);
    assert("ingroup"@.len() == 7);
    assert("defgroup"@.len() == 8);
    assert("addtogroup"@.len() == 10);
    assert("code"@.len() == 4);
    assert("verbatim"@.len() == 8);
    assert("dot"@.len() == 3);
    assert("msc"@.len() == 3);
    assert("startuml"@.len() == 8);
    assert("endcode"@.len() == 7);
    assert("endverbatim"@.len() == 11);
    assert("enddot"@.len() == 6);
    assert("endmsc"@.len() == 6);
    assert("enduml"@.len() == 6);
    assert("code"@[0] != "note"@[0]);
    assert("code"@[0] != "file"@[0]);
    assert("code"@[0] != "date"@[0]);
    assert("code"@[0] != "todo"@[0]);
    assert("code"@[0] != "post"@[0]);
    assert("verbatim"@[0] != "defgroup"@[0]);
    assert("dot"@[0] != "see"@[0]);
    assert("dot"@[0] != "bug"@[0]);
    assert("dot"@[0] != "pre"@[0]);
    assert("msc"@[0] != "see"@[0]);
    assert("msc"@[0] != "bug"@[0]);
    assert("msc"@[0] != "pre"@[0]);
    assert("startuml"@[0] != "defgroup"@[0]);
    assert("endcode"@[0] != "returns"@[0]);
    assert("endcode"@[0] != "details"@[0]);
    assert("endcode"@[0] != "warning"@[0]);
    assert("endcode"@[0] != "authors"@[0]);
    assert("endcode"@[0] != "version"@[0]);
    assert("endcode"@[0] != "remarks"@[0]);
    assert("endcode"@[1] != "example"@[1]);
    assert("endcode"@[0] != "ingroup"@[0]);
    assert("enddot"@[0] != "tparam"@[0]);
    assert("enddot"@[0] != "retval"@[0]);
    assert("enddot"@[0] != "throws"@[0]);
    assert("enddot"@[0] != "return"@[0]);
    assert("enddot"@[0] != "author"@[0]);
    assert("enddot"@[0] != "remark"@[0]);
    assert("endmsc"@[0] != "tparam"@[0]);
    assert("endmsc"@[0] != "retval"@[0]);
    assert("endmsc"@[0] != "throws"@[0]);
    assert("endmsc"@[0] != "return"@[0]);
    assert("endmsc"@[0] != "author"@[0]);
    assert("endmsc"@[0] != "remark"@[0]);
    assert("enduml"@[0] != "tparam"@[0]);
    assert("enduml"@[0] != "retval"@[0]);
    assert("enduml"@[0] != "throws"@[0]);
    assert("enduml"@[0] != "return"@[0]);
    assert("enduml"@[0] != "author"@[0]);
    assert("enduml"@[0] != "remark"@[0]);
}

/// What a command line starts with.
proof fn lemma_command(s: Seq<char>, lead: Seq<char>, k: Seq<char>, rest: Seq<char>)
    requires
        starts_command(s, lead, k, rest),
        k.len() > 0,
        forall|j: int| 0 <= j < k.len() ==> 'a' <= #[trigger] k[j] <= 'z',
    ensures
        trimmed_start(s) == seq![lead.last()] + k + rest,
        trimmed_start(s).skip(1) == k + rest,
        tag_keyword(k + rest) == k,
        command_shape(s) == tag_shape(k),
{
    let n = lead.len() - 1;
    assert(s[n] == lead[n]);
    assert forall|j: int| 0 <= j < n implies in_class(#[trigger] s[j], CharClass::White) by {
        assert(s[j] == lead[j]);
    }
    lemma_lead_len(s, CharClass::White, n);
    let t = trimmed_start(s);
    assert(t =~= seq![lead.last()] + k + rest);
    let u = k + rest;
    assert(t.skip(1) =~= u);
    let m = k.len() as int;
    assert forall|j: int| 0 <= j < m implies in_class(#[trigger] u[j], CharClass::Word)
        && in_class(u[j], CharClass::Solid) by {
        assert(u[j] == k[j]);
    }
    if rest.len() > 0 {
        assert(u[m] == rest[0]);
    }
    lemma_lead_len(u, CharClass::Word, m);
    lemma_lead_len(u, CharClass::Solid, m);
    assert(u.take(m) =~= k);
    assert(!crate::linekind::email_or_path(u)) by {
        assert forall|j: int| 0 <= j < m implies !in_class(
            #[trigger] k[j],
            CharClass::Three('.', '/', '@'),
        ) by {}
    }
}

/// From a command that shows text on, every line keeps its layout up to the command that ends
/// it; behind that line text goes on.
pub proof fn law_commands_keep_their_text(
    lines: Seq<StrippedText>,
    flavor: DocFlavor,
    budget: usize,
    i: int,
    n: int,
    lead: Seq<char>,
    k: Seq<char>,
    rest: Seq<char>,
    end_lead: Seq<char>,
    end: Seq<char>,
    end_rest: Seq<char>,
)
    requires
        0 <= i < n < lines.len(),
        below_plain_lines(lines, i),
        shows_text(k),
        starts_command(lines[i].body, lead, k, rest),
        forall|j: int|
            i < j < n ==> {
                let t = trimmed((#[trigger] lines[j]).body);
                t.len() > 0 ==> t[0] != '@' && t[0] != '\\'
            },
        ends_text(end),
        starts_command(lines[n].body, end_lead, end, end_rest),
    ensures
        forall|j: int| i <= j <= n ==> #[trigger] keeps_layout(lines, flavor, budget, j),
        region_before(lines, n + 1) == Region::Text,
{
    lemma_region_text(lines, i);
    lemma_word_text(k);
    lemma_word_text(end);
    lemma_show_shape(k);
    lemma_show_shape(end);
    lemma_end_is_no_show(end);
    lemma_command(lines[i].body, lead, k, rest);
    lemma_command(lines[n].body, end_lead, end, end_rest);
    lemma_command_is_text(lines[i].body, lead, k, rest);
    assert(region_before(lines, i + 1) == Region::Verbatim);
    assert forall|j: int| i < j <= n implies region_before(lines, j) == Region::Verbatim by {
        lemma_inside_shown(lines, i, j);
    }
    assert forall|j: int| i <= j <= n implies #[trigger] keeps_layout(lines, flavor, budget, j) by {
        assert(j > i ==> region_before(lines, j) == Region::Verbatim);
    }
    assert(region_before(lines, n) == Region::Verbatim);
}

proof fn lemma_end_is_no_show(k: Seq<char>)
    requires
        ends_text(k),
    ensures
        !shows_text(k),
{
    reveal_strlit("code");
    reveal_strlit("verbatim");
    reveal_strlit("dot");
    reveal_strlit("msc");
    reveal_strlit("startuml");
    reveal_strlit("endcode");
    reveal_strlit("endverbatim");
    reveal_strlit("enddot");
    reveal_strlit("endmsc");
    reveal_strlit("enduml");
    assert("code"@.len() == 4);
    assert("verbatim"@.len() == 8);
    assert("dot"@.len() == 3);
    assert("msc"@.len() == 3);
    assert("startuml"@.len() == 8);
    assert("endcode"@.len() == 7);
    assert("endverbatim"@.len() == 11);
    assert("enddot"@.len() == 6);
    assert("endmsc"@.len() == 6);
    assert("enduml"@.len() == 6);
}

/// A command line holds text and is no fence.
proof fn lemma_command_is_text(s: Seq<char>, lead: Seq<char>, k: Seq<char>, rest: Seq<char>)
    requires
        starts_command(s, lead, k, rest),
    ensures
        trimmed(s).len() > 0,
        !opens_fence(s),
{
    let n = lead.len() - 1;
    assert(s[n] == lead[n]);
    crate::pieces::lemma_solid_inside(s, n);
    crate::pieces::lemma_has_words(s);
    let m = lead_len(s, CharClass::Blank) as int;
    crate::text::lemma_lead_len_facts(s, CharClass::Blank);
    assert(m <= n) by {
        if m > n {
            assert(in_class(s[n], CharClass::Blank));
        }
    }
    let t = after_lead(s, CharClass::Blank);
    assert(t[0] == s[m]);
    if m < n {
        assert(s[m] == lead[m]);
    }
}

proof fn lemma_inside_shown(lines: Seq<StrippedText>, i: int, j: int)
    requires
        0 <= i < j <= lines.len(),
        region_before(lines, i + 1) == Region::Verbatim,
        forall|q: int|
            i < q < j ==> {
                let t = trimmed((#[trigger] lines[q]).body);
                t.len() > 0 ==> t[0] != '@' && t[0] != '\\'
            },
    ensures
        region_before(lines, j) == Region::Verbatim,
    decreases j,
{
    if j > i + 1 {
        lemma_inside_shown(lines, i, j - 1);
        let s = lines[j - 1].body;
        crate::ordinary_prose::lemma_trimmed_at(s);
        assert(command_shape(s) is None);
    }
}

/// The lines of a paragraph behind a command with text hang under that text; where fewer than
/// twenty-one columns would be left for them they hang by four.
pub proof fn law_command_text_hangs(
    s: Seq<char>,
    lead: Seq<char>,
    k: Seq<char>,
    text: Seq<char>,
    effective: nat,
)
    requires
        takes_text(k),
        starts_command(s, lead, k, seq![' '] + text),
        text.len() > 0 && !is_white(text[0]) && text[0] != ':',
    ensures
        hanging_indent(s, effective, DocFlavor::Doxygen) == if effective > k.len() + 2 + 20 {
            k.len() + 2
        } else {
            4
        },
        hanging_indent(s, effective, DocFlavor::Rustdoc) == 0,
{
    let rest = seq![' '] + text;
    lemma_word_text(k);
    lemma_text_shape(k);
    lemma_command(s, lead, k, rest);
    lemma_no_kernel_tag(trimmed_start(s), lead.last(), k, text);
    let u = k + rest;
    assert(u.skip(k.len() as int) =~= rest);
}

/// A keyword that no colon follows is no kernel-doc tag.
proof fn lemma_no_kernel_tag(t: Seq<char>, m: char, k: Seq<char>, text: Seq<char>)
    requires
        t == seq![m] + k + (seq![' '] + text),
        k.len() > 0,
        forall|j: int| 0 <= j < k.len() ==> 'a' <= #[trigger] k[j] <= 'z',
        text.len() > 0 && !is_white(text[0]) && text[0] != ':',
    ensures
        !kernel_doc_tag(t),
{
    let rest = t.skip(1);
    let n = k.len() as int;
    assert(rest =~= k + (seq![' '] + text));
    assert forall|j: int| 0 <= j < n implies in_class(#[trigger] rest[j], CharClass::Word) by {
        assert(rest[j] == k[j]);
    }
    assert(rest[n] == ' ');
    lemma_lead_len(rest, CharClass::Word, n);
    let more = rest.skip(n);
    assert(more =~= seq![' '] + text);
    assert(more[1] == text[0]);
    lemma_lead_len(more, CharClass::White, 1);
    assert(trimmed_start(more)[0] == text[0]);
}

/// The lines behind a command with a name hang under the text that follows the name.
pub proof fn law_named_text_hangs(
    s: Seq<char>,
    lead: Seq<char>,
    k: Seq<char>,
    name: Seq<char>,
    text: Seq<char>,
    effective: nat,
)
    requires
        takes_a_name(k),
        starts_command(s, lead, k, seq![' '] + name + text),
        name.len() > 0 && name[0] != ':',
        forall|j: int| 0 <= j < name.len() ==> !is_white(#[trigger] name[j]),
        text.len() > 0 ==> is_white(text[0]),
    ensures
        ({
            let at = k.len() + 1 + 1 + name.len() + 1;
            hanging_indent(s, effective, DocFlavor::Doxygen) == if effective > at + 20 {
                at
            } else {
                4
            }
        }),
{
    let rest = seq![' '] + name + text;
    lemma_word_text(k);
    lemma_command(s, lead, k, rest);
    assert(rest =~= seq![' '] + (name + text));
    lemma_no_kernel_tag(trimmed_start(s), lead.last(), k, name + text);
    let u = k + rest;
    let after = u.skip(k.len() as int);
    assert(after =~= rest);
    let more = after.skip(1);
    assert(more =~= name + text);
    assert forall|j: int| 0 <= j < name.len() implies in_class(#[trigger] more[j], CharClass::Solid) by {
        assert(more[j] == name[j]);
    }
    if text.len() > 0 {
        assert(more[name.len() as int] == text[0]);
    }
    lemma_lead_len(more, CharClass::Solid, name.len() as int);
}

/// Lines without a command or a tag at their start do not hang.
pub proof fn law_other_text_does_not_hang(s: Seq<char>, effective: nat, flavor: DocFlavor)
    requires
        trimmed_start(s).len() > 0 ==> trimmed_start(s)[0] != '@' && trimmed_start(s)[0] != '\\',
    ensures
        hanging_indent(s, effective, flavor) == 0,
{
}

proof fn lemma_name_shape(k: Seq<char>)
    requires
        takes_a_name(k),
    ensures
        tag_shape(k) == Some(TagShape::Named),
{
}

/// A command that text or a name follows opens a paragraph of its own, with `@` or a backslash
/// alike.
pub proof fn law_commands_open_paragraphs(
    lines: Seq<StrippedText>,
    budget: usize,
    i: int,
    m: char,
    k: Seq<char>,
    text: Seq<char>,
)
    requires
        0 <= i < lines.len(),
        below_plain_lines(lines, i),
        takes_text(k) || takes_a_name(k),
        m == '@' || m == '\\',
        lines[i].body == seq![m] + k + (seq![' '] + text),
        text.len() > 0 && ('a' <= text[0] <= 'z' || 'A' <= text[0] <= 'Z'),
        forall|j: int|
            0 <= j < text.len() ==> #[trigger] text[j] != '\t' && text[j] != '|' && text[j] != '+',
    ensures
        line_kinds(lines, DocFlavor::Doxygen, budget)[i] == LineKind::DoxygenTag,
        !keeps_layout(lines, DocFlavor::Doxygen, budget, i),
{
    let s = lines[i].body;
    let rest = seq![' '] + text;
    lemma_region_text(lines, i);
    lemma_word_text(k);
    if takes_text(k) {
        lemma_text_shape(k);
    } else {
        lemma_name_shape(k);
    }
    assert(starts_command(s, seq![m], k, rest));
    lemma_command(s, seq![m], k, rest);
    lemma_command_is_text(s, seq![m], k, rest);
    assert(s.len() > 2 && s[0] == m);
    assert(s[1] == k[0]);
    assert forall|j: int| 0 < j < s.len() implies #[trigger] s[j] != '\t' && s[j] != '|' && s[j]
        != '+' by {
        if j <= k.len() {
            assert(s[j] == k[j - 1]);
        } else if j > k.len() + 1 {
            assert(s[j] == text[j - k.len() - 2]);
        }
    }
    crate::shape_laws::lemma_not_laid_out(s);
    let t = trimmed(s);
    crate::ordinary_prose::lemma_trimmed_at(s);
    assert(t[0] == m);
    crate::shape_laws::lemma_no_hash(s);
    crate::shape_laws::lemma_no_underline(s, 0);
    lemma_lead_len(t, CharClass::Rule, 0);
    assert(!crate::textline::is_bookend(s)) by {
        assert(!in_class(t[0], CharClass::Rule));
    }
    assert(!crate::linekind::art_adjacent_bookend(lines, i));
}

/// A known command, with either marker, does not open a line of a paragraph that it does not
/// start; an unmarked word may.
pub proof fn law_commands_are_tags(m: char, k: Seq<char>, rest: Seq<char>)
    requires
        shows_text(k) || ends_text(k) || takes_a_name(k) || takes_text(k),
        m == '@' || m == '\\',
        rest.len() > 0 ==> rest[0] == ',' || rest[0] == ';' || rest[0] == ')' || rest[0] == '[',
        forall|j: int|
            0 <= j < rest.len() ==> !is_white(#[trigger] rest[j]) && rest[j] != '.' && rest[j]
                != '/' && rest[j] != '@',
    ensures
        tag_start(seq![m] + k + rest),
        !tag_start(k + rest),
{
    let w = seq![m] + k + rest;
    lemma_word_text(k);
    if takes_text(k) {
        lemma_text_shape(k);
    } else if takes_a_name(k) {
        lemma_name_shape(k);
    } else {
        lemma_show_shape(k);
    }
    let u = w.skip(1);
    assert(u =~= k + rest);
    let n = k.len() as int;
    assert forall|j: int| 0 <= j < n implies in_class(#[trigger] u[j], CharClass::Word) by {
        assert(u[j] == k[j]);
    }
    if rest.len() > 0 {
        assert(u[n] == rest[0]);
    }
    lemma_lead_len(u, CharClass::Word, n);
    assert(u.take(n) =~= k);
    assert(w[0] == m);
    assert((k + rest)[0] == k[0]);
    assert(!crate::linekind::email_or_path(u)) by {
        let lead = lead_run(u, CharClass::Solid);
        crate::text::lemma_lead_len_facts(u, CharClass::Solid);
        assert forall|j: int| 0 <= j < lead.len() implies !in_class(
            #[trigger] lead[j],
            CharClass::Three('.', '/', '@'),
        ) by {
            if j < n {
                assert(lead[j] == k[j]);
            } else {
                assert(lead[j] == rest[j - n]);
            }
        }
    }
}

/// `@name:` and `@name :` are kernel-doc tags, and open a paragraph of their own.
pub proof fn law_kernel_doc_tags_open_paragraphs(
    lines: Seq<StrippedText>,
    flavor: DocFlavor,
    budget: usize,
    i: int,
    name: Seq<char>,
    gap: Seq<char>,
    text: Seq<char>,
)
    requires
        0 <= i < lines.len(),
        below_plain_lines(lines, i),
        name.len() > 0,
        forall|j: int| 0 <= j < name.len() ==> is_word_char(#[trigger] name[j]),
        !shows_text(name),
        gap.len() == 0 || gap == seq![' '],
        lines[i].body == seq!['@'] + name + gap + seq![':'] + text,
        forall|j: int|
            0 <= j < text.len() ==> #[trigger] text[j] != '\t' && text[j] != '|' && text[j] != '+',
    ensures
        kernel_doc_tag(lines[i].body),
        line_kinds(lines, flavor, budget)[i] == LineKind::DoxygenTag,
{
    let s = lines[i].body;
    let n = name.len() as int;
    let rest = s.skip(1);
    assert(rest =~= name + gap + seq![':'] + text);
    assert forall|j: int| 0 <= j < n implies in_class(#[trigger] rest[j], CharClass::Word) by {
        assert(rest[j] == name[j]);
    }
    assert(!in_class(rest[n], CharClass::Word)) by {
        if gap.len() == 0 {
            assert(rest[n] == ':');
        } else {
            assert(rest[n] == ' ');
        }
    }
    lemma_lead_len(rest, CharClass::Word, n);
    let more = rest.skip(n);
    assert(more =~= gap + seq![':'] + text);
    lemma_lead_len(more, CharClass::White, gap.len() as int);
    assert(trimmed_start(more)[0] == ':');
    assert(kernel_doc_tag(s));
    lemma_region_text(lines, i);
    assert(s[0] == '@');
    assert(s[1] == name[0]);
    assert forall|j: int| 0 < j < s.len() implies #[trigger] s[j] != '\t' && s[j] != '|' && s[j]
        != '+' by {
        if j <= n {
            assert(s[j] == name[j - 1]);
        } else if j >= n + 2 + gap.len() {
            assert(s[j] == text[j - n - 2 - gap.len()]);
        }
    }
    crate::shape_laws::lemma_not_laid_out(s);
    let t = trimmed(s);
    crate::pieces::lemma_solid_inside(s, 0);
    crate::pieces::lemma_has_words(s);
    crate::ordinary_prose::lemma_trimmed_at(s);
    assert(t[0] == '@');
    crate::shape_laws::lemma_no_hash(s);
    crate::shape_laws::lemma_no_underline(s, 0);
    lemma_lead_len(t, CharClass::Rule, 0);
    assert(!crate::textline::is_bookend(s)) by {
        assert(!in_class(t[0], CharClass::Rule));
    }
    lemma_lead_len(s, CharClass::Blank, 0);
    assert(after_lead(s, CharClass::Blank) =~= s);
    assert(rest.take(n) =~= name);
    assert(tag_keyword(rest) == name);
    assert(tag_shape(name) != Some(TagShape::VerbatimOpen));
    assert(command_shape(s) != Some(TagShape::VerbatimOpen));
}

/// An address or a path is no tag, whatever it starts with.
pub proof fn law_addresses_are_no_tags(m: char, k: Seq<char>, c: char, rest: Seq<char>)
    requires
        m == '@' || m == '\\',
        k.len() > 0,
        forall|j: int| 0 <= j < k.len() ==> is_word_char(#[trigger] k[j]),
        c == '.' || c == '/' || c == '@',
    ensures
        !tag_start(seq![m] + k + (seq![c] + rest)),
{
    let w = seq![m] + k + (seq![c] + rest);
    let n = k.len() as int;
    let u = w.skip(1);
    assert(u =~= k + (seq![c] + rest));
    assert forall|j: int| 0 <= j < n + 1 implies in_class(#[trigger] u[j], CharClass::Solid) by {
        if j < n {
            assert(u[j] == k[j]);
        }
    }
    assert forall|j: int| 0 <= j < n implies in_class(#[trigger] u[j], CharClass::Word) by {
        assert(u[j] == k[j]);
    }
    assert(u[n] == c);
    let lead = lead_run(u, CharClass::Solid);
    let q = lead_len(u, CharClass::Solid) as int;
    crate::text::lemma_lead_len_facts(u, CharClass::Solid);
    assert(q > n) by {
        if q <= n {
            assert(in_class(u[q], CharClass::Solid));
        }
    }
    assert(lead[n] == c);
    assert(in_class(lead[n], CharClass::Three('.', '/', '@')));
    assert(crate::linekind::email_or_path(u));
    lemma_lead_len(u, CharClass::Word, n);
    let more = u.skip(n);
    assert(more[0] == c);
    lemma_lead_len(more, CharClass::White, 0);
    assert(trimmed_start(more) =~= more);
}

/// `@` and a name of letters, digits and underscores is a name alone; nothing else is.
pub proof fn law_lone_names(name: Seq<char>, c: char, rest: Seq<char>)
    requires
        forall|j: int| 0 <= j < name.len() ==> is_word_char(#[trigger] name[j]),
        !is_word_char(c),
    ensures
        lone_kdoc_name(seq!['@'] + name) == (name.len() > 0),
        !lone_kdoc_name(seq!['@'] + name + seq![c] + rest),
        !lone_kdoc_name(name),
{
    let a = seq!['@'] + name;
    assert(a.skip(1) =~= name);
    assert forall|j: int| 0 <= j < name.len() implies in_class(#[trigger] name[j], CharClass::Word) by {}
    let b = seq!['@'] + name + seq![c] + rest;
    assert(b.skip(1)[name.len() as int] == c);
    assert(!in_class(b.skip(1)[name.len() as int], CharClass::Word));
    if name.len() > 0 {
        assert(is_word_char(name[0]));
    }
}

} // verus!
