//! What one body line of a comment is.

use crate::classify::DocFlavor;
use crate::text::{
    all_in, any_in, count_lead, has_prefix, lead_len, lead_run, leads_with, only_of, opens_with,
    same, skip_chars, some_of, starts_with, strip_prefix, take_lead, trim, trim_end, trim_start,
    trimmed, trimmed_end, trimmed_start, CharClass,
};
use crate::textline::{
    art, art_only, assignment_line, bookended, fence_marker_run, fence_run, half_banner,
    has_marked_neighbour, indented_code, is_art, is_assignment_line, is_bookend, is_indented_code,
    is_kernel_doc_tag, is_table_row, keep_complete_row_runs, kernel_doc_tag, line_is_art_only,
    one_sided_banner, table_row, FAST_PATH_TAB_WIDTH,
};
use crate::width::{clamped, columns, display_width};
use vstd::prelude::*;

verus! {

/// The role of one body line.
#[derive(Debug, Clone, Copy, PartialEq, Eq, Structural)]
pub enum LineKind {
    Blank,
    Prose,
    AtxHeader,
    SetextUnderline,
    ListItem,
    DoxygenTag,
    FenceOpen,
    FenceContent,
    FenceClose,
    DoxyVerbatimOpen,
    DoxyVerbatimContent,
    DoxyVerbatimClose,
    IndentedCode,
    TableRow,
    Blockquote,
    ReferenceLink,
    Metadata,
    LabelRow,
    Banner,
    Art,
}

/// A comment line without its marker.
pub struct StrippedLine {
    /// What the line is emitted behind.
    pub prefix: String,
    pub body: String,
    pub had_crlf: bool,
}

/// `StrippedLine` over plain text.
pub ghost struct StrippedText {
    pub prefix: Seq<char>,
    pub body: Seq<char>,
    pub had_crlf: bool,
}

impl View for StrippedLine {
    type V = StrippedText;

    open spec fn view(&self) -> StrippedText {
        StrippedText { prefix: self.prefix@, body: self.body@, had_crlf: self.had_crlf }
    }
}

pub open spec fn stripped_texts(v: Seq<StrippedLine>) -> Seq<StrippedText> {
    Seq::new(v.len(), |i: int| v[i]@)
}

/// What a Doxygen command takes behind its keyword.
#[derive(Debug, Clone, Copy, PartialEq, Eq, Structural)]
pub enum TagShape {
    /// A name, then a description.
    Named,
    /// A description.
    Plain,
    /// Lines up to the matching end command, which are not text.
    VerbatimOpen,
    VerbatimClose,
}

pub open spec fn named_keyword(k: Seq<char>) -> bool {
    k == "param"@ || k == "tparam"@ || k == "retval"@ || k == "throw"@ || k == "throws"@ || k
        == "exception"@
}

pub open spec fn plain_keyword(k: Seq<char>) -> bool {
    ||| k == "return"@ || k == "returns"@ || k == "brief"@ || k == "short"@
    ||| k == "details"@ || k == "note"@ || k == "warning"@ || k == "attention"@ || k == "see"@
    ||| k == "sa"@ || k == "file"@ || k == "author"@ || k == "authors"@ || k == "date"@
    ||| k == "version"@ || k == "since"@ || k == "deprecated"@ || k == "todo"@ || k == "bug"@
    ||| k == "pre"@ || k == "post"@ || k == "invariant"@ || k == "remark"@ || k == "remarks"@
    ||| k == "copyright"@ || k == "example"@ || k == "ingroup"@ || k == "defgroup"@
    ||| k == "addtogroup"@
}

pub open spec fn verbatim_keyword(k: Seq<char>) -> bool {
    k == "code"@ || k == "verbatim"@ || k == "dot"@ || k == "msc"@ || k == "startuml"@
}

pub open spec fn verbatim_end_keyword(k: Seq<char>) -> bool {
    k == "endcode"@ || k == "endverbatim"@ || k == "enddot"@ || k == "endmsc"@ || k == "enduml"@
}

/// The table of Doxygen commands.
pub open spec fn tag_shape(k: Seq<char>) -> Option<TagShape> {
    if named_keyword(k) {
        Some(TagShape::Named)
    } else if plain_keyword(k) {
        Some(TagShape::Plain)
    } else if verbatim_keyword(k) {
        Some(TagShape::VerbatimOpen)
    } else if verbatim_end_keyword(k) {
        Some(TagShape::VerbatimClose)
    } else {
        None
    }
}

/// Looks a bare keyword up in the table of Doxygen commands.
pub fn doxy_tag(k: &str) -> (r: Option<TagShape>)
    ensures
        r == tag_shape(k@),
{
    if same(k, "param") || same(k, "tparam") || same(k, "retval") || same(k, "throw") || same(
        k,
        "throws",
    ) || same(k, "exception") {
        return Some(TagShape::Named);
    }
    if same(k, "return") || same(k, "returns") || same(k, "brief") || same(
        k,
        "short",
    ) || same(k, "details") || same(k, "note") || same(k, "warning") || same(k, "attention")
        || same(k, "see") || same(k, "sa") || same(k, "file") || same(k, "author") || same(
        k,
        "authors",
    ) || same(k, "date") || same(k, "version") || same(k, "since") || same(k, "deprecated") || same(
        k,
        "todo",
    ) || same(k, "bug") || same(k, "pre") || same(k, "post") || same(k, "invariant") || same(
        k,
        "remark",
    ) || same(k, "remarks") || same(k, "copyright") || same(k, "example") || same(k, "ingroup")
        || same(k, "defgroup") || same(k, "addtogroup") {
        return Some(TagShape::Plain);
    }
    if same(k, "code") || same(k, "verbatim") || same(k, "dot") || same(k, "msc") || same(
        k,
        "startuml",
    ) {
        return Some(TagShape::VerbatimOpen);
    }
    if same(k, "endcode") || same(k, "endverbatim") || same(k, "enddot") || same(k, "endmsc")
        || same(k, "enduml") {
        return Some(TagShape::VerbatimClose);
    }
    None
}

/// The keyword of a command, from the text behind its marker: the leading run
/// of letters, digits and underscores.
pub open spec fn tag_keyword(rest: Seq<char>) -> Seq<char> {
    lead_run(rest, CharClass::Word)
}

pub fn doxy_keyword<'a>(rest: &'a str) -> (r: &'a str)
    ensures
        r@ == tag_keyword(rest@),
{
    take_lead(rest, CharClass::Word)
}

/// The first word behind a marker holds what only a path, a file name or a
/// mail address holds.
pub open spec fn email_or_path(rest: Seq<char>) -> bool {
    any_in(lead_run(rest, CharClass::Solid), CharClass::Three('.', '/', '@'))
}

pub fn looks_like_email_or_path(rest: &str) -> (r: bool)
    ensures
        r == email_or_path(rest@),
{
    some_of(take_lead(rest, CharClass::Solid), CharClass::Three('.', '/', '@'))
}


/// What kind of region a line lies in.
pub ghost enum Region {
    Text,
    /// A fence of that many of that character is open.
    Fence(char, nat),
    /// A verbatim command is open.
    Verbatim,
}

/// The shape of the command that opens a line, when one does.
pub open spec fn command_shape(body: Seq<char>) -> Option<TagShape> {
    let t = trimmed_start(body);
    if leads_with(t, CharClass::Two('@', '\\')) && !email_or_path(t.skip(1)) {
        tag_shape(tag_keyword(t.skip(1)))
    } else {
        None
    }
}

fn line_command(body: &str) -> (r: Option<TagShape>)
    ensures
        r == command_shape(body@),
{
    let t = trim_start(body);
    if !opens_with(t, CharClass::Two('@', '\\')) {
        return None;
    }
    let rest = skip_chars(t, 1);
    if looks_like_email_or_path(rest) {
        return None;
    }
    doxy_tag(doxy_keyword(rest))
}

/// A line closes a fence: nothing but the fence's character, at least as many
/// of it.
pub open spec fn closes_fence(body: Seq<char>, c: char, run: nat) -> bool {
    trimmed(body).len() >= run && trimmed(body).len() > 0 && all_in(
        trimmed(body),
        CharClass::One(c),
    )
}

/// A line opens a fence of three or more.
pub open spec fn opens_fence(body: Seq<char>) -> bool {
    fence_run(body) is Some && (fence_run(body)->0).1 >= 3
}

/// The region behind a line, from the region in front of it.
pub open spec fn region_after(r: Region, body: Seq<char>) -> Region {
    match r {
        Region::Fence(c, n) => if closes_fence(body, c, n) {
            Region::Text
        } else {
            r
        },
        Region::Verbatim => if command_shape(body) == Some(TagShape::VerbatimClose) {
            Region::Text
        } else {
            r
        },
        Region::Text => if opens_fence(body) {
            Region::Fence((fence_run(body)->0).0, (fence_run(body)->0).1)
        } else if command_shape(body) == Some(TagShape::VerbatimOpen) {
            Region::Verbatim
        } else {
            Region::Text
        },
    }
}

/// The region in front of line `i`.
pub open spec fn region_before(lines: Seq<StrippedText>, i: int) -> Region
    decreases i,
{
    if i <= 0 {
        Region::Text
    } else {
        region_after(region_before(lines, i - 1), lines[i - 1].body)
    }
}

/// A decorated line next to a drawing is part of the drawing.
pub open spec fn art_adjacent_bookend(lines: Seq<StrippedText>, i: int) -> bool {
    is_bookend(lines[i].body) && ((i > 0 && art_only(lines[i - 1].body)) || (i + 1 < lines.len()
        && art_only(lines[i + 1].body)))
}

fn is_art_adjacent_bookend(lines: &Vec<StrippedLine>, i: usize) -> (r: bool)
    requires
        i < lines.len(),
    ensures
        r == art_adjacent_bookend(stripped_texts(lines@), i as int),
{
    bookended(lines[i].body.as_str()) && ((i > 0 && line_is_art_only(lines[i - 1].body.as_str()))
        || (i + 1 < lines.len() && line_is_art_only(lines[i + 1].body.as_str())))
}

/// One to six hashes, a blank, and text.
pub open spec fn atx_header(body: Seq<char>) -> bool {
    let t = trimmed(body);
    let n = lead_len(t, CharClass::One('#'));
    1 <= n <= 6 && leads_with(t.skip(n as int), CharClass::Blank)
}

fn is_atx_header(body: &str) -> (r: bool)
    ensures
        r == atx_header(body@),
{
    let t = trim(body);
    let n: usize = count_lead(t, CharClass::One('#'));
    n >= 1 && n <= 6 && opens_with(skip_chars(t, n), CharClass::Blank)
}

/// A line of nothing but `=`, or nothing but `-`.
pub open spec fn setext_rule(body: Seq<char>) -> bool {
    let t = trimmed(body);
    t.len() >= 2 && (all_in(t, CharClass::One('=')) || all_in(t, CharClass::One('-')))
}

fn is_setext_rule(body: &str) -> (r: bool)
    ensures
        r == setext_rule(body@),
{
    let t = trim(body);
    t.unicode_len() >= 2 && (only_of(t, CharClass::One('=')) || only_of(t, CharClass::One('-')))
}

/// A bullet, or a number with a dot or a parenthesis, set off by a blank.
pub open spec fn list_item(body: Seq<char>) -> bool {
    let t = trimmed_start(body);
    let n = lead_len(t, CharClass::Digit);
    let rest = t.skip(n as int);
    ||| leads_with(t, CharClass::Three('-', '*', '+')) && leads_with(t.skip(1), CharClass::Blank)
    ||| n > 0 && leads_with(rest, CharClass::Two('.', ')')) && leads_with(
        rest.skip(1),
        CharClass::Blank,
    )
}

fn is_list_item(body: &str) -> (r: bool)
    ensures
        r == list_item(body@),
{
    let t = trim_start(body);
    if opens_with(t, CharClass::Three('-', '*', '+')) {
        if opens_with(skip_chars(t, 1), CharClass::Blank) {
            return true;
        }
    }
    let n: usize = count_lead(t, CharClass::Digit);
    let rest = skip_chars(t, n);
    n > 0 && opens_with(rest, CharClass::Two('.', ')')) && opens_with(
        skip_chars(rest, 1),
        CharClass::Blank,
    )
}

/// A quoted line.
pub open spec fn blockquote(body: Seq<char>) -> bool {
    let t = trimmed(body);
    t == ">"@ || has_prefix(t, "> "@)
}

fn is_blockquote(body: &str) -> (r: bool)
    ensures
        r == blockquote(body@),
{
    let t = trim(body);
    same(t, ">") || starts_with(t, "> ")
}

/// The definition of a reference: a label in brackets, a colon, and a target.
pub open spec fn reference_link(body: Seq<char>) -> bool {
    let t = trimmed(body);
    let n = lead_len(t, CharClass::NotOne(']'));
    leads_with(t, CharClass::One('[')) && n > 1 && has_prefix(t.skip(n as int), "]: "@)
}

fn is_reference_link(body: &str) -> (r: bool)
    ensures
        r == reference_link(body@),
{
    let t = trim(body);
    let n: usize = count_lead(t, CharClass::NotOne(']'));
    opens_with(t, CharClass::One('[')) && n > 1 && starts_with(skip_chars(t, n), "]: ")
}

/// A licence tag, a copyright notice with a year or a sign, or a version line.
pub open spec fn metadata_line(body: Seq<char>) -> bool {
    let t = trimmed(body);
    let rest = trimmed_start(t.skip("Copyright"@.len() as int));
    ||| has_prefix(t, "SPDX-"@)
    ||| has_prefix(t, "Version:"@)
    ||| has_prefix(t, "License:"@)
    ||| has_prefix(t, "Copyright"@) && (leads_with(rest, CharClass::Digit) || leads_with(
        rest,
        CharClass::One('©'),
    ) || has_prefix(rest, "(c)"@) || has_prefix(rest, "(C)"@))
}

fn is_metadata_line(body: &str) -> (r: bool)
    ensures
        r == metadata_line(body@),
{
    let t = trim(body);
    if starts_with(t, "SPDX-") || starts_with(t, "Version:") || starts_with(t, "License:") {
        return true;
    }
    match strip_prefix(t, "Copyright") {
        Some(after) => {
            let rest = trim_start(after);
            opens_with(rest, CharClass::Digit) || opens_with(rest, CharClass::One('©'))
                || starts_with(rest, "(c)") || starts_with(rest, "(C)")
        },
        None => false,
    }
}

/// The kind of a line of text, by its own shape and that of its neighbours.
/// What is not recognized is prose.
pub open spec fn text_kind(
    lines: Seq<StrippedText>,
    i: int,
    flavor: DocFlavor,
    above: LineKind,
) -> LineKind {
    let body = lines[i].body;
    if trimmed(body).len() == 0 {
        LineKind::Blank
    } else if opens_fence(body) {
        LineKind::FenceOpen
    } else if command_shape(body) == Some(TagShape::VerbatimOpen) {
        LineKind::DoxyVerbatimOpen
    } else if art_adjacent_bookend(lines, i) {
        LineKind::Art
    } else if above == LineKind::Prose && setext_rule(body) {
        LineKind::SetextUnderline
    } else if atx_header(body) {
        LineKind::AtxHeader
    } else if metadata_line(body) {
        LineKind::Metadata
    } else if table_row(body) {
        LineKind::TableRow
    } else if indented_code(body) {
        LineKind::IndentedCode
    } else if blockquote(body) {
        LineKind::Blockquote
    } else if reference_link(body) {
        LineKind::ReferenceLink
    } else if kernel_doc_tag(trimmed_start(body)) || (flavor == DocFlavor::Doxygen && command_shape(
        body,
    ) is Some) {
        LineKind::DoxygenTag
    } else if list_item(body) {
        LineKind::ListItem
    } else if art(body) {
        LineKind::Art
    } else {
        LineKind::Prose
    }
}

/// The kind of line `i` before runs of rows and banners are told from prose.
pub open spec fn base_kind(lines: Seq<StrippedText>, i: int, flavor: DocFlavor) -> LineKind
    decreases i,
{
    let body = lines[i].body;
    match region_before(lines, i) {
        Region::Fence(c, n) => if closes_fence(body, c, n) {
            LineKind::FenceClose
        } else {
            LineKind::FenceContent
        },
        Region::Verbatim => if command_shape(body) == Some(TagShape::VerbatimClose) {
            LineKind::DoxyVerbatimClose
        } else {
            LineKind::DoxyVerbatimContent
        },
        Region::Text => text_kind(
            lines,
            i,
            flavor,
            if i > 0 {
                base_kind(lines, i - 1, flavor)
            } else {
                LineKind::Blank
            },
        ),
    }
}

fn kind_of_text(lines: &Vec<StrippedLine>, i: usize, flavor: DocFlavor, above: LineKind) -> (r:
    LineKind)
    requires
        i < lines.len(),
    ensures
        r == text_kind(stripped_texts(lines@), i as int, flavor, above),
{
    let body = lines[i].body.as_str();
    assert(stripped_texts(lines@)[i as int].body == body@);
    if trim(body).is_empty() {
        return LineKind::Blank;
    }
    let fence = match fence_marker_run(body) {
        Some((_, run)) => run >= 3,
        None => false,
    };
    if fence {
        return LineKind::FenceOpen;
    }
    let command = line_command(body);
    if command == Some(TagShape::VerbatimOpen) {
        LineKind::DoxyVerbatimOpen
    } else if is_art_adjacent_bookend(lines, i) {
        LineKind::Art
    } else if above == LineKind::Prose && is_setext_rule(body) {
        LineKind::SetextUnderline
    } else if is_atx_header(body) {
        LineKind::AtxHeader
    } else if is_metadata_line(body) {
        LineKind::Metadata
    } else if is_table_row(body) {
        LineKind::TableRow
    } else if is_indented_code(body) {
        LineKind::IndentedCode
    } else if is_blockquote(body) {
        LineKind::Blockquote
    } else if is_reference_link(body) {
        LineKind::ReferenceLink
    } else if is_kernel_doc_tag(trim_start(body)) || (flavor == DocFlavor::Doxygen
        && command.is_some()) {
        LineKind::DoxygenTag
    } else if is_list_item(body) {
        LineKind::ListItem
    } else if is_art(body) {
        LineKind::Art
    } else {
        LineKind::Prose
    }
}

/// Where a walk over lines stands.
pub(crate) enum Place {
    Text,
    Fence(char, usize),
    Verbatim,
}

impl View for Place {
    type V = Region;

    open(crate) spec fn view(&self) -> Region {
        match *self {
            Place::Text => Region::Text,
            Place::Fence(c, n) => Region::Fence(c, n as nat),
            Place::Verbatim => Region::Verbatim,
        }
    }
}

fn fence_closed(body: &str, c: char, run: usize) -> (r: bool)
    ensures
        r == closes_fence(body@, c, run as nat),
{
    let t = trim(body);
    let len: usize = t.unicode_len();
    len >= run && len > 0 && only_of(t, CharClass::One(c))
}

fn base_kinds(lines: &Vec<StrippedLine>, flavor: DocFlavor) -> (r: Vec<LineKind>)
    ensures
        r.len() == lines.len(),
        forall|i: int|
            0 <= i < r.len() ==> #[trigger] r@[i] == base_kind(
                stripped_texts(lines@),
                i,
                flavor,
            ),
{
    let ghost all = stripped_texts(lines@);
    let mut out: Vec<LineKind> = Vec::new();
    let mut place = Place::Text;
    let mut i: usize = 0;
    while i < lines.len()
        invariant
            i <= lines.len(),
            all == stripped_texts(lines@),
            place@ == region_before(all, i as int),
            out.len() == i,
            forall|j: int| 0 <= j < i ==> #[trigger] out@[j] == base_kind(all, j, flavor),
        decreases lines.len() - i,
    {
        let body = lines[i].body.as_str();
        assert(all[i as int].body == body@);
        let above = if i > 0 {
            assert(out@[i - 1] == base_kind(all, i - 1, flavor));
            out[i - 1]
        } else {
            LineKind::Blank
        };
        match place {
            Place::Fence(c, n) => {
                if fence_closed(body, c, n) {
                    out.push(LineKind::FenceClose);
                    place = Place::Text;
                } else {
                    out.push(LineKind::FenceContent);
                }
            },
            Place::Verbatim => {
                if line_command(body) == Some(TagShape::VerbatimClose) {
                    out.push(LineKind::DoxyVerbatimClose);
                    place = Place::Text;
                } else {
                    out.push(LineKind::DoxyVerbatimContent);
                }
            },
            Place::Text => {
                let kind = kind_of_text(lines, i, flavor, above);
                out.push(kind);
                match fence_marker_run(body) {
                    Some((c, run)) if run >= 3 => {
                        place = Place::Fence(c, run);
                    },
                    _ => {
                        if line_command(body) == Some(TagShape::VerbatimOpen) {
                            place = Place::Verbatim;
                        }
                    },
                }
            },
        }
        i = i + 1;
    }
    out
}

/// A labelled row: a capitalized word, a colon, and a value.
pub open spec fn label_shape(body: Seq<char>) -> bool {
    let t = trimmed(body);
    let key = lead_len(t, CharClass::Word);
    let rest = trimmed_start(t.skip(key as int));
    &&& leads_with(t, CharClass::Capital)
    &&& leads_with(rest, CharClass::One(':'))
    &&& leads_with(rest.skip(1), CharClass::Blank)
}

fn is_label_shape(body: &str) -> (r: bool)
    ensures
        r == label_shape(body@),
{
    let t = trim(body);
    let key: usize = count_lead(t, CharClass::Word);
    let rest = trim_start(skip_chars(t, key));
    if !opens_with(t, CharClass::Capital) || !opens_with(rest, CharClass::One(':')) {
        return false;
    }
    opens_with(skip_chars(rest, 1), CharClass::Blank)
}

/// A line is short enough to stand as it is.
pub open spec fn within(body: Seq<char>, budget: usize) -> bool {
    clamped(columns(trimmed_end(body), FAST_PATH_TAB_WIDTH as nat)) <= budget
}

/// Line `i` is a labelled row that fits and does not run on into prose.
pub open spec fn label_row(
    lines: Seq<StrippedText>,
    kinds: Seq<LineKind>,
    budget: usize,
    i: int,
) -> bool {
    &&& kinds[i] == LineKind::Prose
    &&& label_shape(lines[i].body)
    &&& within(lines[i].body, budget)
    &&& !(i + 1 < lines.len() && kinds[i + 1] == LineKind::Prose && !label_shape(
        lines[i + 1].body,
    ))
}

/// Line `i` is a mapping row that fits.
pub open spec fn mapping_row(
    lines: Seq<StrippedText>,
    kinds: Seq<LineKind>,
    budget: usize,
    i: int,
) -> bool {
    kinds[i] == LineKind::Prose && assignment_line(lines[i].body) && within(lines[i].body, budget)
}

pub open spec fn label_rows(lines: Seq<StrippedText>, kinds: Seq<LineKind>, budget: usize) -> Seq<
    bool,
> {
    Seq::new(lines.len(), |i: int| label_row(lines, kinds, budget, i))
}

pub open spec fn mapping_rows(lines: Seq<StrippedText>, kinds: Seq<LineKind>, budget: usize) -> Seq<
    bool,
> {
    Seq::new(lines.len(), |i: int| mapping_row(lines, kinds, budget, i))
}

/// Line `i` is a row in a run of two or more.
pub open spec fn frozen_row(
    lines: Seq<StrippedText>,
    kinds: Seq<LineKind>,
    budget: usize,
    i: int,
) -> bool {
    let labels = label_rows(lines, kinds, budget);
    let mappings = mapping_rows(lines, kinds, budget);
    (labels[i] && has_marked_neighbour(labels, i)) || (mappings[i] && has_marked_neighbour(
        mappings,
        i,
    ))
}

/// A line that takes prose below it into its paragraph.
pub open spec fn takes_prose(k: LineKind) -> bool {
    k == LineKind::Prose || k == LineKind::DoxygenTag || k == LineKind::ListItem || k
        == LineKind::SetextUnderline
}

/// Line `i` shares its paragraph with no other line.
pub open spec fn stands_alone(
    lines: Seq<StrippedText>,
    kinds: Seq<LineKind>,
    budget: usize,
    i: int,
) -> bool {
    &&& !(i > 0 && takes_prose(kinds[i - 1]) && !frozen_row(lines, kinds, budget, i - 1))
    &&& !(i + 1 < lines.len() && kinds[i + 1] == LineKind::Prose && !frozen_row(
        lines,
        kinds,
        budget,
        i + 1,
    ))
}

/// The kind of line `i`: a run of rows and a banner that stands alone keep
/// their layout, and what is left of the prose is prose.
pub open spec fn settled_kind(
    lines: Seq<StrippedText>,
    kinds: Seq<LineKind>,
    budget: usize,
    i: int,
) -> LineKind {
    if kinds[i] != LineKind::Prose {
        kinds[i]
    } else if frozen_row(lines, kinds, budget, i) {
        LineKind::LabelRow
    } else if half_banner(lines[i].body) && stands_alone(lines, kinds, budget, i) {
        LineKind::Banner
    } else {
        LineKind::Prose
    }
}

/// The kinds of all lines.
pub open spec fn line_kinds(lines: Seq<StrippedText>, flavor: DocFlavor, budget: usize) -> Seq<
    LineKind,
> {
    let kinds = Seq::new(lines.len(), |i: int| base_kind(lines, i, flavor));
    Seq::new(lines.len(), |i: int| settled_kind(lines, kinds, budget, i))
}

fn fits(body: &str, budget: usize) -> (r: bool)
    ensures
        r == within(body@, budget),
{
    display_width(trim_end(body), FAST_PATH_TAB_WIDTH) <= budget
}

fn mark_rows(lines: &Vec<StrippedLine>, kinds: &Vec<LineKind>, budget: usize) -> (r: (
    Vec<bool>,
    Vec<bool>,
))
    requires
        kinds.len() == lines.len(),
    ensures
        r.0@ == label_rows(stripped_texts(lines@), kinds@, budget),
        r.1@ == mapping_rows(stripped_texts(lines@), kinds@, budget),
{
    let ghost all = stripped_texts(lines@);
    let n: usize = lines.len();
    let mut labels: Vec<bool> = Vec::new();
    let mut mappings: Vec<bool> = Vec::new();
    let mut i: usize = 0;
    while i < n
        invariant
            i <= n == lines.len(),
            kinds.len() == n,
            all == stripped_texts(lines@),
            labels.len() == i,
            mappings.len() == i,
            forall|j: int| 0 <= j < i ==> #[trigger] labels@[j] == label_row(all, kinds@, budget, j),
            forall|j: int|
                0 <= j < i ==> #[trigger] mappings@[j] == mapping_row(all, kinds@, budget, j),
        decreases n - i,
    {
        let body = lines[i].body.as_str();
        assert(all[i as int].body == body@);
        let prose = kinds[i] == LineKind::Prose;
        let mut label = false;
        if prose && is_label_shape(body) && fits(body, budget) {
            label = true;
            if i + 1 < n {
                assert(all[i + 1].body == lines@[i + 1].body@);
                if kinds[i + 1] == LineKind::Prose && !is_label_shape(lines[i + 1].body.as_str()) {
                    label = false;
                }
            }
        }
        labels.push(label);
        mappings.push(prose && is_assignment_line(body) && fits(body, budget));
        i = i + 1;
    }
    assert(labels@ =~= label_rows(all, kinds@, budget));
    assert(mappings@ =~= mapping_rows(all, kinds@, budget));
    (labels, mappings)
}

fn kind_takes_prose(k: LineKind) -> (r: bool)
    ensures
        r == takes_prose(k),
{
    k == LineKind::Prose || k == LineKind::DoxygenTag || k == LineKind::ListItem || k
        == LineKind::SetextUnderline
}

/// The kinds of a comment's lines. `label_budget` is the width that a row has
/// to keep to.
pub fn classify_lines(lines: &Vec<StrippedLine>, flavor: DocFlavor, label_budget: usize) -> (r: Vec<
    LineKind,
>)
    ensures
        r@ == line_kinds(stripped_texts(lines@), flavor, label_budget),
{
    let ghost all = stripped_texts(lines@);
    let kinds = base_kinds(lines, flavor);
    let ghost base = Seq::new(all.len(), |i: int| base_kind(all, i, flavor));
    assert(kinds@ =~= base);
    let (mut labels, mut mappings) = mark_rows(lines, &kinds, label_budget);
    let ghost marked_labels = labels@;
    let ghost marked_mappings = mappings@;
    keep_complete_row_runs(&mut labels);
    keep_complete_row_runs(&mut mappings);
    let n: usize = lines.len();
    let mut out: Vec<LineKind> = Vec::new();
    let mut i: usize = 0;
    while i < n
        invariant
            i <= n == lines.len(),
            kinds.len() == n,
            labels.len() == n,
            mappings.len() == n,
            all == stripped_texts(lines@),
            kinds@ == base,
            marked_labels == label_rows(all, base, label_budget),
            marked_mappings == mapping_rows(all, base, label_budget),
            forall|j: int|
                0 <= j < n ==> #[trigger] labels@[j] == (marked_labels[j] && has_marked_neighbour(
                    marked_labels,
                    j,
                )),
            forall|j: int|
                0 <= j < n ==> #[trigger] mappings@[j] == (marked_mappings[j]
                    && has_marked_neighbour(marked_mappings, j)),
            out.len() == i,
            forall|j: int|
                0 <= j < i ==> #[trigger] out@[j] == settled_kind(all, base, label_budget, j),
        decreases n - i,
    {
        let body = lines[i].body.as_str();
        assert(all[i as int].body == body@);
        let frozen = labels[i] || mappings[i];
        assert(frozen == frozen_row(all, base, label_budget, i as int));
        let kind = if kinds[i] != LineKind::Prose {
            kinds[i]
        } else if frozen {
            LineKind::LabelRow
        } else if one_sided_banner(body) {
            let joined_above = if i > 0 {
                assert(labels@[i - 1] || mappings@[i - 1] <==> frozen_row(
                    all,
                    base,
                    label_budget,
                    i - 1,
                ));
                kind_takes_prose(kinds[i - 1]) && !(labels[i - 1] || mappings[i - 1])
            } else {
                false
            };
            let joined_below = if i + 1 < n {
                assert(labels@[i + 1] || mappings@[i + 1] <==> frozen_row(
                    all,
                    base,
                    label_budget,
                    i + 1,
                ));
                kinds[i + 1] == LineKind::Prose && !(labels[i + 1] || mappings[i + 1])
            } else {
                false
            };
            if !joined_above && !joined_below {
                LineKind::Banner
            } else {
                LineKind::Prose
            }
        } else {
            LineKind::Prose
        };
        out.push(kind);
        i = i + 1;
    }
    assert(out@ =~= line_kinds(all, flavor, label_budget));
    out
}

} // verus!
