//! Manual-page blocks: a `DESCRIPTION` and a `RETURN` section in a comment
//! between a function's signature and its body, turned into plain paragraphs.

use crate::kdoc::{make_line, made_line};
use crate::linekind::LineKind;
use crate::normalize::{line_texts, Line, LineText};
use crate::text::{
    all_in, any_in, cat2, drop_suffix, has_prefix, join_range, joined, less_suffix, lower_ascii,
    lowered, only_of, same, some_of, split_char, split_on, split_words, strip_prefix, strs, texts,
    trim, trimmed, words_of, CharClass,
};
use vstd::prelude::*;

verus! {

/// The sections that a manual-page block is made of.
#[derive(Debug, Clone, Copy, PartialEq, Eq, Structural)]
pub enum Section {
    Description,
    Return,
}

/// The section that a heading names; headings are all capitals.
pub open spec fn section_of(seg: Seq<char>) -> Option<Section> {
    let name = less_suffix(seg, ":"@);
    if name == "DESCRIPTION"@ {
        Some(Section::Description)
    } else if name == "RETURN"@ || name == "RETURNS"@ || name == "RETURN VALUE"@ || name
        == "RETURN VALUES"@ {
        Some(Section::Return)
    } else {
        None
    }
}

fn recognize(seg: &str) -> (r: Option<Section>)
    ensures
        r == section_of(seg@),
{
    let name = drop_suffix(seg, ":");
    if same(name, "DESCRIPTION") {
        Some(Section::Description)
    } else if same(name, "RETURN") || same(name, "RETURNS") || same(name, "RETURN VALUE") || same(
        name,
        "RETURN VALUES",
    ) {
        Some(Section::Return)
    } else {
        None
    }
}

/// A short segment of nothing but capitals and spaces, with or without a colon.
pub open spec fn heading(seg: Seq<char>) -> bool {
    let name = less_suffix(seg, ":"@);
    &&& 0 < name.len() <= 24
    &&& all_in(name, CharClass::CapitalOrSpace)
    &&& any_in(name, CharClass::Capital)
}

fn looks_like_header(seg: &str) -> (r: bool)
    ensures
        r == heading(seg@),
{
    let name = drop_suffix(seg, ":");
    let len: usize = name.unicode_len();
    len > 0 && len <= 24 && only_of(name, CharClass::CapitalOrSpace) && some_of(
        name,
        CharClass::Capital,
    )
}

/// The sections as far as they are read.
pub ghost struct Page {
    pub current: Option<Section>,
    /// The description's lines; an empty one is a paragraph break.
    pub description: Seq<Seq<char>>,
    /// The words of the return section.
    pub words: Seq<Seq<char>>,
    pub has_description: bool,
    pub has_return: bool,
    /// A heading without a known section was met, or text ahead of any heading.
    pub foreign: bool,
}

/// Takes one more segment.
pub open spec fn page_step(p: Page, seg: Seq<char>) -> Page {
    if p.foreign {
        p
    } else if seg.len() == 0 {
        if p.current == Some(Section::Description) && p.description.len() > 0 {
            Page { description: p.description.push(seg), ..p }
        } else {
            p
        }
    } else if heading(seg) {
        match section_of(seg) {
            None => Page { foreign: true, ..p },
            Some(Section::Description) => Page {
                current: Some(Section::Description),
                has_description: true,
                ..p
            },
            Some(Section::Return) => Page {
                current: Some(Section::Return),
                has_return: true,
                ..p
            },
        }
    } else {
        match p.current {
            None => Page { foreign: true, ..p },
            Some(Section::Description) => Page { description: p.description.push(seg), ..p },
            Some(Section::Return) => Page { words: p.words + words_of(seg), ..p },
        }
    }
}

/// The first `n` segments, read as sections.
pub open spec fn page(segs: Seq<Seq<char>>, n: int) -> Page
    decreases n,
{
    if n <= 0 {
        Page {
            current: None,
            description: Seq::empty(),
            words: Seq::empty(),
            has_description: false,
            has_return: false,
            foreign: false,
        }
    } else {
        page_step(page(segs, n - 1), segs[n - 1])
    }
}

/// The list without the empty texts at its end.
pub open spec fn without_trailing_empty(v: Seq<Seq<char>>) -> Seq<Seq<char>>
    decreases v.len(),
{
    if v.len() > 0 && v.last().len() == 0 {
        without_trailing_empty(v.drop_last())
    } else {
        v
    }
}

/// The return text without a leading `Return` of its own.
pub open spec fn return_description(s: Seq<char>) -> Seq<char> {
    let t = if has_prefix(s, "Returns "@) {
        s.skip(8)
    } else if has_prefix(s, "Return "@) {
        s.skip(7)
    } else if has_prefix(s, "returns "@) {
        s.skip(8)
    } else if has_prefix(s, "return "@) {
        s.skip(7)
    } else {
        s
    };
    if lowered(t) == "returns"@ || lowered(t) == "return"@ {
        Seq::empty()
    } else {
        t
    }
}

/// The closing sentence of a converted block.
pub open spec fn return_sentence(words: Seq<Seq<char>>) -> Seq<char> {
    let t = return_description(joined(words, " "@));
    if t.len() == 0 {
        "Return"@
    } else {
        "Return "@ + t
    }
}

/// A description line of a converted block.
pub open spec fn description_line(s: Seq<char>, had_crlf: bool) -> LineText {
    if s.len() == 0 {
        made_line(LineKind::Blank, s, had_crlf)
    } else {
        made_line(LineKind::Prose, s, had_crlf)
    }
}

/// The lines of a manual-page block: the description, a blank line, and the
/// return sentence. `None` unless both sections are there, the description has
/// text, and nothing else is in the block.
pub open spec fn page_lines(segs: Seq<Seq<char>>, had_crlf: bool) -> Option<Seq<LineText>> {
    let p = page(segs, segs.len() as int);
    let description = without_trailing_empty(p.description);
    if p.foreign || !p.has_description || !p.has_return || description.len() == 0 {
        None
    } else {
        Some(
            Seq::new(description.len(), |i: int| description_line(description[i], had_crlf)).push(
                made_line(LineKind::Blank, Seq::empty(), had_crlf),
            ).push(made_line(LineKind::Prose, return_sentence(p.words), had_crlf)),
        )
    }
}

fn strip_return_lead(s: &str) -> (r: String)
    ensures
        r@ == return_description(s@),
{
    proof {
        reveal_strlit("Returns ");
        reveal_strlit("Return ");
        reveal_strlit("returns ");
        reveal_strlit("return ");
    }
    let t = if let Some(rest) = strip_prefix(s, "Returns ") {
        rest
    } else if let Some(rest) = strip_prefix(s, "Return ") {
        rest
    } else if let Some(rest) = strip_prefix(s, "returns ") {
        rest
    } else if let Some(rest) = strip_prefix(s, "return ") {
        rest
    } else {
        s
    };
    let low = lower_ascii(t);
    if same(low.as_str(), "returns") || same(low.as_str(), "return") {
        let empty = String::new();
        assert(empty@ =~= Seq::<char>::empty());
        empty
    } else {
        t.to_string()
    }
}

fn return_line(words: &Vec<&str>) -> (r: String)
    ensures
        r@ == return_sentence(strs(words@)),
{
    let text = join_range(words, 0, words.len(), " ");
    assert(strs(words@).subrange(0, words.len() as int) =~= strs(words@));
    let t = strip_return_lead(text.as_str());
    if t.as_str().is_empty() {
        "Return".to_string()
    } else {
        cat2("Return ", t.as_str())
    }
}

proof fn lemma_foreign_stays(segs: Seq<Seq<char>>, i: int, n: int)
    requires
        0 <= i <= n,
        page(segs, i).foreign,
    ensures
        page(segs, n).foreign,
    decreases n - i,
{
    if i < n {
        lemma_foreign_stays(segs, i + 1, n);
    }
}

/// Reads segments as the sections of a manual page and lays them out as plain
/// paragraphs.
pub fn convert_manpage_segments(segments: &Vec<String>, had_crlf: bool) -> (r: Option<Vec<Line>>)
    ensures
        (match r {
            Some(v) => page_lines(texts(segments@), had_crlf) == Some(line_texts(v@)),
            None => page_lines(texts(segments@), had_crlf) is None,
        }),
{
    let ghost segs = texts(segments@);
    let mut current: Option<Section> = None;
    let mut desc: Vec<&str> = Vec::new();
    let mut words: Vec<&str> = Vec::new();
    let mut seen_desc = false;
    let mut seen_ret = false;
    let mut i: usize = 0;
    assert(strs(desc@) =~= Seq::empty());
    assert(strs(words@) =~= Seq::empty());
    while i < segments.len()
        invariant
            i <= segments.len(),
            segs == texts(segments@),
            page(segs, i as int) == (Page {
                current,
                description: strs(desc@),
                words: strs(words@),
                has_description: seen_desc,
                has_return: seen_ret,
                foreign: false,
            }),
        decreases segments.len() - i,
    {
        let seg = segments[i].as_str();
        assert(segs[i as int] == seg@);
        let ghost description = strs(desc@);
        let ghost had = strs(words@);
        if seg.is_empty() {
            if current == Some(Section::Description) && desc.len() > 0 {
                desc.push(seg);
                assert(strs(desc@) =~= description.push(seg@));
            }
        } else if looks_like_header(seg) {
            match recognize(seg) {
                None => {
                    proof {
                        lemma_foreign_stays(segs, i + 1, segs.len() as int);
                    }
                    return None;
                },
                Some(Section::Description) => {
                    seen_desc = true;
                    current = Some(Section::Description);
                },
                Some(Section::Return) => {
                    seen_ret = true;
                    current = Some(Section::Return);
                },
            }
        } else {
            match current {
                None => {
                    proof {
                        lemma_foreign_stays(segs, i + 1, segs.len() as int);
                    }
                    return None;
                },
                Some(Section::Description) => {
                    desc.push(seg);
                    assert(strs(desc@) =~= description.push(seg@));
                },
                Some(Section::Return) => {
                    let mut more = split_words(seg);
                    let ghost new = strs(more@);
                    words.append(&mut more);
                    assert(strs(words@) =~= had + new);
                },
            }
        }
        i = i + 1;
    }
    if !(seen_desc && seen_ret) {
        return None;
    }
    let ghost full = strs(desc@);
    while desc.len() > 0 && desc[desc.len() - 1].is_empty()
        invariant
            without_trailing_empty(strs(desc@)) == without_trailing_empty(full),
        decreases desc.len(),
    {
        let ghost before = strs(desc@);
        let _ = desc.pop();
        assert(strs(desc@) =~= before.drop_last());
    }
    proof {
        if desc.len() > 0 {
            assert(strs(desc@).last() == desc@.last()@);
        }
        assert(strs(desc@) == without_trailing_empty(full));
    }
    if desc.len() == 0 {
        return None;
    }
    let ghost kept = strs(desc@);
    let mut out: Vec<Line> = Vec::new();
    let mut k: usize = 0;
    while k < desc.len()
        invariant
            k <= desc.len(),
            kept == strs(desc@),
            out.len() == k,
            forall|j: int|
                0 <= j < k ==> (#[trigger] out@[j])@ == description_line(kept[j], had_crlf),
        decreases desc.len() - k,
    {
        assert(kept[k as int] == desc@[k as int]@);
        let text = desc[k].to_string();
        if desc[k].is_empty() {
            out.push(make_line(LineKind::Blank, text, had_crlf));
        } else {
            out.push(make_line(LineKind::Prose, text, had_crlf));
        }
        k = k + 1;
    }
    let ghost lines = Seq::new(kept.len(), |i: int| description_line(kept[i], had_crlf));
    assert(line_texts(out@) =~= lines);
    let empty = String::new();
    assert(empty@ =~= Seq::<char>::empty());
    let gap = make_line(LineKind::Blank, empty, had_crlf);
    let last = make_line(LineKind::Prose, return_line(&words), had_crlf);
    out.push(gap);
    out.push(last);
    assert(line_texts(out@) =~= lines.push(gap@).push(last@));
    Some(out)
}

/// The trimmed texts of `lines`.
pub open spec fn trimmed_texts(lines: Seq<LineText>) -> Seq<Seq<char>> {
    Seq::new(lines.len(), |i: int| trimmed(lines[i].text))
}

/// The conversion of a block whose lines are intact.
pub open spec fn clean_page(lines: Seq<LineText>) -> Option<Seq<LineText>> {
    page_lines(trimmed_texts(lines), lines.len() > 0 && lines[0].had_crlf)
}

pub fn convert_manpage_sections(lines: &Vec<Line>) -> (r: Option<Vec<Line>>)
    ensures
        (match r {
            Some(v) => clean_page(line_texts(lines@)) == Some(line_texts(v@)),
            None => clean_page(line_texts(lines@)) is None,
        }),
{
    let ghost all = line_texts(lines@);
    let mut segs: Vec<String> = Vec::new();
    let mut i: usize = 0;
    while i < lines.len()
        invariant
            i <= lines.len(),
            all == line_texts(lines@),
            segs.len() == i,
            forall|j: int| 0 <= j < i ==> (#[trigger] segs@[j])@ == trimmed(all[j].text),
        decreases lines.len() - i,
    {
        assert(all[i as int] == lines@[i as int]@);
        segs.push(trim(lines[i].text.as_str()).to_string());
        i = i + 1;
    }
    assert(texts(segs@) =~= trimmed_texts(all));
    if lines.len() > 0 {
        assert(all[0] == lines@[0]@);
    }
    let had_crlf = lines.len() > 0 && lines[0].had_crlf;
    convert_manpage_segments(&segs, had_crlf)
}

/// The words of each piece, with single spaces.
pub open spec fn squeezed(pieces: Seq<Seq<char>>) -> Seq<Seq<char>> {
    Seq::new(pieces.len(), |i: int| joined(words_of(pieces[i]), " "@))
}

/// The inside of a block comment.
pub open spec fn block_inside(text: Seq<char>) -> Option<Seq<char>> {
    let t = trimmed(text);
    if has_prefix(t, "/**"@) {
        Some(less_suffix(t.skip(3), "*/"@))
    } else if has_prefix(t, "/*"@) {
        Some(less_suffix(t.skip(2), "*/"@))
    } else {
        None
    }
}

/// The conversion of a block whose line markers have run into its text: every
/// star is taken for a former line marker.
pub open spec fn mangled_page(text: Seq<char>, had_crlf: bool) -> Option<Seq<LineText>> {
    match block_inside(text) {
        Some(inside) => page_lines(squeezed(split_on(inside, '*')), had_crlf),
        None => None,
    }
}

pub fn convert_mangled_manpage_sections(text: &str, had_crlf: bool) -> (r: Option<Vec<Line>>)
    ensures
        (match r {
            Some(v) => mangled_page(text@, had_crlf) == Some(line_texts(v@)),
            None => mangled_page(text@, had_crlf) is None,
        }),
{
    proof {
        reveal_strlit("/**");
        reveal_strlit("/*");
    }
    let t = trim(text);
    let inside = match strip_prefix(t, "/**") {
        Some(rest) => rest,
        None => match strip_prefix(t, "/*") {
            Some(rest) => rest,
            None => {
                return None;
            },
        },
    };
    let inside = drop_suffix(inside, "*/");
    let pieces = split_char(inside, '*');
    let ghost all = split_on(inside@, '*');
    assert(pieces.len() == all.len());
    let mut segs: Vec<String> = Vec::new();
    let mut i: usize = 0;
    while i < pieces.len()
        invariant
            i <= pieces.len(),
            all == strs(pieces@),
            segs.len() == i,
            forall|j: int| 0 <= j < i ==> (#[trigger] segs@[j])@ == joined(words_of(all[j]), " "@),
        decreases pieces.len() - i,
    {
        assert(all[i as int] == pieces@[i as int]@);
        let words = split_words(pieces[i]);
        assert(strs(words@).subrange(0, words.len() as int) =~= strs(words@));
        segs.push(join_range(&words, 0, words.len(), " "));
        i = i + 1;
    }
    assert(texts(segs@) =~= squeezed(all));
    convert_manpage_segments(&segs, had_crlf)
}

} // verus!
