//! Doxygen parameter and return blocks in kernel-doc form.

use crate::linekind::{doxy_tag, tag_shape, LineKind};
use crate::normalize::{line_texts, Line, LineText};
use crate::parse::Language;
use crate::text::{
    all_in, before_trail, cat2, cat4, drop_trail, is_one_of, join_range, joined, leads_with,
    only_of, opens_with, same, skip_chars, split_words, strs, texts, words_of, CharClass,
};
use crate::textline::{return_pieces, split_at_return_boundary};
use vstd::prelude::*;

verus! {

/// The tags that have a kernel-doc form.
#[derive(Debug, Clone, Copy, PartialEq, Eq, Structural)]
pub enum KTag {
    Param,
    Return,
}

/// The tag that a keyword names. A direction behind `param` is accepted and
/// carries no meaning; a malformed one is not.
pub open spec fn keyword_tag(kw: Seq<char>) -> Option<KTag> {
    if kw == "param"@ || kw == "param[in]"@ || kw == "param[out]"@ || kw == "param[in,out]"@ {
        Some(KTag::Param)
    } else if kw == "return"@ || kw == "returns"@ {
        Some(KTag::Return)
    } else {
        None
    }
}

pub fn kdoc_tag_of_keyword(kw: &str) -> (r: Option<KTag>)
    ensures
        r == keyword_tag(kw@),
{
    if same(kw, "param") || same(kw, "param[in]") || same(kw, "param[out]") || same(
        kw,
        "param[in,out]",
    ) {
        Some(KTag::Param)
    } else if same(kw, "return") || same(kw, "returns") {
        Some(KTag::Return)
    } else {
        None
    }
}

/// A word opens like a tag, with `@` or a backslash.
pub open spec fn marked(word: Seq<char>) -> bool {
    leads_with(word, CharClass::Two('@', '\\'))
}

/// The convertible tag that a word is.
pub open spec fn word_tag(word: Seq<char>) -> Option<KTag> {
    if marked(word) {
        keyword_tag(word.skip(1))
    } else {
        None
    }
}

pub fn kdoc_tag_of(word: &str) -> (r: Option<KTag>)
    ensures
        r == word_tag(word@),
{
    if opens_with(word, CharClass::Two('@', '\\')) {
        kdoc_tag_of_keyword(skip_chars(word, 1))
    } else {
        None
    }
}

/// A parameter name: ASCII letters, digits and underscores.
pub open spec fn kdoc_name(s: Seq<char>) -> bool {
    s.len() > 0 && all_in(s, CharClass::Word)
}

fn is_kdoc_name(s: &str) -> (r: bool)
    ensures
        r == kdoc_name(s@),
{
    !s.is_empty() && only_of(s, CharClass::Word)
}

/// A word that is spelled like a tag, but none that is converted.
pub open spec fn foreign_tag(word: Seq<char>) -> bool {
    marked(word) && leads_with(word.skip(1), CharClass::AsciiLetter) && keyword_tag(word.skip(1))
        is None
}

fn is_foreign_tag(word: &str) -> (r: bool)
    ensures
        r == foreign_tag(word@),
{
    if !opens_with(word, CharClass::Two('@', '\\')) {
        return false;
    }
    let kw = skip_chars(word, 1);
    opens_with(kw, CharClass::AsciiLetter) && kdoc_tag_of_keyword(kw).is_none()
}

/// The letter of a C escape.
pub open spec fn escape_letter(name: Seq<char>) -> bool {
    name == "a"@ || name == "b"@ || name == "e"@ || name == "f"@ || name == "n"@ || name == "r"@
        || name == "t"@ || name == "v"@
}

/// The name that a reference points at: what follows the marker, without
/// punctuation at its end. A C escape is no reference.
pub open spec fn xref_name(word: Seq<char>) -> Option<Seq<char>> {
    let name = before_trail(word.skip(1), CharClass::NonWord);
    if marked(word) && !(leads_with(word, CharClass::One('\\')) && escape_letter(name))
        && leads_with(name, CharClass::NameStart) && all_in(name, CharClass::Word) {
        Some(name)
    } else {
        None
    }
}

pub fn kdoc_xref_name<'a>(word: &'a str) -> (r: Option<&'a str>)
    ensures
        (match r {
            Some(n) => xref_name(word@) == Some(n@),
            None => xref_name(word@) is None,
        }),
{
    if !opens_with(word, CharClass::Two('@', '\\')) {
        return None;
    }
    let name = drop_trail(skip_chars(word, 1), CharClass::NonWord);
    if opens_with(word, CharClass::One('\\')) && (same(name, "a") || same(name, "b") || same(
        name,
        "e",
    ) || same(name, "f") || same(name, "n") || same(name, "r") || same(name, "t") || same(
        name,
        "v",
    )) {
        return None;
    }
    if opens_with(name, CharClass::NameStart) && only_of(name, CharClass::Word) {
        Some(name)
    } else {
        None
    }
}

/// A word that refers to one of the declared parameters. A parameter named
/// like a Doxygen command is never referred to: the word is the command.
pub open spec fn param_xref(word: Seq<char>, names: Seq<Seq<char>>) -> bool {
    match xref_name(word) {
        Some(name) => names.contains(name) && tag_shape(name) is None,
        None => false,
    }
}

fn is_param_xref(word: &str, names: &Vec<&str>) -> (r: bool)
    ensures
        r == param_xref(word@, strs(names@)),
{
    match kdoc_xref_name(word) {
        Some(name) => is_one_of(name, names.as_slice()) && doxy_tag(name).is_none(),
        None => false,
    }
}

/// A new line whose source is its text.
pub open spec fn made_line(kind: LineKind, text: Seq<char>, had_crlf: bool) -> LineText {
    LineText { kind, text, had_crlf, raw: text }
}

pub fn make_line(kind: LineKind, text: String, had_crlf: bool) -> (r: Line)
    ensures
        r@ == made_line(kind, text@, had_crlf),
{
    let raw = text.clone();
    Line { kind, text, had_crlf, raw }
}

/// The first word of a text is a return tag.
pub open spec fn opens_with_return_tag(s: Seq<char>) -> bool {
    words_of(s).len() > 0 && word_tag(words_of(s)[0]) == Some(KTag::Return)
}

fn is_return_tag(s: &str) -> (r: bool)
    ensures
        r == opens_with_return_tag(s@),
{
    let words = split_words(s);
    assert(words.len() == words_of(s@).len());
    if words.len() == 0 {
        return false;
    }
    assert(words_of(s@)[0] == words@[0]@);
    kdoc_tag_of(words[0]) == Some(KTag::Return)
}

/// Some piece but the first opens with a return tag.
pub open spec fn hoists_return(pieces: Seq<Seq<char>>) -> bool {
    exists|i: int| 1 <= i < pieces.len() && opens_with_return_tag(#[trigger] pieces[i])
}

/// A prose line with a return tag in its middle, cut so that the tag opens a
/// line; any other line as it is.
pub open spec fn return_lines(l: LineText) -> Seq<LineText> {
    let pieces = return_pieces(l.text);
    if l.kind == LineKind::Prose && hoists_return(pieces) {
        Seq::new(pieces.len(), |i: int| made_line(LineKind::Prose, pieces[i], l.had_crlf))
    } else {
        seq![l]
    }
}

/// The first `n` lines, each cut at its return tags.
pub open spec fn return_split(lines: Seq<LineText>, n: int) -> Seq<LineText>
    decreases n,
{
    if n <= 0 {
        Seq::empty()
    } else {
        return_split(lines, n - 1) + return_lines(lines[n - 1])
    }
}

fn any_hoisted_return(pieces: &Vec<String>) -> (r: bool)
    ensures
        r == hoists_return(texts(pieces@)),
{
    let ghost all = texts(pieces@);
    let mut i: usize = 1;
    while i < pieces.len()
        invariant
            1 <= i,
            all == texts(pieces@),
            forall|j: int| 1 <= j < i && j < all.len() ==> !opens_with_return_tag(#[trigger] all[j]),
        decreases pieces.len() - i,
    {
        assert(all[i as int] == pieces@[i as int]@);
        if is_return_tag(pieces[i].as_str()) {
            return true;
        }
        i = i + 1;
    }
    false
}

/// A copy of a line.
pub fn copy_line(l: &Line) -> (r: Line)
    ensures
        r@ == l@,
{
    Line { kind: l.kind, text: l.text.clone(), had_crlf: l.had_crlf, raw: l.raw.clone() }
}

/// Puts every return tag in the middle of a prose line at the start of a line.
/// Lines of other languages than C and C++ stay as they are.
pub fn split_doxygen_return_boundaries(lines: Vec<Line>, lang: Language) -> (r: Vec<Line>)
    ensures
        line_texts(r@) == (if lang.is_c_like() {
            return_split(line_texts(lines@), lines.len() as int)
        } else {
            line_texts(lines@)
        }),
{
    if !lang.c_like() {
        return lines;
    }
    let ghost all = line_texts(lines@);
    let mut out: Vec<Line> = Vec::new();
    let mut i: usize = 0;
    assert(line_texts(out@) =~= return_split(all, 0));
    while i < lines.len()
        invariant
            i <= lines.len(),
            all == line_texts(lines@),
            line_texts(out@) == return_split(all, i as int),
        decreases lines.len() - i,
    {
        let l = &lines[i];
        assert(all[i as int] == l@);
        let ghost before = line_texts(out@);
        let pieces = split_at_return_boundary(l.text.as_str());
        if l.kind == LineKind::Prose && any_hoisted_return(&pieces) {
            let ghost cut = texts(pieces@);
            let ghost news = return_lines(l@);
            let mut j: usize = 0;
            assert(line_texts(out@) =~= before + news.take(0));
            while j < pieces.len()
                invariant
                    j <= pieces.len() == news.len(),
                    cut == texts(pieces@),
                    cut == return_pieces(l@.text),
                    l.kind == LineKind::Prose,
                    hoists_return(cut),
                    news == return_lines(l@),
                    line_texts(out@) == before + news.take(j as int),
                decreases pieces.len() - j,
            {
                let ghost done = line_texts(out@);
                let line = make_line(LineKind::Prose, pieces[j].clone(), l.had_crlf);
                out.push(line);
                assert(cut[j as int] == pieces@[j as int]@);
                assert(line@ == news[j as int]);
                assert(line_texts(out@) =~= done.push(line@));
                assert(line_texts(out@) =~= before + news.take(j + 1));
                j = j + 1;
            }
            assert(news.take(j as int) =~= news);
        } else {
            let line = copy_line(l);
            out.push(line);
            assert(line_texts(out@) =~= before + seq![l@]);
        }
        i = i + 1;
    }
    out
}

/// A tag and the words behind it.
pub ghost struct EntryText {
    pub tag: KTag,
    pub words: Seq<Seq<char>>,
}

/// What a scan of the tag region has found so far.
pub ghost struct Scan {
    pub entries: Seq<EntryText>,
    /// A blank line has followed the last entry.
    pub blank: bool,
    /// Text was found that belongs to no entry.
    pub stray: bool,
}

/// The tag that a word of the region opens an entry with; `Return` and
/// `Returns` do so at the start of a line.
pub open spec fn entry_tag(word: Seq<char>, at_start: bool) -> Option<KTag> {
    if word_tag(word) is Some {
        word_tag(word)
    } else if at_start && (word == "Return"@ || word == "Returns"@) {
        Some(KTag::Return)
    } else {
        None
    }
}

/// Takes one more word into the scan.
pub open spec fn scan_word(s: Scan, word: Seq<char>, at_start: bool) -> Scan {
    if s.stray {
        s
    } else {
        match entry_tag(word, at_start) {
            Some(tag) => Scan {
                entries: s.entries.push(EntryText { tag, words: Seq::empty() }),
                blank: false,
                stray: false,
            },
            None => if (at_start && s.blank) || s.entries.len() == 0 {
                Scan { stray: true, ..s }
            } else {
                let last = s.entries.last();
                Scan {
                    entries: s.entries.drop_last().push(
                        EntryText { tag: last.tag, words: last.words.push(word) },
                    ),
                    ..s
                }
            },
        }
    }
}

/// Takes the first `n` words of a line into the scan.
pub open spec fn scan_words(s: Scan, words: Seq<Seq<char>>, n: int) -> Scan
    decreases n,
{
    if n <= 0 {
        s
    } else {
        scan_word(scan_words(s, words, n - 1), words[n - 1], n == 1)
    }
}

pub open spec fn scan_line(s: Scan, l: LineText) -> Scan {
    if s.stray {
        s
    } else if l.kind == LineKind::Blank {
        Scan { blank: s.blank || s.entries.len() > 0, ..s }
    } else {
        scan_words(s, words_of(l.text), words_of(l.text).len() as int)
    }
}

/// The scan of the lines from `first` to before `n`.
pub open spec fn scanned(lines: Seq<LineText>, first: int, n: int) -> Scan
    decreases n - first,
{
    if n <= first {
        Scan { entries: Seq::empty(), blank: false, stray: false }
    } else {
        scan_line(scanned(lines, first, n - 1), lines[n - 1])
    }
}

/// The first word of the line is a convertible tag.
pub open spec fn opens_region(l: LineText) -> bool {
    words_of(l.text).len() > 0 && word_tag(words_of(l.text)[0]) is Some
}

/// The first line at or behind `i` that opens the tag region; the number of
/// lines where none does.
pub open spec fn region_start(lines: Seq<LineText>, i: int) -> int
    decreases lines.len() - i,
{
    if i >= lines.len() {
        lines.len() as int
    } else if opens_region(lines[i]) {
        i
    } else {
        region_start(lines, i + 1)
    }
}

/// The words of the lines from `first` to before `n`, in order.
pub open spec fn region_words(lines: Seq<LineText>, first: int, n: int) -> Seq<Seq<char>>
    decreases n - first,
{
    if n <= first {
        Seq::empty()
    } else {
        region_words(lines, first, n - 1) + words_of(lines[n - 1].text)
    }
}

/// The parameters that the words from `i` on declare: each name behind a
/// parameter tag.
pub open spec fn declared_names(words: Seq<Seq<char>>, i: int) -> Seq<Seq<char>>
    decreases words.len() - i,
{
    if i >= words.len() {
        Seq::empty()
    } else if word_tag(words[i]) != Some(KTag::Param) {
        declared_names(words, i + 1)
    } else if i + 1 >= words.len() {
        Seq::empty()
    } else if kdoc_name(words[i + 1]) {
        seq![words[i + 1]] + declared_names(words, i + 2)
    } else {
        declared_names(words, i + 2)
    }
}

/// A word that stops the conversion.
pub open spec fn blocks(word: Seq<char>, names: Seq<Seq<char>>) -> bool {
    foreign_tag(word) && !param_xref(word, names)
}

pub open spec fn line_blocks(l: LineText, names: Seq<Seq<char>>) -> bool {
    exists|i: int| 0 <= i < words_of(l.text).len() && blocks(#[trigger] words_of(l.text)[i], names)
}

pub open spec fn any_blocks(lines: Seq<LineText>, names: Seq<Seq<char>>) -> bool {
    exists|i: int| 0 <= i < lines.len() && line_blocks(#[trigger] lines[i], names)
}

/// An entry that can be converted: a parameter has a name, which is not itself
/// the keyword of a convertible tag.
pub open spec fn good_entry(e: EntryText) -> bool {
    e.tag == KTag::Param ==> e.words.len() > 0 && kdoc_name(e.words[0]) && keyword_tag(e.words[0])
        is None
}

pub open spec fn good_entries(entries: Seq<EntryText>) -> bool {
    forall|i: int| 0 <= i < entries.len() ==> good_entry(#[trigger] entries[i])
}

/// The line of a parameter entry.
pub open spec fn param_line(e: EntryText) -> Seq<char> {
    let rest = joined(e.words.skip(1), " "@);
    if rest.len() == 0 {
        "@"@ + e.words[0] + " :"@
    } else {
        "@"@ + e.words[0] + " : "@ + rest
    }
}

/// The line of a return entry.
pub open spec fn return_text(e: EntryText) -> Seq<char> {
    let rest = joined(e.words, " "@);
    if rest.len() == 0 {
        "Return"@
    } else {
        "Return "@ + rest
    }
}

/// The parameter lines of the first `n` entries.
pub open spec fn param_lines(entries: Seq<EntryText>, n: int, had_crlf: bool) -> Seq<LineText>
    decreases n,
{
    if n <= 0 {
        Seq::empty()
    } else if entries[n - 1].tag == KTag::Param {
        param_lines(entries, n - 1, had_crlf).push(
            made_line(LineKind::DoxygenTag, param_line(entries[n - 1]), had_crlf),
        )
    } else {
        param_lines(entries, n - 1, had_crlf)
    }
}

/// The return lines of the first `n` entries.
pub open spec fn returned_lines(entries: Seq<EntryText>, n: int, had_crlf: bool) -> Seq<LineText>
    decreases n,
{
    if n <= 0 {
        Seq::empty()
    } else if entries[n - 1].tag == KTag::Return {
        returned_lines(entries, n - 1, had_crlf).push(
            made_line(LineKind::Prose, return_text(entries[n - 1]), had_crlf),
        )
    } else {
        returned_lines(entries, n - 1, had_crlf)
    }
}

/// The converted comment: the lines ahead of the region, the parameters, and
/// behind a blank line the returns.
pub open spec fn emitted(head: Seq<LineText>, entries: Seq<EntryText>, had_crlf: bool) -> Seq<
    LineText,
> {
    let n = entries.len() as int;
    let params = head + param_lines(entries, n, had_crlf);
    let rets = returned_lines(entries, n, had_crlf);
    if rets.len() == 0 {
        params
    } else if params.len() > 0 && params.last().kind != LineKind::Blank {
        params.push(made_line(LineKind::Blank, Seq::empty(), had_crlf)) + rets
    } else {
        params + rets
    }
}

/// The lines in kernel-doc form. Without a tag region, with a tag that has no
/// kernel-doc form, or with an entry that cannot be converted, they stay as
/// they are.
pub open spec fn kernel_doc(lines: Seq<LineText>) -> Seq<LineText> {
    let n = lines.len() as int;
    let first = region_start(lines, 0);
    let names = declared_names(region_words(lines, first, n), 0);
    let scan = scanned(lines, first, n);
    if first >= n || any_blocks(lines, names) || scan.stray || !good_entries(scan.entries) {
        lines
    } else {
        emitted(lines.take(first), scan.entries, lines[first].had_crlf)
    }
}

/// A tag and the words behind it.
struct Entry<'a> {
    tag: KTag,
    words: Vec<&'a str>,
}

spec fn entry_texts(v: Seq<Entry>) -> Seq<EntryText> {
    Seq::new(v.len(), |i: int| EntryText { tag: v[i].tag, words: strs(v[i].words@) })
}

fn line_opens_region(l: &Line) -> (r: bool)
    ensures
        r == opens_region(l@),
{
    let words = split_words(l.text.as_str());
    assert(words.len() == words_of(l.text@).len());
    if words.len() == 0 {
        return false;
    }
    assert(words_of(l.text@)[0] == words@[0]@);
    kdoc_tag_of(words[0]).is_some()
}

fn find_region(lines: &Vec<Line>) -> (first: usize)
    ensures
        first == region_start(line_texts(lines@), 0),
        first <= lines.len(),
{
    let ghost all = line_texts(lines@);
    let mut i: usize = 0;
    while i < lines.len()
        invariant
            i <= lines.len(),
            all == line_texts(lines@),
            region_start(all, 0) == region_start(all, i as int),
        decreases lines.len() - i,
    {
        assert(all[i as int] == lines@[i as int]@);
        if line_opens_region(&lines[i]) {
            return i;
        }
        i = i + 1;
    }
    i
}

fn collect_words<'a>(lines: &'a Vec<Line>, first: usize) -> (r: Vec<&'a str>)
    requires
        first <= lines.len(),
    ensures
        strs(r@) == region_words(line_texts(lines@), first as int, lines.len() as int),
{
    let ghost all = line_texts(lines@);
    let mut out: Vec<&'a str> = Vec::new();
    let mut i: usize = first;
    assert(strs(out@) =~= region_words(all, first as int, first as int));
    while i < lines.len()
        invariant
            first <= i <= lines.len(),
            all == line_texts(lines@),
            strs(out@) == region_words(all, first as int, i as int),
        decreases lines.len() - i,
    {
        assert(all[i as int] == lines@[i as int]@);
        let ghost before = strs(out@);
        let mut words = split_words(lines[i].text.as_str());
        let ghost more = strs(words@);
        out.append(&mut words);
        assert(strs(out@) =~= before + more);
        i = i + 1;
    }
    out
}

fn collect_names<'a>(words: &Vec<&'a str>) -> (r: Vec<&'a str>)
    ensures
        strs(r@) == declared_names(strs(words@), 0),
{
    let ghost all = strs(words@);
    let mut out: Vec<&'a str> = Vec::new();
    let mut i: usize = 0;
    assert(strs(out@) + declared_names(all, 0) =~= declared_names(all, 0));
    while i < words.len()
        invariant
            i <= words.len(),
            all == strs(words@),
            strs(out@) + declared_names(all, i as int) == declared_names(all, 0),
        decreases words.len() - i,
    {
        assert(all[i as int] == words@[i as int]@);
        if kdoc_tag_of(words[i]) == Some(KTag::Param) {
            if i + 1 < words.len() {
                assert(all[i + 1] == words@[i + 1]@);
                if is_kdoc_name(words[i + 1]) {
                    let ghost before = strs(out@);
                    out.push(words[i + 1]);
                    assert(strs(out@) =~= before + seq![all[i + 1]]);
                    assert(strs(out@) + declared_names(all, i + 2) =~= before + declared_names(
                        all,
                        i as int,
                    ));
                }
                i = i + 2;
            } else {
                i = i + 1;
            }
        } else {
            i = i + 1;
        }
    }
    assert(strs(out@) =~= strs(out@) + declared_names(all, i as int));
    out
}

fn has_blocking_word(l: &Line, names: &Vec<&str>) -> (r: bool)
    ensures
        r == line_blocks(l@, strs(names@)),
{
    let words = split_words(l.text.as_str());
    let ghost all = words_of(l.text@);
    assert(words.len() == all.len());
    let mut i: usize = 0;
    while i < words.len()
        invariant
            i <= words.len(),
            strs(words@) == all,
            all == words_of(l@.text),
            forall|j: int| 0 <= j < i ==> !blocks(#[trigger] all[j], strs(names@)),
        decreases words.len() - i,
    {
        assert(all[i as int] == words@[i as int]@);
        if is_foreign_tag(words[i]) && !is_param_xref(words[i], names) {
            return true;
        }
        i = i + 1;
    }
    false
}

fn has_blocking_line(lines: &Vec<Line>, names: &Vec<&str>) -> (r: bool)
    ensures
        r == any_blocks(line_texts(lines@), strs(names@)),
{
    let ghost all = line_texts(lines@);
    let mut i: usize = 0;
    while i < lines.len()
        invariant
            i <= lines.len(),
            all == line_texts(lines@),
            forall|j: int| 0 <= j < i ==> !line_blocks(#[trigger] all[j], strs(names@)),
        decreases lines.len() - i,
    {
        assert(all[i as int] == lines@[i as int]@);
        if has_blocking_word(&lines[i], names) {
            return true;
        }
        i = i + 1;
    }
    false
}

/// Takes the words of one line into the scan; `false` when one belongs to no
/// entry.
fn take_line<'a>(l: &'a Line, entries: &mut Vec<Entry<'a>>, blank: &mut bool) -> (r: bool)
    ensures
        ({
            let s = Scan {
                entries: entry_texts(old(entries)@),
                blank: *old(blank),
                stray: false,
            };
            let t = scan_line(s, l@);
            &&& r == !t.stray
            &&& r ==> entry_texts(final(entries)@) == t.entries && *final(blank) == t.blank
        }),
{
    let ghost s = Scan { entries: entry_texts(entries@), blank: *blank, stray: false };
    if l.kind == LineKind::Blank {
        *blank = *blank || entries.len() > 0;
        return true;
    }
    let words = split_words(l.text.as_str());
    let ghost all = words_of(l.text@);
    assert(words.len() == all.len());
    let mut i: usize = 0;
    while i < words.len()
        invariant
            i <= words.len(),
            strs(words@) == all,
            all == words_of(l@.text),
            l.kind != LineKind::Blank,
            s == (Scan {
                entries: entry_texts(old(entries)@),
                blank: *old(blank),
                stray: false,
            }),
            scan_words(s, all, i as int) == (Scan {
                entries: entry_texts(entries@),
                blank: *blank,
                stray: false,
            }),
        decreases words.len() - i,
    {
        assert(all[i as int] == words@[i as int]@);
        let w = words[i];
        let ghost before = entry_texts(entries@);
        let tag = match kdoc_tag_of(w) {
            Some(t) => Some(t),
            None => if i == 0 && (same(w, "Return") || same(w, "Returns")) {
                Some(KTag::Return)
            } else {
                None
            },
        };
        match tag {
            Some(t) => {
                let entry = Entry { tag: t, words: Vec::new() };
                entries.push(entry);
                *blank = false;
                proof {
                    assert(strs(entry.words@) =~= Seq::<Seq<char>>::empty());
                    assert(entry_texts(entries@) =~= before.push(
                        EntryText { tag: t, words: Seq::empty() },
                    ));
                }
            },
            None => {
                if (i == 0 && *blank) || entries.len() == 0 {
                    proof {
                        assert(scan_words(s, all, i + 1) == scan_word(
                            scan_words(s, all, i as int),
                            all[i as int],
                            i == 0,
                        ));
                        lemma_stray_stays(s, all, i + 1, all.len() as int);
                    }
                    return false;
                }
                let mut last = entries.pop().unwrap();
                let ghost had = strs(last.words@);
                last.words.push(w);
                proof {
                    assert(strs(last.words@) =~= had.push(w@));
                    assert(before.last() == EntryText { tag: last.tag, words: had });
                }
                entries.push(last);
                assert(entry_texts(entries@) =~= before.drop_last().push(
                    EntryText { tag: last.tag, words: had.push(w@) },
                ));
            },
        }
        i = i + 1;
    }
    true
}

proof fn lemma_stray_stays(s: Scan, words: Seq<Seq<char>>, i: int, n: int)
    requires
        0 <= i <= n,
        scan_words(s, words, i).stray,
    ensures
        scan_words(s, words, n).stray,
    decreases n - i,
{
    if i < n {
        assert(scan_words(s, words, i + 1) == scan_word(
            scan_words(s, words, i),
            words[i],
            i + 1 == 1,
        ));
        lemma_stray_stays(s, words, i + 1, n);
    }
}

proof fn lemma_stray_lines(lines: Seq<LineText>, first: int, i: int, n: int)
    requires
        first <= i <= n,
        scanned(lines, first, i).stray,
    ensures
        scanned(lines, first, n).stray,
    decreases n - i,
{
    if i < n {
        lemma_stray_lines(lines, first, i + 1, n);
    }
}

fn scan_region<'a>(lines: &'a Vec<Line>, first: usize) -> (r: Option<Vec<Entry<'a>>>)
    requires
        first <= lines.len(),
    ensures
        ({
            let t = scanned(line_texts(lines@), first as int, lines.len() as int);
            match r {
                Some(v) => !t.stray && entry_texts(v@) == t.entries,
                None => t.stray,
            }
        }),
{
    let ghost all = line_texts(lines@);
    let mut entries: Vec<Entry<'a>> = Vec::new();
    let mut blank = false;
    let mut i: usize = first;
    assert(entry_texts(entries@) =~= Seq::empty());
    while i < lines.len()
        invariant
            first <= i <= lines.len(),
            all == line_texts(lines@),
            scanned(all, first as int, i as int) == (Scan {
                entries: entry_texts(entries@),
                blank,
                stray: false,
            }),
        decreases lines.len() - i,
    {
        assert(all[i as int] == lines@[i as int]@);
        if !take_line(&lines[i], &mut entries, &mut blank) {
            proof {
                lemma_stray_lines(all, first as int, i + 1, lines.len() as int);
            }
            return None;
        }
        i = i + 1;
    }
    Some(entries)
}

fn all_good(entries: &Vec<Entry>) -> (r: bool)
    ensures
        r == good_entries(entry_texts(entries@)),
{
    let ghost all = entry_texts(entries@);
    let mut i: usize = 0;
    while i < entries.len()
        invariant
            i <= entries.len(),
            all == entry_texts(entries@),
            forall|j: int| 0 <= j < i ==> good_entry(#[trigger] all[j]),
        decreases entries.len() - i,
    {
        let e = &entries[i];
        assert(all[i as int].words == strs(e.words@));
        assert(all[i as int].tag == e.tag);
        let good = if e.tag == KTag::Param {
            if e.words.len() == 0 {
                false
            } else {
                assert(strs(e.words@)[0] == e.words@[0]@);
                is_kdoc_name(e.words[0]) && kdoc_tag_of_keyword(e.words[0]).is_none()
            }
        } else {
            true
        };
        if !good {
            assert(!good_entry(all[i as int]));
            return false;
        }
        i = i + 1;
    }
    true
}

fn param_string(e: &Entry) -> (r: String)
    requires
        e.words.len() > 0,
    ensures
        r@ == param_line(EntryText { tag: e.tag, words: strs(e.words@) }),
{
    let ghost all = strs(e.words@);
    let rest = join_range(&e.words, 1, e.words.len(), " ");
    assert(all.subrange(1, all.len() as int) =~= all.skip(1));
    assert(all[0] == e.words@[0]@);
    if rest.as_str().is_empty() {
        crate::text::cat3("@", e.words[0], " :")
    } else {
        cat4("@", e.words[0], " : ", rest.as_str())
    }
}

fn return_string(e: &Entry) -> (r: String)
    ensures
        r@ == return_text(EntryText { tag: e.tag, words: strs(e.words@) }),
{
    let ghost all = strs(e.words@);
    let rest = join_range(&e.words, 0, e.words.len(), " ");
    assert(all.subrange(0, all.len() as int) =~= all);
    if rest.as_str().is_empty() {
        "Return".to_string()
    } else {
        cat2("Return ", rest.as_str())
    }
}

fn emit_entries(entries: &Vec<Entry>, had_crlf: bool) -> (r: (Vec<Line>, Vec<Line>))
    requires
        good_entries(entry_texts(entries@)),
    ensures
        line_texts(r.0@) == param_lines(entry_texts(entries@), entries.len() as int, had_crlf),
        line_texts(r.1@) == returned_lines(entry_texts(entries@), entries.len() as int, had_crlf),
{
    let ghost all = entry_texts(entries@);
    let mut params: Vec<Line> = Vec::new();
    let mut rets: Vec<Line> = Vec::new();
    let mut i: usize = 0;
    assert(line_texts(params@) =~= param_lines(all, 0, had_crlf));
    assert(line_texts(rets@) =~= returned_lines(all, 0, had_crlf));
    while i < entries.len()
        invariant
            i <= entries.len(),
            all == entry_texts(entries@),
            good_entries(all),
            line_texts(params@) == param_lines(all, i as int, had_crlf),
            line_texts(rets@) == returned_lines(all, i as int, had_crlf),
        decreases entries.len() - i,
    {
        let e = &entries[i];
        let ghost et = all[i as int];
        assert(et == EntryText { tag: e.tag, words: strs(e.words@) });
        assert(good_entry(et));
        match e.tag {
            KTag::Param => {
                let ghost before = line_texts(params@);
                let line = make_line(LineKind::DoxygenTag, param_string(e), had_crlf);
                params.push(line);
                assert(line_texts(params@) =~= before.push(line@));
            },
            KTag::Return => {
                let ghost before = line_texts(rets@);
                let line = make_line(LineKind::Prose, return_string(e), had_crlf);
                rets.push(line);
                assert(line_texts(rets@) =~= before.push(line@));
            },
        }
        i = i + 1;
    }
    (params, rets)
}

/// The lines that replace the region, if the comment can be converted.
fn converted_tail(lines: &Vec<Line>, first: usize) -> (r: Option<(Vec<Line>, Vec<Line>)>)
    requires
        first < lines.len(),
        first == region_start(line_texts(lines@), 0),
    ensures
        ({
            let all = line_texts(lines@);
            let n = lines.len() as int;
            let names = declared_names(region_words(all, first as int, n), 0);
            let scan = scanned(all, first as int, n);
            let crlf = all[first as int].had_crlf;
            match r {
                Some((p, q)) => {
                    &&& !any_blocks(all, names) && !scan.stray && good_entries(scan.entries)
                    &&& line_texts(p@) == param_lines(
                        scan.entries,
                        scan.entries.len() as int,
                        crlf,
                    )
                    &&& line_texts(q@) == returned_lines(
                        scan.entries,
                        scan.entries.len() as int,
                        crlf,
                    )
                },
                None => any_blocks(all, names) || scan.stray || !good_entries(scan.entries),
            }
        }),
{
    let words = collect_words(lines, first);
    let names = collect_names(&words);
    if has_blocking_line(lines, &names) {
        return None;
    }
    match scan_region(lines, first) {
        None => None,
        Some(entries) => {
            if !all_good(&entries) {
                return None;
            }
            assert(entry_texts(entries@).len() == entries.len());
            Some(emit_entries(&entries, lines[first].had_crlf))
        },
    }
}

/// Turns the Doxygen parameter and return block of a C or C++ comment into
/// kernel-doc form; the lines of any other language stay as they are.
pub fn convert_kernel_doc(lines: Vec<Line>, lang: Language) -> (r: Vec<Line>)
    ensures
        line_texts(r@) == (if lang.is_c_like() {
            kernel_doc(line_texts(lines@))
        } else {
            line_texts(lines@)
        }),
{
    if !lang.c_like() {
        return lines;
    }
    let ghost all = line_texts(lines@);
    let first: usize = find_region(&lines);
    if first >= lines.len() {
        return lines;
    }
    match converted_tail(&lines, first) {
        None => lines,
        Some((params, rets)) => {
            let mut params = params;
            let mut rets = rets;
            let had_crlf = lines[first].had_crlf;
            assert(all[first as int] == lines@[first as int]@);
            let ghost ps = line_texts(params@);
            let ghost rs = line_texts(rets@);
            let mut out = lines;
            out.truncate(first);
            assert(line_texts(out@) =~= all.take(first as int));
            out.append(&mut params);
            assert(line_texts(out@) =~= all.take(first as int) + ps);
            if rets.len() > 0 {
                if out.len() > 0 {
                    let last = out.len() - 1;
                    assert(line_texts(out@).last() == out@[last as int]@);
                    if out[last].kind != LineKind::Blank {
                        let ghost before = line_texts(out@);
                        let empty = String::new();
                        assert(empty@ =~= Seq::<char>::empty());
                        let gap = make_line(LineKind::Blank, empty, had_crlf);
                        out.push(gap);
                        assert(line_texts(out@) =~= before.push(gap@));
                    }
                }
                let ghost before = line_texts(out@);
                out.append(&mut rets);
                assert(line_texts(out@) =~= before + rs);
            }
            assert(rs.len() == 0 <==> returned_lines(
                scanned(all, first as int, all.len() as int).entries,
                scanned(all, first as int, all.len() as int).entries.len() as int,
                had_crlf,
            ).len() == 0);
            out
        },
    }
}

} // verus!
