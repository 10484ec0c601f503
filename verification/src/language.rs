//! The languages, and how a file's language is found.

use crate::text::{
    cat2, cat4, count_trail, join_texts, joined, leads_with, lower_ascii, lowered, opens_with,
    same, skip_chars, split_char, split_on, split_words, strip_prefix, strs, texts, trail_len,
    words_of, CharClass,
};
use vstd::prelude::*;
use vstd::utf8::{decode_utf8, valid_utf8};

verus! {

#[derive(Debug, Clone, Copy, PartialEq, Eq, Structural)]
pub enum Language {
    C,
    Cpp,
    Rust,
    Shell,
    /// Assembly, of which only block comments are read.
    Asm,
}

impl Language {
    pub open spec fn is_c_like(self) -> bool {
        self == Language::C || self == Language::Cpp
    }

    /// C or C++.
    pub fn c_like(self) -> (r: bool)
        ensures
            r == self.is_c_like(),
    {
        self == Language::C || self == Language::Cpp
    }
}

/// Why a file has no language.
#[derive(Debug, Clone, Copy, PartialEq, Eq, Structural)]
pub enum DetectError {
    /// The file has an extension, but none that is supported.
    UnsupportedExtension,
    /// The file has no extension, and its first line names no POSIX shell.
    NoShebang,
}

/// The language that an extension in small letters stands for. Objective-C
/// shares its comments with C, and Objective-C++ with C++.
pub open spec fn extension_language(ext: Seq<char>) -> Option<Language> {
    if ext == "c"@ || ext == "h"@ || ext == "m"@ {
        Some(Language::C)
    } else if ext == "cc"@ || ext == "cpp"@ || ext == "cxx"@ || ext == "c++"@ || ext == "hh"@ || ext
        == "hpp"@ || ext == "hxx"@ || ext == "h++"@ || ext == "mm"@ {
        Some(Language::Cpp)
    } else if ext == "rs"@ {
        Some(Language::Rust)
    } else if ext == "sh"@ || ext == "bash"@ {
        Some(Language::Shell)
    } else if ext == "s"@ {
        Some(Language::Asm)
    } else {
        None
    }
}

fn language_of_extension(ext: &str) -> (r: Option<Language>)
    ensures
        r == extension_language(ext@),
{
    if same(ext, "c") || same(ext, "h") || same(ext, "m") {
        Some(Language::C)
    } else if same(ext, "cc") || same(ext, "cpp") || same(ext, "cxx") || same(ext, "c++") || same(
        ext,
        "hh",
    ) || same(ext, "hpp") || same(ext, "hxx") || same(ext, "h++") || same(ext, "mm") {
        Some(Language::Cpp)
    } else if same(ext, "rs") {
        Some(Language::Rust)
    } else if same(ext, "sh") || same(ext, "bash") {
        Some(Language::Shell)
    } else if same(ext, "s") {
        Some(Language::Asm)
    } else {
        None
    }
}

/// Every supported extension, in the order that messages list them.
pub open spec fn supported() -> Seq<Seq<char>> {
    seq![
        "c"@,
        "h"@,
        "m"@,
        "cc"@,
        "cpp"@,
        "cxx"@,
        "c++"@,
        "hh"@,
        "hpp"@,
        "hxx"@,
        "h++"@,
        "mm"@,
        "rs"@,
        "sh"@,
        "bash"@,
        "s"@,
    ]
}

pub fn supported_extensions() -> (r: Vec<&'static str>)
    ensures
        strs(r@) == supported(),
{
    let v: Vec<&'static str> = vec![
        "c",
        "h",
        "m",
        "cc",
        "cpp",
        "cxx",
        "c++",
        "hh",
        "hpp",
        "hxx",
        "h++",
        "mm",
        "rs",
        "sh",
        "bash",
        "s",
    ];
    assert(strs(v@) =~= supported());
    v
}

/// The extensions that are listed are those that have a language.
pub proof fn law_listed_extensions_are_supported(ext: Seq<char>)
    ensures
        supported().contains(ext) <==> extension_language(ext) is Some,
{
    let all = supported();
    assert(all[0] == "c"@ && all[1] == "h"@ && all[2] == "m"@ && all[3] == "cc"@);
    assert(all[4] == "cpp"@ && all[5] == "cxx"@ && all[6] == "c++"@ && all[7] == "hh"@);
    assert(all[8] == "hpp"@ && all[9] == "hxx"@ && all[10] == "h++"@ && all[11] == "mm"@);
    assert(all[12] == "rs"@ && all[13] == "sh"@ && all[14] == "bash"@ && all[15] == "s"@);
    assert(all.len() == 16);
    if all.contains(ext) {
        let i = choose|i: int| 0 <= i < all.len() && all[i] == ext;
        assert(0 <= i < 16);
    }
}

/// The extensions, each behind a dot.
pub open spec fn dotted(exts: Seq<Seq<char>>) -> Seq<Seq<char>> {
    Seq::new(exts.len(), |i: int| "."@ + exts[i])
}

fn extension_list() -> (r: String)
    ensures
        r@ == joined(dotted(supported()), " "@),
{
    let exts = supported_extensions();
    let ghost all = dotted(supported());
    let mut out: Vec<String> = Vec::new();
    let mut i: usize = 0;
    assert(exts.len() == supported().len());
    while i < exts.len()
        invariant
            i <= exts.len() == all.len(),
            strs(exts@) == supported(),
            all == dotted(supported()),
            out.len() == i,
            forall|j: int| 0 <= j < i ==> (#[trigger] out@[j])@ == all[j],
        decreases exts.len() - i,
    {
        assert(supported()[i as int] == exts@[i as int]@);
        out.push(cat2(".", exts[i]));
        i = i + 1;
    }
    assert(texts(out@) =~= all);
    join_texts(&out, " ")
}

/// A path component that names something: not empty, and not the directory
/// itself.
pub open spec fn names_something(piece: Seq<char>) -> bool {
    piece.len() > 0 && piece != "."@
}

/// The last component of a path that names something, among its first `n`.
pub open spec fn last_component(pieces: Seq<Seq<char>>, n: int) -> Option<Seq<char>>
    decreases n,
{
    if n <= 0 {
        None
    } else if names_something(pieces[n - 1]) {
        Some(pieces[n - 1])
    } else {
        last_component(pieces, n - 1)
    }
}

/// The file name that a path ends in; a path that ends in its parent directory
/// has none.
pub open spec fn file_name(path: Seq<char>) -> Option<Seq<char>> {
    let pieces = split_on(path, '/');
    match last_component(pieces, pieces.len() as int) {
        Some(name) => if name == ".."@ {
            None
        } else {
            Some(name)
        },
        None => None,
    }
}

fn path_file_name<'a>(path: &'a str) -> (r: Option<&'a str>)
    ensures
        (match r {
            Some(n) => file_name(path@) == Some(n@),
            None => file_name(path@) is None,
        }),
{
    let pieces = split_char(path, '/');
    let ghost all = split_on(path@, '/');
    let mut i: usize = pieces.len();
    assert(pieces.len() == all.len());
    while i > 0
        invariant
            i <= pieces.len(),
            strs(pieces@) == all,
            all == split_on(path@, '/'),
            last_component(all, all.len() as int) == last_component(all, i as int),
        decreases i,
    {
        let piece = pieces[i - 1];
        assert(all[i - 1] == piece@);
        if !piece.is_empty() && !same(piece, ".") {
            return if same(piece, "..") {
                None
            } else {
                Some(piece)
            };
        }
        i = i - 1;
    }
    None
}

/// What follows the last dot of a file name; a dot that opens the name does not
/// count.
pub open spec fn extension(name: Seq<char>) -> Option<Seq<char>> {
    let n = trail_len(name, CharClass::NotOne('.'));
    if n + 1 < name.len() {
        Some(name.skip(name.len() - n))
    } else {
        None
    }
}

fn name_extension<'a>(name: &'a str) -> (r: Option<&'a str>)
    ensures
        (match r {
            Some(e) => extension(name@) == Some(e@),
            None => extension(name@) is None,
        }),
{
    let len: usize = name.unicode_len();
    let n: usize = count_trail(name, CharClass::NotOne('.'));
    if n < len && n + 1 < len {
        Some(skip_chars(name, len - n))
    } else {
        None
    }
}

/// The extension of the file that a path names.
pub open spec fn path_extension(path: Seq<char>) -> Option<Seq<char>> {
    match file_name(path) {
        Some(name) => extension(name),
        None => None,
    }
}

/// The name behind the last slash of an interpreter path.
pub open spec fn base_name(token: Seq<char>) -> Seq<char> {
    match file_name(token) {
        Some(name) => name,
        None => token,
    }
}

fn token_base_name<'a>(token: &'a str) -> (r: &'a str)
    ensures
        r@ == base_name(token@),
{
    match path_file_name(token) {
        Some(name) => name,
        None => token,
    }
}

/// The first word from `i` on that is no option.
pub open spec fn first_argument(words: Seq<Seq<char>>, i: int) -> Option<Seq<char>>
    decreases words.len() - i,
{
    if i >= words.len() {
        None
    } else if !leads_with(words[i], CharClass::One('-')) {
        Some(words[i])
    } else {
        first_argument(words, i + 1)
    }
}

/// The interpreter that the words of a shebang name: the first word's base
/// name, or behind `env` that of the first argument.
pub open spec fn interpreter(words: Seq<Seq<char>>) -> Option<Seq<char>> {
    if words.len() == 0 {
        None
    } else if base_name(words[0]) == "env"@ {
        match first_argument(words, 1) {
            Some(arg) => Some(base_name(arg)),
            None => None,
        }
    } else {
        Some(base_name(words[0]))
    }
}

/// A first line that names `sh` or `bash` as its interpreter.
pub open spec fn shell_shebang(line: Seq<char>) -> bool {
    &&& crate::text::has_prefix(line, "#!"@)
    &&& match interpreter(words_of(line.skip("#!"@.len() as int))) {
        Some(name) => name == "sh"@ || name == "bash"@,
        None => false,
    }
}

fn interpreter_name<'a>(words: &Vec<&'a str>) -> (r: Option<&'a str>)
    ensures
        (match r {
            Some(n) => interpreter(strs(words@)) == Some(n@),
            None => interpreter(strs(words@)) is None,
        }),
{
    let ghost all = strs(words@);
    if words.len() == 0 {
        return None;
    }
    assert(all[0] == words@[0]@);
    let name = token_base_name(words[0]);
    if !same(name, "env") {
        return Some(name);
    }
    let mut i: usize = 1;
    while i < words.len()
        invariant
            1 <= i <= words.len(),
            all == strs(words@),
            first_argument(all, 1) == first_argument(all, i as int),
            base_name(all[0]) == "env"@,
        decreases words.len() - i,
    {
        assert(all[i as int] == words@[i as int]@);
        if !opens_with(words[i], CharClass::One('-')) {
            return Some(token_base_name(words[i]));
        }
        i = i + 1;
    }
    None
}

/// A shebang names a POSIX shell when its interpreter, or the argument of
/// `env`, is `sh` or `bash`.
pub fn is_posix_shell_shebang_line(line: &str) -> (r: bool)
    ensures
        r == shell_shebang(line@),
{
    match strip_prefix(line, "#!") {
        None => false,
        Some(rest) => match interpreter_name(&split_words(rest)) {
            Some(name) => same(name, "sh") || same(name, "bash"),
            None => false,
        },
    }
}

/// `std::str::from_utf8`: the text that the bytes encode, when they are valid
/// UTF-8.
#[verifier::external_body]
fn utf8_text<'a>(bytes: &'a [u8]) -> (r: Option<&'a str>)
    ensures
        (match r {
            Some(t) => valid_utf8(bytes@) && t@ == decode_utf8(bytes@),
            None => !valid_utf8(bytes@),
        }),
{
    std::str::from_utf8(bytes).ok()
}

/// The bytes in front of the first line feed.
pub open spec fn first_line(bytes: Seq<u8>) -> Seq<u8>
    decreases bytes.len(),
{
    if bytes.len() == 0 || bytes[0] == 10u8 {
        Seq::empty()
    } else {
        seq![bytes[0]] + first_line(bytes.skip(1))
    }
}

/// The file that starts with `head` has a shebang for a POSIX shell.
pub open spec fn head_is_shell(head: Seq<u8>) -> bool {
    valid_utf8(first_line(head)) && shell_shebang(decode_utf8(first_line(head)))
}

proof fn lemma_first_line(bytes: Seq<u8>, n: int)
    requires
        0 <= n <= bytes.len(),
        forall|i: int| 0 <= i < n ==> #[trigger] bytes[i] != 10u8,
        n == bytes.len() || bytes[n] == 10u8,
    ensures
        first_line(bytes) == bytes.take(n),
    decreases n,
{
    if n > 0 {
        lemma_first_line(bytes.skip(1), n - 1);
        assert(bytes.take(n) =~= seq![bytes[0]] + bytes.skip(1).take(n - 1));
    } else {
        assert(bytes.take(0) =~= Seq::<u8>::empty());
    }
}

/// The first line of a file names a POSIX shell. `head` is the start of the
/// file; bytes that are no text name nothing.
pub fn first_line_is_posix_shell_shebang(head: &[u8]) -> (r: bool)
    ensures
        r == head_is_shell(head@),
{
    let mut n: usize = 0;
    while n < head.len() && head[n] != 10u8
        invariant
            n <= head@.len(),
            forall|i: int| 0 <= i < n ==> #[trigger] head@[i] != 10u8,
        decreases head@.len() - n,
    {
        n = n + 1;
    }
    proof {
        lemma_first_line(head@, n as int);
        assert(head@.subrange(0, n as int) =~= head@.take(n as int));
    }
    match utf8_text(vstd::slice::slice_subrange(head, 0, n)) {
        Some(line) => is_posix_shell_shebang_line(line),
        None => false,
    }
}

/// The language of the file at `path` that starts with `head`. An extension
/// decides, in any mix of small and capital letters; only a file without one is
/// judged by its first line.
pub open spec fn detected(path: Seq<char>, head: Seq<u8>) -> Result<Language, DetectError> {
    match path_extension(path) {
        Some(ext) => match extension_language(lowered(ext)) {
            Some(lang) => Ok(lang),
            None => Err(DetectError::UnsupportedExtension),
        },
        None => if head_is_shell(head) {
            Ok(Language::Shell)
        } else {
            Err(DetectError::NoShebang)
        },
    }
}

pub fn detect_language(path: &str, head: &[u8]) -> (r: Result<Language, DetectError>)
    ensures
        r == detected(path@, head@),
{
    let ext = match path_file_name(path) {
        Some(name) => name_extension(name),
        None => None,
    };
    match ext {
        Some(e) => {
            let low = lower_ascii(e);
            match language_of_extension(low.as_str()) {
                Some(lang) => Ok(lang),
                None => Err(DetectError::UnsupportedExtension),
            }
        },
        None => if first_line_is_posix_shell_shebang(head) {
            Ok(Language::Shell)
        } else {
            Err(DetectError::NoShebang)
        },
    }
}

impl DetectError {
    pub open spec fn message(self, path: Seq<char>) -> Seq<char> {
        match self {
            DetectError::UnsupportedExtension => "unsupported extension on path: "@ + path
                + " (commentflow supports "@ + joined(dotted(supported()), " "@)
                + ", matched case-insensitively)"@,
            DetectError::NoShebang => "no extension and no recognized POSIX-shell shebang: "@
                + path,
        }
    }

    /// What to tell the user about the file at `path`.
    pub fn describe(&self, path: &str) -> (r: String)
        ensures
            r@ == self.message(path@),
    {
        match self {
            DetectError::UnsupportedExtension => {
                let list = extension_list();
                let head = cat4(
                    "unsupported extension on path: ",
                    path,
                    " (commentflow supports ",
                    list.as_str(),
                );
                cat2(head.as_str(), ", matched case-insensitively)")
            },
            DetectError::NoShebang => cat2(
                "no extension and no recognized POSIX-shell shebang: ",
                path,
            ),
        }
    }
}

} // verus!
