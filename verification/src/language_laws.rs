//! Which language a file is taken for.

use crate::language::{
    base_name, detected, file_name, first_argument, first_line, interpreter, last_component,
    path_extension, shell_shebang, DetectError, Language,
};
use crate::rows::{lemma_split_apart, lemma_split_one};
use crate::shape_laws::lemma_prefixed;
use crate::text::{in_class, lemma_trail_len, lowered, split_on, words_of, CharClass};
use vstd::prelude::*;
use vstd::utf8::{decode_utf8, valid_utf8};

verus! {

/// Nothing, or a path up to a slash.
pub open spec fn is_dir(dir: Seq<char>) -> bool {
    dir.len() == 0 || dir.last() == '/'
}

/// A name without a slash that is not a directory's name for itself or its parent.
pub open spec fn is_name(name: Seq<char>) -> bool {
    name.len() > 0 && !name.contains('/') && name != "."@ && name != ".."@
}

/// The last name of a path is its file name.
proof fn lemma_file_name(dir: Seq<char>, name: Seq<char>)
    requires
        is_dir(dir),
        is_name(name),
    ensures
        file_name(dir + name) == Some(name),
{
    let path = dir + name;
    let pieces = split_on(path, '/');
    lemma_split_one(name, '/');
    if dir.len() > 0 {
        let d = dir.drop_last();
        lemma_split_apart(d, '/', name);
        assert(path =~= d + seq!['/'] + name);
        assert(pieces.last() == name);
    } else {
        assert(path =~= name);
        assert(pieces.last() == name);
    }
    assert(last_component(pieces, pieces.len() as int) == Some(name));
}

proof fn lemma_path_extension(dir: Seq<char>, stem: Seq<char>, ext: Seq<char>)
    requires
        is_dir(dir),
        stem.len() > 0 && !stem.contains('/'),
        ext.len() > 0 && !ext.contains('/') && !ext.contains('.'),
    ensures
        path_extension(dir + (stem + seq!['.'] + ext)) == Some(ext),
{
    let name = stem + seq!['.'] + ext;
    reveal_strlit(".");
    reveal_strlit("..");
    assert(is_name(name)) by {
        if name.contains('/') {
            let k = choose|k: int| 0 <= k < name.len() && name[k] == '/';
            if k < stem.len() {
                assert(stem[k] == '/');
            } else {
                assert(k != stem.len());
                assert(ext[k - stem.len() - 1] == '/');
            }
        }
        assert(name.len() >= 3);
    }
    lemma_file_name(dir, name);
    let n = ext.len() as int;
    assert forall|k: int| name.len() - n <= k < name.len() implies in_class(
        #[trigger] name[k],
        CharClass::NotOne('.'),
    ) by {
        assert(name[k] == ext[k - stem.len() - 1]);
    }
    assert(name[stem.len() as int] == '.');
    lemma_trail_len(name, CharClass::NotOne('.'), n);
    assert(name.skip(name.len() - n) =~= ext);
}

/// The extension decides, in small and in capital letters, and nothing else in the path or the
/// file does.
pub proof fn law_extensions_name_the_language(
    dir: Seq<char>,
    stem: Seq<char>,
    ext: Seq<char>,
    head: Seq<u8>,
)
    requires
        is_dir(dir),
        stem.len() > 0 && !stem.contains('/'),
        ext.len() > 0 && !ext.contains('/') && !ext.contains('.'),
    ensures
        ({
            let r = detected(dir + (stem + seq!['.'] + ext), head);
            let e = lowered(ext);
            &&& r == Ok::<Language, DetectError>(Language::C) <==> e == "c"@ || e == "h"@ || e
                == "m"@
            &&& r == Ok::<Language, DetectError>(Language::Cpp) <==> e == "cc"@ || e == "cpp"@ || e
                == "cxx"@ || e == "c++"@ || e == "hh"@ || e == "hpp"@ || e == "hxx"@ || e == "h++"@
                || e == "mm"@
            &&& r == Ok::<Language, DetectError>(Language::Rust) <==> e == "rs"@
            &&& r == Ok::<Language, DetectError>(Language::Shell) <==> e == "sh"@ || e == "bash"@
            &&& r == Ok::<Language, DetectError>(Language::Asm) <==> e == "s"@
            &&& r is Err ==> r == Err::<Language, DetectError>(DetectError::UnsupportedExtension)
        }),
{
    lemma_path_extension(dir, stem, ext);
    reveal_strlit("c");
    reveal_strlit("h");
    reveal_strlit("m");
    reveal_strlit("s");
    reveal_strlit("cc");
    reveal_strlit("hh");
    reveal_strlit("mm");
    reveal_strlit("rs");
    reveal_strlit("sh");
    reveal_strlit("cpp");
    reveal_strlit("cxx");
    reveal_strlit("c++");
    reveal_strlit("hpp");
    reveal_strlit("hxx");
    reveal_strlit("h++");
    reveal_strlit("bash");
    assert("c"@[0] == 'c' && "h"@[0] == 'h' && "m"@[0] == 'm' && "s"@[0] == 's');
    assert("cc"@[0] == 'c' && "hh"@[0] == 'h' && "mm"@[0] == 'm' && "rs"@[0] == 'r' && "sh"@[0]
        == 's');
    assert("c"@.len() == 1 && "h"@.len() == 1 && "m"@.len() == 1 && "s"@.len() == 1);
    assert("cc"@.len() == 2 && "hh"@.len() == 2 && "mm"@.len() == 2 && "rs"@.len() == 2 && "sh"@.len()
        == 2);
    assert("cpp"@.len() == 3 && "cxx"@.len() == 3 && "c++"@.len() == 3 && "hpp"@.len() == 3
        && "hxx"@.len() == 3 && "h++"@.len() == 3 && "bash"@.len() == 4);
}

/// The words behind `#!` name a shell: by a path to it, or as the first argument of `env` that
/// is no option.
pub open spec fn names_shell(words: Seq<Seq<char>>, dir: Seq<char>, name: Seq<char>, i: int) -> bool {
    &&& is_dir(dir)
    &&& name == "sh"@ || name == "bash"@
    &&& 0 <= i < words.len()
    &&& words[i] == dir + name
    &&& forall|j: int| 1 <= j < i ==> (#[trigger] words[j]).len() > 0 && words[j][0] == '-'
    &&& i > 0 ==> (dir.len() == 0 || dir[0] != '-')
}

proof fn lemma_shell_name(dir: Seq<char>, name: Seq<char>)
    requires
        is_dir(dir),
        name == "sh"@ || name == "bash"@ || name == "env"@,
    ensures
        base_name(dir + name) == name,
        (dir + name).len() > 0,
        dir.len() == 0 || dir[0] != '-' ==> (dir + name)[0] != '-',
{
    reveal_strlit("sh");
    reveal_strlit("bash");
    reveal_strlit("env");
    reveal_strlit(".");
    reveal_strlit("..");
    assert(name[0] != '.' && name[0] != '-');
    assert("."@[0] == '.' && ".."@[0] == '.');
    assert(!name.contains('/'));
    lemma_file_name(dir, name);
}

proof fn lemma_first_argument(words: Seq<Seq<char>>, i: int, k: int)
    requires
        0 <= k <= i < words.len(),
        forall|j: int| k <= j < i ==> (#[trigger] words[j]).len() > 0 && words[j][0] == '-',
        words[i].len() == 0 || words[i][0] != '-',
    ensures
        first_argument(words, k) == Some(words[i]),
    decreases i - k,
{
    if k < i {
        assert(words[k].len() > 0 && words[k][0] == '-');
        lemma_first_argument(words, i, k + 1);
    }
}

/// A file without an extension is a shell script when its first line is `#!` and names `sh` or
/// `bash`, by itself or behind `env`.
pub proof fn law_shebangs_name_the_shell(
    path: Seq<char>,
    head: Seq<u8>,
    rest: Seq<char>,
    env: Seq<char>,
    dir: Seq<char>,
    name: Seq<char>,
    i: int,
)
    requires
        path_extension(path) is None,
        valid_utf8(first_line(head)),
        decode_utf8(first_line(head)) == "#!"@ + rest,
        names_shell(words_of(rest), dir, name, i),
        i > 0 ==> is_dir(env) && words_of(rest)[0] == env + "env"@,
    ensures
        detected(path, head) == Ok::<Language, DetectError>(Language::Shell),
{
    let line = "#!"@ + rest;
    let words = words_of(rest);
    lemma_prefixed("#!"@, rest);
    lemma_shell_name(dir, name);
    reveal_strlit("sh");
    reveal_strlit("bash");
    reveal_strlit("env");
    assert("sh"@.len() == 2 && "bash"@.len() == 4 && "env"@.len() == 3);
    if i > 0 {
        lemma_shell_name(env, "env"@);
        lemma_first_argument(words, i, 1);
    }
    assert(interpreter(words) == Some(name));
    assert(shell_shebang(line));
}

/// No other interpreter makes a shell script of a file.
pub proof fn law_other_interpreters_are_no_shell(
    path: Seq<char>,
    head: Seq<u8>,
    rest: Seq<char>,
    dir: Seq<char>,
    name: Seq<char>,
)
    requires
        path_extension(path) is None,
        decode_utf8(first_line(head)) == "#!"@ + rest,
        words_of(rest).len() > 0,
        words_of(rest)[0] == dir + name,
        is_dir(dir),
        is_name(name),
        name != "sh"@ && name != "bash"@ && name != "env"@,
    ensures
        detected(path, head) == Err::<Language, DetectError>(DetectError::NoShebang),
{
    lemma_prefixed("#!"@, rest);
    lemma_file_name(dir, name);
    assert(interpreter(words_of(rest)) == Some(name));
}

} // verus!
