# commentflow

commentflow reflows the comments of C, C++, Rust, POSIX shell and GAS assembly
sources to a column limit. It rewrites comment bytes only; code stays as it is.

`src/` is the library, verified with Verus: what each function does is stated in
its contract and proved. `app/` is the command line around it, in ordinary Rust.
`tests/` runs the compiled library.

## How a file goes through

| Step | Module |
| --- | --- |
| Which language a file is in | `language` |
| The syntax tree, and the comments in it | `syntax`, `parse`, `comment`, `directive`, `assembly` |
| Comments that describe a signature | `signature` |
| Runs of comments that read as one | `merge` |
| Style and flavour of a comment | `classify` |
| The comment as lines and paragraphs | `normalize`, `linekind`, `kdoc`, `manpage` |
| Layout | `reflow`, `wrap`, `width` |
| Replacements, checked and carried out | `planner`, `rewrite` |

`text`, `textline`, `words` and `bytes` hold what the other modules are written
with.

## What holds of the whole

`laws`, `wrap_laws`, `plan_laws` and `style_laws` state what holds of the library
as a whole: no word of a paragraph is lost, code bytes survive, a comment keeps
its style wherever it is put, a line overflows only for a reason, and so on.
`apart_laws` says that comments are found apart from each other and that nothing
reaches into one that another tool reads. `comment_words` says of a whole comment,
and of every paragraph whatever its kind, that its words survive.

That output is stable is stated in steps. `rows` reads back the rows that a
comment is emitted as, `second_pass` its paragraphs, `regroup` and `wrap_parts`
the paragraphs that its lines may group into instead, `settling` and
`block_settling` line comments and blocks. `final_form` puts them together: a
second pass leaves a comment as the first one emitted it, provided that each
paragraph that is read lies in one that was emitted. `prose_form`, `pieces` and
`text_form` say what that comes to for comments of text, and `blank_form` for
comments without any. `plain_words` and `plain_form` say it of prose by its words
alone: none drawn with rules, opening a tag, a `Return` sentence or a fence.
`lower_prose` says it of lines of lower-case letters, by their characters.

For whole sources, `placement`, `lines_before`, `blank_lines` and `run_places`
say where comments stand in the rewritten source, `source_laws` says that a
second run leaves a source alone in which no comment moves, `moves` says it where
comments move, and `assembly_scan`, `assembly_found` and `assembly_runs` say it of
assembly, where the comments are found without a parser.

These laws ask for more than that the input is one on which output is stable: some
sources that settle are outside of what they state. Some inputs do not settle, and
`tests/laws.rs` holds examples: an emitted line that is decoration
(`// --- --- hello --- ---`), a block that a run uncovers, a directive that a run
dissolves, a licence tag that a run puts first, a decorated label that keeps two
blocks apart, and a page that leaves the line above another comment.

Contracts speak of text as sequences of characters and of positions in a source
as byte offsets into its UTF-8 encoding.

## What is taken on trust

The contracts of a few functions outside the library are stated and not proved:
the display widths of `unicode-width`, the parsers and tree cursors of
`tree-sitter` with its four grammars, and `String::push`, `char::is_alphabetic`
and `str::from_utf8` of the standard library. Each stands in a small item with a
comment that says what is claimed.

## Usage

```sh
commentflow src/foo.c              # rewrite in place
commentflow --check src/foo.c      # exit 1 if anything would change
cat foo.c | commentflow - --lang c # filter
```

`--column-limit N` sets the limit, 80 by default; 0 turns reflowing off.
