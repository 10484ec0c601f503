//! Which comments of a tree are found.

use crate::assembly_scan::{lemma_inside_is, tied_in};
use crate::comment::CommentText;
use crate::language::Language;
use crate::lines_before::{lemma_lines_of, open_line, whole_lines};
use crate::marker_laws::{lemma_markers, opens_with};
use crate::merge::{merged_from, merged_run, merges, run_end};
use crate::parse::{
    below, collected, in_comment, in_macro, inserted, is_collected, sorted, tree_comments,
};
use crate::signature::node_source;
use crate::spacing_laws::lemma_not_spliced;
use crate::syntax::NodeText;
use crate::text::{has_prefix, has_suffix, leads_with, trimmed_end, trimmed_start, CharClass};
use vstd::prelude::*;
use vstd::utf8::encode_utf8;

verus! {

/// The kind of node that a comment is: each grammar has its own.
pub open spec fn names_comment(kind: Seq<char>, lang: Language) -> bool {
    match lang {
        Language::C => kind == "comment"@,
        Language::Cpp => kind == "comment"@,
        Language::Shell => kind == "comment"@,
        Language::Rust => kind == "line_comment"@ || kind == "block_comment"@,
        Language::Asm => false,
    }
}

/// The kind of node that holds ordinary code: anything but a directive, and of the
/// directives those that choose between stretches of code.
pub open spec fn holds_code(kind: Seq<char>) -> bool {
    ||| !has_prefix(kind, "preproc_"@)
    ||| kind == "preproc_if"@
    ||| kind == "preproc_ifdef"@
    ||| kind == "preproc_elif"@
    ||| kind == "preproc_elifdef"@
    ||| kind == "preproc_elifndef"@
    ||| kind == "preproc_else"@
}

/// What stands in front of a comment leaves it outside of a directive: its own line does
/// not start with a hash, and the lines above do not run into it.
pub open spec fn outside_directives(front: Seq<char>) -> bool {
    let t = trimmed_start(open_line(front));
    &&& !(t.len() > 0 && t[0] == '#')
    &&& !has_suffix(trimmed_end(whole_lines(front)), "\\"@)
}

/// Node `i` is a comment among code: all nodes that hold it are code, none of them is a
/// comment. In C and C++ it stands outside of directives, and in a shell script it is not
/// the line that names the interpreter.
pub open spec fn among_code(
    nodes: Seq<NodeText>,
    i: int,
    front: Seq<char>,
    src: Seq<char>,
    lang: Language,
) -> bool {
    &&& names_comment(nodes[i].kind, lang)
    &&& forall|j: int|
        0 <= j < i && (forall|k: int| j < k <= i ==> (#[trigger] nodes[k]).depth > nodes[j].depth)
            ==> !names_comment((#[trigger] nodes[j]).kind, lang) && (lang == Language::C || lang
            == Language::Cpp ==> holds_code(nodes[j].kind))
    &&& lang == Language::C || lang == Language::Cpp ==> outside_directives(front)
    &&& lang == Language::Shell ==> nodes[i].start_byte > 3 || (nodes[i].start_byte != 0 && !(
    src.len() > 0 && src[0] == '\u{feff}')) || !has_prefix(node_source(nodes, i, src), "#!"@)
}

/// What is in no directive by the text in front of it.
proof fn lemma_outside(front: Seq<char>, r: Seq<char>)
    requires
        outside_directives(front),
    ensures
        !crate::comment::in_directive(front + r, encode_utf8(front).len() as int),
{
    lemma_inside_is(front, r);
    lemma_lines_of(front);
    let h = whole_lines(front);
    if tied_in(front) {
        lemma_not_spliced(h);
    }
}

/// Such a node is collected.
proof fn lemma_collects(
    nodes: Seq<NodeText>,
    i: int,
    front: Seq<char>,
    r: Seq<char>,
    lang: Language,
)
    requires
        0 <= i < nodes.len(),
        nodes[i].start_byte == encode_utf8(front).len(),
        among_code(nodes, i, front, front + r, lang),
    ensures
        is_collected(nodes, i, front + r, lang),
{
    reveal_strlit("preproc_");
    let src = front + r;
    if lang == Language::C || lang == Language::Cpp {
        lemma_outside(front, r);
        if in_macro(nodes, i) {
            let j = choose|j: int| #[trigger]
                below(nodes, j, i) && crate::parse::directive_kind(nodes[j].kind);
            assert(holds_code(nodes[j].kind));
        }
    }
    if in_comment(nodes, i, lang) {
        let j = choose|j: int| #[trigger]
            below(nodes, j, i) && crate::parse::comment_kind(nodes[j].kind, lang);
        assert(!names_comment(nodes[j].kind, lang));
    }
}

/// One of the comments starts and ends where the node does.
pub open spec fn has_at(v: Seq<CommentText>, start: int, end: int) -> bool {
    exists|k: int|
        0 <= k < v.len() && (#[trigger] v[k]).start_byte == start && v[k].end_byte == end
}

/// One of the comments covers the stretch.
pub open spec fn covered_by_one(v: Seq<CommentText>, start: int, end: int) -> bool {
    exists|k: int|
        0 <= k < v.len() && (#[trigger] v[k]).start_byte <= start && end <= v[k].end_byte
}

proof fn lemma_collected_has(
    nodes: Seq<NodeText>,
    n: int,
    i: int,
    src: Seq<char>,
    lang: Language,
)
    requires
        0 <= i < n <= nodes.len(),
        is_collected(nodes, i, src, lang),
    ensures
        has_at(
            collected(nodes, n, src, lang),
            nodes[i].start_byte as int,
            nodes[i].end_byte as int,
        ),
    decreases n,
{
    let v = collected(nodes, n, src, lang);
    let w = collected(nodes, n - 1, src, lang);
    if i == n - 1 {
        assert(v[w.len() as int].start_byte == nodes[i].start_byte);
    } else {
        lemma_collected_has(nodes, n - 1, i, src, lang);
        let k = choose|k: int|
            0 <= k < w.len() && (#[trigger] w[k]).start_byte == nodes[i].start_byte as int
                && w[k].end_byte == nodes[i].end_byte as int;
        assert(v[k] == w[k]);
    }
}

proof fn lemma_inserted_has(v: Seq<CommentText>, c: CommentText, start: int, end: int)
    requires
        has_at(v, start, end) || (c.start_byte == start && c.end_byte == end),
    ensures
        has_at(inserted(v, c), start, end),
    decreases v.len(),
{
    let r = inserted(v, c);
    if v.len() > 0 && v.last().start_byte > c.start_byte {
        let w = v.drop_last();
        let u = inserted(w, c);
        assert(r =~= u.push(v.last()));
        if c.start_byte == start && c.end_byte == end {
            lemma_inserted_has(w, c, start, end);
            let k = choose|k: int|
                0 <= k < u.len() && (#[trigger] u[k]).start_byte == start && u[k].end_byte == end;
            assert(r[k] == u[k]);
        } else {
            let k = choose|k: int|
                0 <= k < v.len() && (#[trigger] v[k]).start_byte == start && v[k].end_byte == end;
            if k == v.len() - 1 {
                assert(r[u.len() as int] == v[k]);
            } else {
                assert(w[k] == v[k]);
                lemma_inserted_has(w, c, start, end);
                let m = choose|m: int|
                    0 <= m < u.len() && (#[trigger] u[m]).start_byte == start && u[m].end_byte
                        == end;
                assert(r[m] == u[m]);
            }
        }
    } else if c.start_byte == start && c.end_byte == end {
        assert(r[v.len() as int] == c);
    } else {
        let k = choose|k: int|
            0 <= k < v.len() && (#[trigger] v[k]).start_byte == start && v[k].end_byte == end;
        assert(r[k] == v[k]);
    }
}

proof fn lemma_sorted_has(v: Seq<CommentText>, n: int, k: int)
    requires
        0 <= k < n <= v.len(),
    ensures
        has_at(sorted(v, n), v[k].start_byte, v[k].end_byte),
    decreases n,
{
    if k < n - 1 {
        lemma_sorted_has(v, n - 1, k);
    }
    lemma_inserted_has(sorted(v, n - 1), v[n - 1], v[k].start_byte, v[k].end_byte);
}

/// A run covers the comments that it joins.
proof fn lemma_run_covers(v: Seq<CommentText>, i: int, k: int, src: Seq<char>)
    requires
        0 <= i <= k <= run_end(v, i, src),
        k < v.len(),
        i < v.len(),
        forall|m: int| 0 <= m < v.len() ==> (#[trigger] v[m]).start_byte <= v[m].end_byte,
    ensures
        v[i].start_byte <= v[k].start_byte,
        v[k].end_byte <= v[run_end(v, i, src)].end_byte,
    decreases v.len() - i,
{
    let j = run_end(v, i, src);
    crate::merge::lemma_run_end(v, i, src);
    if i < j {
        assert(merges(v[i], v[i + 1], src));
        crate::merge::lemma_run_end(v, i + 1, src);
        assert(v[i + 1].start_byte <= v[i + 1].end_byte);
        if i == k {
            lemma_run_covers(v, i + 1, i + 1, src);
        } else {
            lemma_run_covers(v, i + 1, k, src);
        }
        assert(v[i].start_byte <= v[i].end_byte);
    }
}

proof fn lemma_merged_covers(v: Seq<CommentText>, i: int, k: int, src: Seq<char>)
    requires
        0 <= i <= k < v.len(),
        forall|m: int| 0 <= m < v.len() ==> (#[trigger] v[m]).start_byte <= v[m].end_byte,
    ensures
        covered_by_one(merged_from(v, i, src), v[k].start_byte, v[k].end_byte),
    decreases v.len() - i,
{
    let j = run_end(v, i, src);
    crate::merge::lemma_run_end(v, i, src);
    let all = merged_from(v, i, src);
    let rest = merged_from(v, j + 1, src);
    if k <= j {
        lemma_run_covers(v, i, k, src);
        assert(all[0] == merged_run(v, i, j, src));
        assert(all[0].start_byte <= v[k].start_byte && v[k].end_byte <= all[0].end_byte);
    } else {
        lemma_merged_covers(v, j + 1, k, src);
        let m = choose|m: int|
            0 <= m < rest.len() && (#[trigger] rest[m]).start_byte <= v[k].start_byte
                && v[k].end_byte <= rest[m].end_byte;
        assert(all[m + 1] == rest[m]);
    }
}

/// Every property of the collected comments' places is one of the sorted ones'.
proof fn lemma_sorted_forward(v: Seq<CommentText>, n: int)
    requires
        0 <= n <= v.len(),
        forall|m: int| 0 <= m < v.len() ==> (#[trigger] v[m]).start_byte <= v[m].end_byte,
    ensures
        forall|m: int|
            0 <= m < sorted(v, n).len() ==> (#[trigger] sorted(v, n)[m]).start_byte <= sorted(
                v,
                n,
            )[m].end_byte,
    decreases n,
{
    if n > 0 {
        lemma_sorted_forward(v, n - 1);
        lemma_inserted_forward(sorted(v, n - 1), v[n - 1]);
    }
}

proof fn lemma_inserted_forward(v: Seq<CommentText>, c: CommentText)
    requires
        c.start_byte <= c.end_byte,
        forall|m: int| 0 <= m < v.len() ==> (#[trigger] v[m]).start_byte <= v[m].end_byte,
    ensures
        forall|m: int|
            0 <= m < inserted(v, c).len() ==> (#[trigger] inserted(v, c)[m]).start_byte <= inserted(
                v,
                c,
            )[m].end_byte,
    decreases v.len(),
{
    if v.len() > 0 && v.last().start_byte > c.start_byte {
        lemma_inserted_forward(v.drop_last(), c);
    }
}

proof fn lemma_collected_forward(nodes: Seq<NodeText>, n: int, src: Seq<char>, lang: Language)
    requires
        0 <= n <= nodes.len(),
        forall|m: int| 0 <= m < nodes.len() ==> (#[trigger] nodes[m]).start_byte <= nodes[m].end_byte,
    ensures
        forall|m: int|
            0 <= m < collected(nodes, n, src, lang).len() ==> (#[trigger] collected(
                nodes,
                n,
                src,
                lang,
            )[m]).start_byte <= collected(nodes, n, src, lang)[m].end_byte,
    decreases n,
{
    if n > 0 {
        lemma_collected_forward(nodes, n - 1, src, lang);
        assert(nodes[n - 1].start_byte <= nodes[n - 1].end_byte);
    }
}

/// Every comment among code is found: it is one of the comments of the tree, or part of a
/// run that reads as one. Code that a conditional chooses is code: the branches of `#if`,
/// `#ifdef`, `#ifndef`, `#elif`, `#elifdef`, `#elifndef` and `#else` hide no comment.
pub proof fn law_comments_among_code_are_found(
    nodes: Seq<NodeText>,
    i: int,
    front: Seq<char>,
    r: Seq<char>,
    lang: Language,
)
    requires
        0 <= i < nodes.len(),
        forall|m: int| 0 <= m < nodes.len() ==> (#[trigger] nodes[m]).start_byte <= nodes[m].end_byte,
        nodes[i].start_byte == encode_utf8(front).len(),
        among_code(nodes, i, front, front + r, lang),
    ensures
        covered_by_one(
            tree_comments(nodes, front + r, lang),
            nodes[i].start_byte as int,
            nodes[i].end_byte as int,
        ),
{
    let src = front + r;
    let n = nodes.len() as int;
    let a = nodes[i].start_byte as int;
    let b = nodes[i].end_byte as int;
    lemma_collects(nodes, i, front, r, lang);
    lemma_collected_has(nodes, n, i, src, lang);
    lemma_collected_forward(nodes, n, src, lang);
    let v = collected(nodes, n, src, lang);
    let k = choose|k: int|
        0 <= k < v.len() && (#[trigger] v[k]).start_byte == a && v[k].end_byte == b;
    lemma_sorted_has(v, v.len() as int, k);
    lemma_sorted_forward(v, v.len() as int);
    let w = sorted(v, v.len() as int);
    let m = choose|m: int|
        0 <= m < w.len() && (#[trigger] w[m]).start_byte == a && w[m].end_byte == b;
    lemma_merged_covers(w, 0, m, src);
    let all = merged_from(w, 0, src);
    let found = tree_comments(nodes, src, lang);
    let p = choose|p: int|
        0 <= p < all.len() && (#[trigger] all[p]).start_byte <= a && b <= all[p].end_byte;
    assert(found[p].start_byte == all[p].start_byte && found[p].end_byte == all[p].end_byte);
}

/// A comment node of the tree that lies where comments are looked for.
pub open spec fn is_found_node(
    nodes: Seq<NodeText>,
    i: int,
    src: Seq<char>,
    lang: Language,
) -> bool {
    &&& 0 <= i < nodes.len()
    &&& names_comment(nodes[i].kind, lang)
    &&& forall|j: int|
        0 <= j < i && (forall|k: int| j < k <= i ==> (#[trigger] nodes[k]).depth > nodes[j].depth)
            ==> !names_comment((#[trigger] nodes[j]).kind, lang) && (lang == Language::C || lang
            == Language::Cpp ==> holds_code(nodes[j].kind))
    &&& lang == Language::C || lang == Language::Cpp ==> forall|front: Seq<char>, r: Seq<char>|
        src == #[trigger] (front + r) && encode_utf8(front).len() == nodes[i].start_byte
            ==> !leads_with(trimmed_start(open_line(front)), CharClass::One('#'))
}

proof fn lemma_collected_only(nodes: Seq<NodeText>, i: int, src: Seq<char>, lang: Language)
    requires
        0 <= i < nodes.len(),
        is_collected(nodes, i, src, lang),
    ensures
        is_found_node(nodes, i, src, lang),
{
    reveal_strlit("preproc_");
    assert forall|j: int|
        0 <= j < i && (forall|k: int| j < k <= i ==> (#[trigger] nodes[k]).depth > nodes[j].depth)
            implies !names_comment((#[trigger] nodes[j]).kind, lang) && (lang == Language::C
        || lang == Language::Cpp ==> holds_code(nodes[j].kind)) by {
        assert(below(nodes, j, i));
        assert(!crate::parse::comment_kind(nodes[j].kind, lang));
        if lang == Language::C || lang == Language::Cpp {
            assert(!in_macro(nodes, i));
            assert(!crate::parse::directive_kind(nodes[j].kind));
        }
    }
    if lang == Language::C || lang == Language::Cpp {
        assert forall|front: Seq<char>, r: Seq<char>|
            src == #[trigger] (front + r) && encode_utf8(front).len()
                == nodes[i].start_byte implies !leads_with(
            trimmed_start(open_line(front)),
            CharClass::One('#'),
        ) by {
            lemma_inside_is(front, r);
        }
    }
}

proof fn lemma_collected_from(
    nodes: Seq<NodeText>,
    n: int,
    k: int,
    src: Seq<char>,
    lang: Language,
) -> (i: int)
    requires
        0 <= n <= nodes.len(),
        0 <= k < collected(nodes, n, src, lang).len(),
    ensures
        0 <= i < n,
        is_collected(nodes, i, src, lang),
        collected(nodes, n, src, lang)[k].start_byte == nodes[i].start_byte,
        collected(nodes, n, src, lang)[k].end_byte == nodes[i].end_byte,
    decreases n,
{
    let w = collected(nodes, n - 1, src, lang);
    if k < w.len() {
        lemma_collected_from(nodes, n - 1, k, src, lang)
    } else {
        n - 1
    }
}

proof fn lemma_sorted_from(v: Seq<CommentText>, n: int, m: int) -> (k: int)
    requires
        0 <= n <= v.len(),
        0 <= m < sorted(v, n).len(),
    ensures
        0 <= k < n,
        sorted(v, n)[m] == v[k],
    decreases n,
{
    let w = sorted(v, n - 1);
    let j = lemma_inserted_from(w, v[n - 1], m);
    if j < w.len() {
        lemma_sorted_from(v, n - 1, j)
    } else {
        n - 1
    }
}

proof fn lemma_inserted_from(v: Seq<CommentText>, c: CommentText, m: int) -> (j: int)
    requires
        0 <= m < inserted(v, c).len(),
    ensures
        0 <= j <= v.len(),
        inserted(v, c)[m] == if j < v.len() {
            v[j]
        } else {
            c
        },
    decreases v.len(),
{
    if v.len() > 0 && v.last().start_byte > c.start_byte {
        let w = v.drop_last();
        let u = inserted(w, c);
        if m < u.len() {
            let j = lemma_inserted_from(w, c, m);
            if j < w.len() {
                j
            } else {
                v.len() as int
            }
        } else {
            v.len() - 1
        }
    } else {
        m
    }
}

proof fn lemma_merged_is(v: Seq<CommentText>, i: int, m: int, src: Seq<char>) -> (r: (int, int))
    requires
        0 <= i,
        0 <= m < merged_from(v, i, src).len(),
    ensures
        i <= r.0 <= r.1 < v.len(),
        merged_from(v, i, src)[m].start_byte == v[r.0].start_byte,
        merged_from(v, i, src)[m].end_byte == v[r.1].end_byte,
    decreases v.len() - i,
{
    let j = run_end(v, i, src);
    crate::merge::lemma_run_end(v, i, src);
    let rest = merged_from(v, j + 1, src);
    let all = merged_from(v, i, src);
    if m == 0 {
        assert(all[0] == merged_run(v, i, j, src));
        (i, j)
    } else {
        assert(all[m] == rest[m - 1]);
        lemma_merged_is(v, j + 1, m - 1, src)
    }
}

/// Nothing but comments is found: each starts with a comment node and ends with one, and
/// neither is part of a directive such as `#define` or of another comment.
pub proof fn law_only_comments_are_found(
    nodes: Seq<NodeText>,
    src: Seq<char>,
    lang: Language,
    k: int,
)
    requires
        0 <= k < tree_comments(nodes, src, lang).len(),
    ensures
        exists|i: int, j: int| #[trigger]
            is_found_node(nodes, i, src, lang) && #[trigger] is_found_node(nodes, j, src, lang)
                && tree_comments(nodes, src, lang)[k].start_byte == nodes[i].start_byte
                && tree_comments(nodes, src, lang)[k].end_byte == nodes[j].end_byte,
{
    let n = nodes.len() as int;
    let v = collected(nodes, n, src, lang);
    let w = sorted(v, v.len() as int);
    let all = merged_from(w, 0, src);
    let found = tree_comments(nodes, src, lang);
    assert(found[k].start_byte == all[k].start_byte && found[k].end_byte == all[k].end_byte);
    let (p, q) = lemma_merged_is(w, 0, k, src);
    let a = lemma_sorted_from(v, v.len() as int, p);
    let b = lemma_sorted_from(v, v.len() as int, q);
    let i = lemma_collected_from(nodes, n, a, src, lang);
    let j = lemma_collected_from(nodes, n, b, src, lang);
    lemma_collected_only(nodes, i, src, lang);
    lemma_collected_only(nodes, j, src, lang);
    assert(is_found_node(nodes, i, src, lang) && is_found_node(nodes, j, src, lang));
}

/// The first line of a shell script that names its interpreter is no comment to work on.
pub proof fn law_interpreter_lines_are_not_found(nodes: Seq<NodeText>, i: int, src: Seq<char>)
    requires
        0 <= i < nodes.len(),
        src.len() > 0,
        nodes[i].start_byte == if src[0] == '\u{feff}' {
            3int
        } else {
            0
        },
        opens_with(crate::signature::node_source(nodes, i, src), '#', '!'),
    ensures
        !is_collected(nodes, i, src, Language::Shell),
{
    lemma_markers(crate::signature::node_source(nodes, i, src));
}

} // verus!
