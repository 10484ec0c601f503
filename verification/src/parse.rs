//! Finding the comments of a source file.

use crate::assembly::{blocks_from, pair_ints, scan};
use crate::bytes::{at_boundary, lemma_line_start_boundary, span_ok};
pub use crate::comment::{Comment, ParamShift};
use crate::comment::{
    comment_at, comment_texts, in_directive, is_inside_preprocessor_directive, make_comment,
    CommentText,
};
pub use crate::language::{detect_language, is_posix_shell_shebang_line, DetectError, Language};
use crate::merge::{
    dominant_ending, dominant_line_ending, in_order, merge_comment_groups, merged_from, merged_run,
    run_end,
};
use crate::signature::{
    collect_param_shifts, manpage_relocate_target, node_source, nodes_placed, param_shifts,
    relocate_target,
};
pub use crate::syntax::ParserPool;
use crate::syntax::{
    is_tree, list_nodes, node_texts, parent_before, parseable, parsed, NodeText, SyntaxError,
    SyntaxNode,
};
use crate::text::{first_char, has_prefix, same, starts_with};
use std::collections::HashMap;
use vstd::prelude::*;
use vstd::utf8::encode_utf8;

verus! {

broadcast use vstd::std_specs::hash::group_hash_axioms;

/// A node of this kind is a comment. Shell reports its first line apart.
pub open spec fn comment_kind(kind: Seq<char>, lang: Language) -> bool {
    match lang {
        Language::C | Language::Cpp | Language::Shell => kind == "comment"@,
        Language::Rust => kind == "line_comment"@ || kind == "block_comment"@,
        Language::Asm => false,
    }
}

fn is_comment_node(kind: &str, lang: Language) -> (r: bool)
    ensures
        r == comment_kind(kind@, lang),
{
    match lang {
        Language::C | Language::Cpp | Language::Shell => same(kind, "comment"),
        Language::Rust => same(kind, "line_comment") || same(kind, "block_comment"),
        Language::Asm => false,
    }
}

/// A conditional block, which holds ordinary code.
pub open spec fn conditional_kind(kind: Seq<char>) -> bool {
    kind == "preproc_if"@ || kind == "preproc_ifdef"@ || kind == "preproc_else"@ || kind
        == "preproc_elif"@ || kind == "preproc_elifdef"@ || kind == "preproc_elifndef"@
}

fn is_preproc_conditional_block(kind: &str) -> (r: bool)
    ensures
        r == conditional_kind(kind@),
{
    same(kind, "preproc_if") || same(kind, "preproc_ifdef") || same(kind, "preproc_else") || same(
        kind,
        "preproc_elif",
    ) || same(kind, "preproc_elifdef") || same(kind, "preproc_elifndef")
}

/// A directive on one line.
pub open spec fn directive_kind(kind: Seq<char>) -> bool {
    has_prefix(kind, "preproc_"@) && !conditional_kind(kind)
}

/// Node `i` lies below node `j`.
pub open spec fn below(nodes: Seq<NodeText>, j: int, i: int) -> bool {
    0 <= j < i && forall|k: int| j < k <= i ==> (#[trigger] nodes[k]).depth > nodes[j].depth
}

/// Node `i` is part of a comment node.
pub open spec fn in_comment(nodes: Seq<NodeText>, i: int, lang: Language) -> bool {
    exists|j: int| #[trigger] below(nodes, j, i) && comment_kind(nodes[j].kind, lang)
}

/// Node `i` is part of a directive on one line.
pub open spec fn in_macro(nodes: Seq<NodeText>, i: int) -> bool {
    exists|j: int| #[trigger] below(nodes, j, i) && directive_kind(nodes[j].kind)
}

/// A comment in a preprocessor directive, where a line break would end it.
pub open spec fn skipped_in_directive(
    nodes: Seq<NodeText>,
    i: int,
    src: Seq<char>,
    lang: Language,
) -> bool {
    lang != Language::Rust && lang != Language::Shell && (in_macro(nodes, i) || in_directive(
        src,
        nodes[i].start_byte as int,
    ))
}

/// The first line of a shell script that names its interpreter.
pub open spec fn shebang_node(nodes: Seq<NodeText>, i: int, src: Seq<char>, lang: Language) -> bool {
    &&& lang == Language::Shell
    &&& nodes[i].start_byte == if src.len() > 0 && src[0] == '\u{feff}' {
        3int
    } else {
        0
    }
    &&& has_prefix(node_source(nodes, i, src), "#!"@)
}

fn is_shell_shebang(nodes: &Vec<SyntaxNode>, i: usize, source: &str, lang: Language) -> (r: bool)
    requires
        i < nodes.len(),
        nodes_placed(node_texts(nodes@), source@),
    ensures
        r == shebang_node(node_texts(nodes@), i as int, source@, lang),
{
    assert(node_texts(nodes@)[i as int] == nodes@[i as int]@);
    if lang != Language::Shell {
        return false;
    }
    let bom: usize = if first_char(source) == Some('\u{feff}') {
        3
    } else {
        0
    };
    nodes[i].start_byte == bom && starts_with(
        crate::bytes::slice(source, nodes[i].start_byte, nodes[i].end_byte),
        "#!",
    )
}

/// The node that holds node `i`.
pub open spec fn parent_of(nodes: Seq<NodeText>, i: int) -> Option<int> {
    let p = parent_before(nodes, i, i);
    if p >= 0 {
        Some(p)
    } else {
        None
    }
}

/// Node `i` is a comment to work on.
pub open spec fn is_collected(nodes: Seq<NodeText>, i: int, src: Seq<char>, lang: Language) -> bool {
    &&& comment_kind(nodes[i].kind, lang)
    &&& !in_comment(nodes, i, lang)
    &&& !skipped_in_directive(nodes, i, src, lang)
    &&& !shebang_node(nodes, i, src, lang)
}

/// The comment that node `i` is.
pub open spec fn node_comment(
    nodes: Seq<NodeText>,
    i: int,
    src: Seq<char>,
    lang: Language,
    shifts: Map<usize, ParamShift>,
) -> CommentText {
    let start = nodes[i].start_byte;
    let shift = if shifts.dom().contains(start) {
        Some(shifts[start])
    } else {
        None
    };
    let relocate = if shift is Some {
        None
    } else {
        relocate_target(nodes, i, parent_of(nodes, i), src, lang)
    };
    comment_at(src, start as int, nodes[i].end_byte as int, lang, relocate, shift)
}

/// The comments among the first `n` nodes.
pub open spec fn collected(nodes: Seq<NodeText>, n: int, src: Seq<char>, lang: Language) -> Seq<
    CommentText,
>
    decreases n,
{
    if n <= 0 {
        Seq::empty()
    } else if is_collected(nodes, n - 1, src, lang) {
        collected(nodes, n - 1, src, lang).push(
            node_comment(nodes, n - 1, src, lang, param_shifts(nodes, src, lang)),
        )
    } else {
        collected(nodes, n - 1, src, lang)
    }
}

proof fn lemma_path_parent(nodes: Seq<NodeText>, i: int, k: int, p: int)
    requires
        0 <= p < k <= i < nodes.len(),
        nodes[p].depth < nodes[i].depth,
        forall|j: int| p < j < i ==> (#[trigger] nodes[j]).depth >= nodes[i].depth,
    ensures
        parent_before(nodes, i, k) == p,
    decreases k,
{
    if k - 1 > p {
        assert(nodes[k - 1].depth >= nodes[i].depth);
        lemma_path_parent(nodes, i, k - 1, p);
    }
}

/// What lies above a node is its parent, and what lies above its parent.
proof fn lemma_below_parent(nodes: Seq<NodeText>, j: int, i: int, p: int)
    requires
        is_tree(nodes),
        0 <= p < i < nodes.len(),
        nodes[p].depth + 1 == nodes[i].depth,
        forall|k: int| p < k < i ==> (#[trigger] nodes[k]).depth >= nodes[i].depth,
    ensures
        below(nodes, j, i) <==> (j == p || below(nodes, j, p)),
{
    if below(nodes, j, i) && j != p {
        assert(nodes[i].depth > nodes[j].depth);
        if j > p {
            assert(nodes[j].depth >= nodes[i].depth);
        }
        assert(below(nodes, j, p));
    }
    if below(nodes, j, p) {
        assert(nodes[p].depth > nodes[j].depth);
        assert forall|k: int| j < k <= i implies (#[trigger] nodes[k]).depth > nodes[j].depth by {
            if k > p {
                assert(nodes[k].depth >= nodes[i].depth);
            }
        }
    }
}

proof fn lemma_flags(nodes: Seq<NodeText>, i: int, p: int, lang: Language)
    requires
        is_tree(nodes),
        0 <= p < i < nodes.len(),
        nodes[p].depth + 1 == nodes[i].depth,
        forall|k: int| p < k < i ==> (#[trigger] nodes[k]).depth >= nodes[i].depth,
    ensures
        in_comment(nodes, i, lang) == (in_comment(nodes, p, lang) || comment_kind(
            nodes[p].kind,
            lang,
        )),
        in_macro(nodes, i) == (in_macro(nodes, p) || directive_kind(nodes[p].kind)),
{
    assert forall|j: int| below(nodes, j, i) <==> (j == p || below(nodes, j, p)) by {
        lemma_below_parent(nodes, j, i, p);
    }
    assert(below(nodes, p, i));
    if in_comment(nodes, p, lang) {
        let j = choose|j: int| #[trigger] below(nodes, j, p) && comment_kind(nodes[j].kind, lang);
        assert(below(nodes, j, i));
    }
    if in_comment(nodes, i, lang) {
        let j = choose|j: int| #[trigger] below(nodes, j, i) && comment_kind(nodes[j].kind, lang);
        assert(j == p || below(nodes, j, p));
    }
    if in_macro(nodes, p) {
        let j = choose|j: int| #[trigger] below(nodes, j, p) && directive_kind(nodes[j].kind);
        assert(below(nodes, j, i));
    }
    if in_macro(nodes, i) {
        let j = choose|j: int| #[trigger] below(nodes, j, i) && directive_kind(nodes[j].kind);
        assert(j == p || below(nodes, j, p));
    }
}

proof fn lemma_root_free(nodes: Seq<NodeText>, i: int, lang: Language)
    requires
        0 <= i < nodes.len(),
        nodes[i].depth == 0,
    ensures
        !in_comment(nodes, i, lang),
        !in_macro(nodes, i),
{
    assert forall|j: int| !below(nodes, j, i) by {
        if below(nodes, j, i) {
            assert(nodes[i].depth > nodes[j].depth);
        }
    }
}

/// Where comments move to lies between characters of the source.
pub open spec fn targets_ok(c: CommentText, src: Seq<char>) -> bool {
    &&& c.relocate_before is Some ==> c.relocate_before->0 <= encode_utf8(src).len() && at_boundary(
        src,
        c.relocate_before->0 as int,
    )
    &&& c.param_shift is Some ==> c.param_shift->0.insert_at <= encode_utf8(src).len()
        && at_boundary(src, c.param_shift->0.insert_at as int)
}

/// Every comment is a stretch of the source, and so is every place it may move
/// to.
pub open spec fn well_placed(comments: Seq<CommentText>, src: Seq<char>) -> bool {
    forall|i: int|
        0 <= i < comments.len() ==> (#[trigger] comments[i]).placed(src) && targets_ok(
            comments[i],
            src,
        )
}

/// Every move ends between characters of the source.
pub open spec fn shifts_ok(shifts: Map<usize, ParamShift>, src: Seq<char>) -> bool {
    forall|k: usize|
        shifts.dom().contains(k) ==> (#[trigger] shifts[k]).insert_at <= encode_utf8(src).len()
            && at_boundary(src, shifts[k].insert_at as int)
}

fn collect_node(
    nodes: &Vec<SyntaxNode>,
    i: usize,
    parent: Option<usize>,
    in_directive_node: bool,
    source: &str,
    lang: Language,
    shifts: &HashMap<usize, ParamShift>,
) -> (r: Option<Comment>)
    requires
        i < nodes.len(),
        nodes_placed(node_texts(nodes@), source@),
        parent is Some ==> parent->0 < nodes.len(),
        parent_of(node_texts(nodes@), i as int) == (match parent {
            Some(p) => Some(p as int),
            None => None,
        }),
        in_directive_node == in_macro(node_texts(nodes@), i as int),
        shifts@ == param_shifts(node_texts(nodes@), source@, lang),
        !in_comment(node_texts(nodes@), i as int, lang),
        comment_kind(node_texts(nodes@)[i as int].kind, lang),
    ensures
        ({
            let all = node_texts(nodes@);
            match r {
                Some(c) => is_collected(all, i as int, source@, lang) && c@ == node_comment(
                    all,
                    i as int,
                    source@,
                    lang,
                    shifts@,
                ),
                None => !is_collected(all, i as int, source@, lang),
            }
        }),
{
    let ghost all = node_texts(nodes@);
    assert(all[i as int] == nodes@[i as int]@);
    let start: usize = nodes[i].start_byte;
    if lang != Language::Rust && lang != Language::Shell {
        if in_directive_node || is_inside_preprocessor_directive(start, source) {
            return None;
        }
    }
    if is_shell_shebang(nodes, i, source, lang) {
        return None;
    }
    let shift = match shifts.get(&start) {
        Some(s) => Some(*s),
        None => None,
    };
    let relocate = match shift {
        Some(_) => None,
        None => manpage_relocate_target(nodes, i, parent, source, lang),
    };
    Some(make_comment(source, start, nodes[i].end_byte, lang, relocate, shift))
}

/// Where a walk over the nodes stands: the way down from the root, and for each
/// node of it whether what lies below is part of a comment, and of a directive.
struct Walk {
    path: Vec<usize>,
    comment: Vec<bool>,
    directive: Vec<bool>,
}

impl Walk {
    /// Step `d` of the way is right for the nodes before `i`.
    spec fn step_ok(self, nodes: Seq<NodeText>, i: int, d: int, lang: Language) -> bool {
        let p = self.path@[d] as int;
        &&& p < i
        &&& nodes[p].depth == d
        &&& forall|k: int| p < k < i ==> (#[trigger] nodes[k]).depth > d
        &&& self.comment@[d] == (in_comment(nodes, p, lang) || comment_kind(nodes[p].kind, lang))
        &&& self.directive@[d] == (in_macro(nodes, p) || directive_kind(nodes[p].kind))
    }

    /// The way has `len` steps and is right for the nodes before `i`.
    spec fn ok(self, nodes: Seq<NodeText>, i: int, len: int, lang: Language) -> bool {
        &&& self.path.len() == len
        &&& self.comment.len() == len
        &&& self.directive.len() == len
        &&& forall|d: int| 0 <= d < len ==> #[trigger] self.step_ok(nodes, i, d, lang)
    }

    /// Goes back up to the parent of node `i`, and tells whether the node is
    /// part of a comment and of a directive.
    fn locate(&mut self, nodes: &Vec<SyntaxNode>, i: usize, lang: Language) -> (r: (
        Option<usize>,
        bool,
        bool,
    ))
        requires
            is_tree(node_texts(nodes@)),
            i < nodes.len(),
            old(self).ok(
                node_texts(nodes@),
                i as int,
                if i == 0 {
                    0
                } else {
                    node_texts(nodes@)[i - 1].depth + 1
                },
                lang,
            ),
        ensures
            final(self).ok(
                node_texts(nodes@),
                i as int,
                node_texts(nodes@)[i as int].depth as int,
                lang,
            ),
            parent_of(node_texts(nodes@), i as int) == (match r.0 {
                Some(p) => Some(p as int),
                None => None,
            }),
            r.0 is Some ==> r.0->0 < nodes.len(),
            r.1 == in_comment(node_texts(nodes@), i as int, lang),
            r.2 == in_macro(node_texts(nodes@), i as int),
    {
        let ghost all = node_texts(nodes@);
        assert(all[i as int] == nodes@[i as int]@);
        let depth: usize = nodes[i].depth;
        let ghost before = *self;
        proof {
            if i > 0 {
                assert(all[i as int].depth <= all[i - 1].depth + 1);
            }
        }
        self.path.truncate(depth);
        self.comment.truncate(depth);
        self.directive.truncate(depth);
        proof {
            assert forall|d: int| 0 <= d < depth implies #[trigger] self.step_ok(
                all,
                i as int,
                d,
                lang,
            ) by {
                assert(before.step_ok(all, i as int, d, lang));
            }
        }
        if depth == 0 {
            proof {
                lemma_root_free(all, i as int, lang);
                lemma_no_parent(all, i as int, i as int);
            }
            return (None, false, false);
        }
        let p: usize = self.path[depth - 1];
        proof {
            assert(self.step_ok(all, i as int, depth - 1, lang));
            lemma_flags(all, i as int, p as int, lang);
            lemma_path_parent(all, i as int, i as int, p as int);
        }
        (Some(p), self.comment[depth - 1], self.directive[depth - 1])
    }

    /// Goes down to node `i`.
    fn enter(&mut self, nodes: &Vec<SyntaxNode>, i: usize, comment: bool, directive: bool, Ghost(
        lang,
    ): Ghost<Language>)
        requires
            i < nodes.len(),
            old(self).ok(
                node_texts(nodes@),
                i as int,
                node_texts(nodes@)[i as int].depth as int,
                lang,
            ),
            comment == (in_comment(node_texts(nodes@), i as int, lang) || comment_kind(
                node_texts(nodes@)[i as int].kind,
                lang,
            )),
            directive == (in_macro(node_texts(nodes@), i as int) || directive_kind(
                node_texts(nodes@)[i as int].kind,
            )),
        ensures
            final(self).ok(
                node_texts(nodes@),
                i + 1,
                node_texts(nodes@)[i as int].depth + 1,
                lang,
            ),
    {
        let ghost all = node_texts(nodes@);
        let ghost before = *self;
        let ghost depth = all[i as int].depth as int;
        self.path.push(i);
        self.comment.push(comment);
        self.directive.push(directive);
        proof {
            assert forall|d: int| 0 <= d < depth + 1 implies #[trigger] self.step_ok(
                all,
                i + 1,
                d,
                lang,
            ) by {
                if d < depth {
                    assert(before.step_ok(all, i as int, d, lang));
                    assert(self.path@[d] == before.path@[d]);
                }
            }
        }
    }
}

/// The comments of a tree, in the order of its nodes.
fn walk_collect(
    nodes: &Vec<SyntaxNode>,
    source: &str,
    lang: Language,
    shifts: &HashMap<usize, ParamShift>,
) -> (r: Vec<Comment>)
    requires
        is_tree(node_texts(nodes@)),
        nodes_placed(node_texts(nodes@), source@),
        shifts@ == param_shifts(node_texts(nodes@), source@, lang),
    ensures
        comment_texts(r@) == collected(node_texts(nodes@), nodes.len() as int, source@, lang),
{
    let ghost all = node_texts(nodes@);
    let mut out: Vec<Comment> = Vec::new();
    let mut walk = Walk { path: Vec::new(), comment: Vec::new(), directive: Vec::new() };
    let mut i: usize = 0;
    assert(comment_texts(out@) =~= collected(all, 0, source@, lang));
    while i < nodes.len()
        invariant
            i <= nodes.len(),
            all == node_texts(nodes@),
            is_tree(all),
            nodes_placed(all, source@),
            shifts@ == param_shifts(all, source@, lang),
            walk.ok(
                all,
                i as int,
                if i == 0 {
                    0
                } else {
                    all[i - 1].depth + 1
                },
                lang,
            ),
            comment_texts(out@) == collected(all, i as int, source@, lang),
        decreases nodes.len() - i,
    {
        let kind = nodes[i].kind;
        assert(all[i as int].kind == kind@);
        let (parent, hidden, in_dir) = walk.locate(nodes, i, lang);
        let is_comment = is_comment_node(kind, lang);
        let ghost before = comment_texts(out@);
        if is_comment && !hidden {
            match collect_node(nodes, i, parent, in_dir, source, lang, shifts) {
                Some(c) => {
                    out.push(c);
                    assert(comment_texts(out@) =~= before.push(c@));
                },
                None => {},
            }
        }
        let is_directive = starts_with(kind, "preproc_") && !is_preproc_conditional_block(kind);
        walk.enter(nodes, i, hidden || is_comment, in_dir || is_directive, Ghost(lang));
        i = i + 1;
    }
    out
}

proof fn lemma_no_parent(nodes: Seq<NodeText>, i: int, k: int)
    requires
        0 <= k <= i < nodes.len(),
        nodes[i].depth == 0,
    ensures
        parent_before(nodes, i, k) == -1,
    decreases k,
{
    if k > 0 {
        lemma_no_parent(nodes, i, k - 1);
    }
}

/// `c` put behind the comments that do not start after it.
pub open spec fn inserted(v: Seq<CommentText>, c: CommentText) -> Seq<CommentText>
    decreases v.len(),
{
    if v.len() > 0 && v.last().start_byte > c.start_byte {
        inserted(v.drop_last(), c).push(v.last())
    } else {
        v.push(c)
    }
}

/// The first `n` comments in the order of their starts; comments with one start
/// keep their order.
pub open spec fn sorted(v: Seq<CommentText>, n: int) -> Seq<CommentText>
    decreases n,
{
    if n <= 0 {
        Seq::empty()
    } else {
        inserted(sorted(v, n - 1), v[n - 1])
    }
}

proof fn lemma_inserted_at(v: Seq<CommentText>, c: CommentText, k: int)
    requires
        0 <= k <= v.len(),
        forall|j: int| k <= j < v.len() ==> (#[trigger] v[j]).start_byte > c.start_byte,
        k > 0 ==> v[k - 1].start_byte <= c.start_byte,
    ensures
        inserted(v, c) == v.insert(k, c),
    decreases v.len() - k,
{
    if k < v.len() {
        let w = v.drop_last();
        lemma_inserted_at(w, c, k);
        assert(w.insert(k, c).push(v.last()) =~= v.insert(k, c));
    } else {
        assert(v.push(c) =~= v.insert(k, c));
    }
}

fn insert_comment(out: &mut Vec<Comment>, c: Comment)
    ensures
        comment_texts(final(out)@) == inserted(comment_texts(old(out)@), c@),
{
    let ghost given = comment_texts(out@);
    let mut k: usize = out.len();
    while k > 0 && out[k - 1].start_byte > c.start_byte
        invariant
            k <= out.len(),
            given == comment_texts(out@),
            forall|j: int| k <= j < given.len() ==> (#[trigger] given[j]).start_byte > c@.start_byte,
        decreases k,
    {
        assert(given[k - 1] == out@[k - 1]@);
        k = k - 1;
    }
    proof {
        if k > 0 {
            assert(given[k - 1] == out@[k - 1]@);
        }
        lemma_inserted_at(given, c@, k as int);
    }
    out.insert(k, c);
    assert(comment_texts(out@) =~= given.insert(k as int, c@));
}

fn sort_comments(comments: Vec<Comment>) -> (r: Vec<Comment>)
    ensures
        comment_texts(r@) == sorted(comment_texts(comments@), comments.len() as int),
{
    let ghost all = comment_texts(comments@);
    let mut out: Vec<Comment> = Vec::new();
    let mut i: usize = 0;
    assert(comment_texts(out@) =~= sorted(all, 0));
    while i < comments.len()
        invariant
            i <= comments.len(),
            all == comment_texts(comments@),
            comment_texts(out@) == sorted(all, i as int),
        decreases comments.len() - i,
    {
        let c = comments[i].copy();
        assert(all[i as int] == c@);
        insert_comment(&mut out, c);
        i = i + 1;
    }
    out
}

proof fn lemma_inserted(v: Seq<CommentText>, c: CommentText, src: Seq<char>)
    requires
        in_order(v),
        well_placed(v, src),
        c.placed(src),
        targets_ok(c, src),
    ensures
        in_order(inserted(v, c)),
        well_placed(inserted(v, c), src),
        inserted(v, c).len() == v.len() + 1,
        inserted(v, c).last().start_byte == c.start_byte || (v.len() > 0 && inserted(
            v,
            c,
        ).last() == v.last() && v.last().start_byte > c.start_byte),
    decreases v.len(),
{
    let r = inserted(v, c);
    if v.len() > 0 && v.last().start_byte > c.start_byte {
        let w = v.drop_last();
        assert(in_order(w));
        assert forall|i: int| 0 <= i < w.len() implies (#[trigger] w[i]).placed(src) && targets_ok(
            w[i],
            src,
        ) by {
            assert(v[i].placed(src));
        }
        lemma_inserted(w, c, src);
        let s = inserted(w, c);
        assert(v[v.len() - 1].placed(src));
        assert(s.last().start_byte <= v.last().start_byte) by {
            if w.len() > 0 && s.last() == w.last() {
                assert(v[v.len() - 2].start_byte <= v[v.len() - 1].start_byte);
            }
        }
        assert forall|i: int, j: int| 0 <= i < j < r.len() implies r[i].start_byte
            <= r[j].start_byte by {
            if j == r.len() - 1 {
                assert(i <= s.len() - 1);
                if i < s.len() - 1 {
                    assert(s[i].start_byte <= s[s.len() - 1].start_byte);
                }
            } else {
                assert(s[i].start_byte <= s[j].start_byte);
            }
        }
        assert forall|i: int| 0 <= i < r.len() implies (#[trigger] r[i]).placed(src) && targets_ok(
            r[i],
            src,
        ) by {
            if i < s.len() {
                assert(s[i].placed(src));
            }
        }
    } else {
        assert forall|i: int, j: int| 0 <= i < j < r.len() implies r[i].start_byte
            <= r[j].start_byte by {
            if j == v.len() {
                if i < v.len() - 1 {
                    assert(v[i].start_byte <= v[v.len() - 1].start_byte);
                }
            } else {
                assert(v[i].start_byte <= v[j].start_byte);
            }
        }
        assert forall|i: int| 0 <= i < r.len() implies (#[trigger] r[i]).placed(src) && targets_ok(
            r[i],
            src,
        ) by {
            if i < v.len() {
                assert(v[i].placed(src));
            }
        }
    }
}

/// Sorting puts comments in order and keeps their places.
pub proof fn lemma_sorted(v: Seq<CommentText>, n: int, src: Seq<char>)
    requires
        0 <= n <= v.len(),
        well_placed(v, src),
    ensures
        in_order(sorted(v, n)),
        well_placed(sorted(v, n), src),
        sorted(v, n).len() == n,
    decreases n,
{
    if n > 0 {
        lemma_sorted(v, n - 1, src);
        assert(v[n - 1].placed(src));
        lemma_inserted(sorted(v, n - 1), v[n - 1], src);
    }
}

/// The line ending behind byte offset `end`; that of most lines of the file
/// where none is there.
pub open spec fn ending_behind(src: Seq<char>, end: int) -> Seq<char> {
    let b = encode_utf8(src);
    if end + 1 < b.len() && b[end] == 13u8 && b[end + 1] == 10u8 {
        "\r\n"@
    } else if end < b.len() && b[end] == 10u8 {
        "\n"@
    } else {
        dominant_ending(src)
    }
}

/// The comments with their line endings settled.
pub open spec fn with_endings(v: Seq<CommentText>, src: Seq<char>) -> Seq<CommentText> {
    Seq::new(
        v.len(),
        |i: int| CommentText { fallback_ending: ending_behind(src, v[i].end_byte), ..v[i] },
    )
}

/// The comments of a file from what was found in it.
pub open spec fn finished(v: Seq<CommentText>, src: Seq<char>) -> Seq<CommentText> {
    with_endings(merged_from(sorted(v, v.len() as int), 0, src), src)
}

proof fn lemma_merged_placed(v: Seq<CommentText>, i: int, src: Seq<char>)
    requires
        0 <= i,
        in_order(v),
        well_placed(v, src),
    ensures
        well_placed(merged_from(v, i, src), src),
    decreases v.len() - i,
{
    if i < v.len() {
        crate::merge::lemma_run_end(v, i, src);
        let j = run_end(v, i, src);
        lemma_merged_placed(v, j + 1, src);
        assert(v[i].placed(src) && v[j].placed(src));
        if i < j {
            assert(v[i].start_byte <= v[j].start_byte);
        }
        let m = merged_run(v, i, j, src);
        assert(m.placed(src) && targets_ok(m, src));
        let r = merged_from(v, i, src);
        let rest = merged_from(v, j + 1, src);
        assert forall|k: int| 0 <= k < r.len() implies (#[trigger] r[k]).placed(src) && targets_ok(
            r[k],
            src,
        ) by {
            if k > 0 {
                assert(r[k] == rest[k - 1]);
            }
        }
    }
}

fn ending_after(source: &str, end: usize, file_ending: &'static str) -> (r: &'static str)
    requires
        file_ending@ == dominant_ending(source@),
        end <= encode_utf8(source@).len(),
    ensures
        r@ == ending_behind(source@, end as int),
{
    let bytes = source.as_bytes();
    if end < bytes.len() {
        if bytes[end] == 13u8 && end + 1 < bytes.len() && bytes[end + 1] == 10u8 {
            return "\r\n";
        }
        if bytes[end] == 10u8 {
            return "\n";
        }
    }
    file_ending
}

/// Sorts comments, joins the runs that read as one, and settles their line
/// endings.
fn finish(comments: Vec<Comment>, source: &str) -> (r: Vec<Comment>)
    requires
        well_placed(comment_texts(comments@), source@),
    ensures
        comment_texts(r@) == finished(comment_texts(comments@), source@),
        well_placed(comment_texts(r@), source@),
{
    let ghost all = comment_texts(comments@);
    let sorted_comments = sort_comments(comments);
    let ghost in_line = comment_texts(sorted_comments@);
    proof {
        lemma_sorted(all, all.len() as int, source@);
        assert forall|i: int| 0 <= i < in_line.len() implies (#[trigger] in_line[i]).placed(
            source@,
        ) by {
            assert(in_line[i].placed(source@) && targets_ok(in_line[i], source@));
        }
        lemma_merged_placed(in_line, 0, source@);
    }
    let merged = merge_comment_groups(&sorted_comments, source);
    let ghost ms = comment_texts(merged@);
    let file_ending = dominant_line_ending(source);
    let mut out: Vec<Comment> = Vec::new();
    let mut i: usize = 0;
    let ghost want = with_endings(ms, source@);
    while i < merged.len()
        invariant
            i <= merged.len(),
            ms == comment_texts(merged@),
            well_placed(ms, source@),
            want == with_endings(ms, source@),
            file_ending@ == dominant_ending(source@),
            out.len() == i,
            forall|j: int| 0 <= j < i ==> (#[trigger] out@[j])@ == want[j],
        decreases merged.len() - i,
    {
        assert(ms[i as int] == merged@[i as int]@);
        assert(ms[i as int].placed(source@));
        let mut c = merged[i].copy();
        c.fallback_ending = ending_after(source, c.end_byte, file_ending);
        out.push(c);
        i = i + 1;
    }
    proof {
        assert(comment_texts(out@) =~= want);
        assert forall|k: int| 0 <= k < want.len() implies (#[trigger] want[k]).placed(source@)
            && targets_ok(want[k], source@) by {
            assert(ms[k].placed(source@) && targets_ok(ms[k], source@));
        }
    }
    out
}

/// Why the comments of a file cannot be found.
#[derive(Debug, Clone, Copy, PartialEq, Eq, Structural)]
pub enum ExtractError {
    /// The parser does not take the language's grammar.
    Grammar,
    /// The parser gives no tree.
    NoTree,
    /// The tree's nodes do not fit the source.
    BadSpan,
}

impl ExtractError {
    pub open spec fn message(self) -> Seq<char> {
        match self {
            ExtractError::Grammar => "set_language failed"@,
            ExtractError::NoTree => "tree-sitter parse returned None"@,
            ExtractError::BadSpan => "tree-sitter reported a node outside the source"@,
        }
    }

    /// What to tell the user.
    pub fn describe(&self) -> (r: &'static str)
        ensures
            r@ == self.message(),
    {
        match self {
            ExtractError::Grammar => "set_language failed",
            ExtractError::NoTree => "tree-sitter parse returned None",
            ExtractError::BadSpan => "tree-sitter reported a node outside the source",
        }
    }
}

/// The comments of a source with the given syntax tree.
pub open spec fn tree_comments(nodes: Seq<NodeText>, src: Seq<char>, lang: Language) -> Seq<
    CommentText,
> {
    finished(collected(nodes, nodes.len() as int, src, lang), src)
}

fn spans_fit(nodes: &Vec<SyntaxNode>, source: &str) -> (r: bool)
    ensures
        r == nodes_placed(node_texts(nodes@), source@),
{
    let ghost all = node_texts(nodes@);
    let len: usize = source.as_bytes().len();
    let mut i: usize = 0;
    while i < nodes.len()
        invariant
            i <= nodes.len(),
            all == node_texts(nodes@),
            len == encode_utf8(source@).len(),
            forall|j: int|
                0 <= j < i ==> span_ok(
                    source@,
                    (#[trigger] all[j]).start_byte as int,
                    all[j].end_byte as int,
                ),
        decreases nodes.len() - i,
    {
        assert(all[i as int] == nodes@[i as int]@);
        let a: usize = nodes[i].start_byte;
        let b: usize = nodes[i].end_byte;
        if a > b || b > len || !source.is_char_boundary(a) || !source.is_char_boundary(b) {
            assert(!span_ok(source@, a as int, b as int));
            return false;
        }
        i = i + 1;
    }
    true
}

proof fn lemma_shift_targets(
    nodes: Seq<NodeText>,
    src: Seq<char>,
    lang: Language,
)
    requires
        nodes_placed(nodes, src),
    ensures
        shifts_ok(param_shifts(nodes, src, lang), src),
{
    if lang.is_c_like() {
        crate::signature::lemma_shifts_end_at_nodes(nodes, nodes.len() as int, src, lang);
        let m = param_shifts(nodes, src, lang);
        assert forall|k: usize| m.dom().contains(k) implies (#[trigger] m[k]).insert_at
            <= encode_utf8(src).len() && at_boundary(src, m[k].insert_at as int) by {
            let p = choose|p: int| 0 <= p < nodes.len() && (#[trigger] nodes[p]).end_byte == m[k].insert_at;
            assert(span_ok(src, nodes[p].start_byte as int, nodes[p].end_byte as int));
        }
    }
}

proof fn lemma_collected_placed(nodes: Seq<NodeText>, n: int, src: Seq<char>, lang: Language)
    requires
        0 <= n <= nodes.len(),
        nodes_placed(nodes, src),
    ensures
        well_placed(collected(nodes, n, src, lang), src),
    decreases n,
{
    if n > 0 {
        lemma_collected_placed(nodes, n - 1, src, lang);
        lemma_shift_targets(nodes, src, lang);
        let before = collected(nodes, n - 1, src, lang);
        let shifts = param_shifts(nodes, src, lang);
        let c = node_comment(nodes, n - 1, src, lang, shifts);
        assert(span_ok(src, nodes[n - 1].start_byte as int, nodes[n - 1].end_byte as int));
        if c.param_shift is Some {
            assert(shifts.dom().contains(nodes[n - 1].start_byte));
        }
        match parent_of(nodes, n - 1) {
            Some(p) => {
                lemma_parent_in_range(nodes, n - 1, n - 1);
                assert(span_ok(src, nodes[p].start_byte as int, nodes[p].end_byte as int));
                lemma_line_start_boundary(src, nodes[p].start_byte as int);
                crate::bytes::lemma_line_start(encode_utf8(src), nodes[p].start_byte as int);
            },
            None => {},
        }
        assert(targets_ok(c, src));
        let r = collected(nodes, n, src, lang);
        assert forall|i: int| 0 <= i < r.len() implies (#[trigger] r[i]).placed(src) && targets_ok(
            r[i],
            src,
        ) by {
            if i < before.len() {
                assert(before[i].placed(src));
            }
        }
    }
}

proof fn lemma_parent_in_range(nodes: Seq<NodeText>, i: int, k: int)
    requires
        0 <= k,
    ensures
        -1 <= parent_before(nodes, i, k) < k || k == 0,
        parent_before(nodes, i, k) < k,
    decreases k,
{
    if k > 0 {
        lemma_parent_in_range(nodes, i, k - 1);
    }
}

/// The comments of a source with the given syntax tree. The tree is refused
/// when a node is no stretch of whole characters of the source.
pub fn comments_in_tree(source: &str, lang: Language, nodes: &Vec<SyntaxNode>) -> (r: Result<
    Vec<Comment>,
    ExtractError,
>)
    requires
        is_tree(node_texts(nodes@)),
    ensures
        (match r {
            Ok(v) => {
                &&& nodes_placed(node_texts(nodes@), source@)
                &&& comment_texts(v@) == tree_comments(node_texts(nodes@), source@, lang)
                &&& well_placed(comment_texts(v@), source@)
            },
            Err(e) => e == ExtractError::BadSpan && !nodes_placed(node_texts(nodes@), source@),
        }),
{
    if !spans_fit(nodes, source) {
        return Err(ExtractError::BadSpan);
    }
    proof {
        lemma_collected_placed(node_texts(nodes@), nodes.len() as int, source@, lang);
    }
    let shifts = collect_param_shifts(nodes, source, lang);
    let comments = walk_collect(nodes, source, lang, &shifts);
    Ok(finish(comments, source))
}

/// The block comments of an assembly source that are outside preprocessor
/// directives, from the first `n` of `blocks`.
pub open spec fn assembly_collected(blocks: Seq<(int, int)>, n: int, src: Seq<char>) -> Seq<
    CommentText,
>
    decreases n,
{
    if n <= 0 {
        Seq::empty()
    } else if in_directive(src, blocks[n - 1].0) {
        assembly_collected(blocks, n - 1, src)
    } else {
        assembly_collected(blocks, n - 1, src).push(
            comment_at(src, blocks[n - 1].0, blocks[n - 1].1, Language::Asm, None, None),
        )
    }
}

/// The comments of an assembly source.
pub open spec fn assembly_comments(src: Seq<char>) -> Seq<CommentText> {
    let blocks = blocks_from(encode_utf8(src), 0);
    finished(assembly_collected(blocks, blocks.len() as int, src), src)
}

/// The comments of an assembly source: block comments, found without a parser.
pub fn comments_in_assembly(source: &str) -> (r: Vec<Comment>)
    ensures
        comment_texts(r@) == assembly_comments(source@),
        well_placed(comment_texts(r@), source@),
{
    let blocks = scan(source);
    let ghost bs = blocks_from(encode_utf8(source@), 0);
    let mut out: Vec<Comment> = Vec::new();
    let mut i: usize = 0;
    assert(comment_texts(out@) =~= assembly_collected(bs, 0, source@));
    assert(blocks.len() == bs.len());
    while i < blocks.len()
        invariant
            i <= blocks.len(),
            bs == pair_ints(blocks@),
            forall|k: int|
                0 <= k < blocks.len() ==> span_ok(
                    source@,
                    (#[trigger] blocks@[k]).0 as int,
                    blocks@[k].1 as int,
                ),
            comment_texts(out@) == assembly_collected(bs, i as int, source@),
            well_placed(comment_texts(out@), source@),
        decreases blocks.len() - i,
    {
        let (start, end) = blocks[i];
        assert(bs[i as int] == (start as int, end as int));
        assert(span_ok(source@, blocks@[i as int].0 as int, blocks@[i as int].1 as int));
        if !is_inside_preprocessor_directive(start, source) {
            let ghost before = comment_texts(out@);
            let c = make_comment(source, start, end, Language::Asm, None, None);
            out.push(c);
            proof {
                assert(comment_texts(out@) =~= before.push(c@));
                let r = comment_texts(out@);
                assert forall|k: int| 0 <= k < r.len() implies (#[trigger] r[k]).placed(source@)
                    && targets_ok(r[k], source@) by {
                    if k < before.len() {
                        assert(before[k].placed(source@));
                    }
                }
            }
        }
        i = i + 1;
    }
    finish(out, source)
}


/// What the comments of a source are, from what the parser says of it. An
/// assembly source needs no parser.
pub open spec fn extracted(
    src: Seq<char>,
    lang: Language,
    r: Result<Seq<CommentText>, ExtractError>,
) -> bool {
    if lang == Language::Asm {
        r == Ok::<Seq<CommentText>, ExtractError>(assembly_comments(src))
    } else {
        match r {
            Err(ExtractError::Grammar) => !parseable(lang),
            Err(ExtractError::NoTree) => parseable(lang) && parsed(lang, src) is None,
            Err(ExtractError::BadSpan) => {
                &&& parseable(lang)
                &&& parsed(lang, src) is Some
                &&& !nodes_placed(parsed(lang, src)->0, src)
            },
            Ok(v) => {
                &&& parseable(lang)
                &&& parsed(lang, src) is Some
                &&& nodes_placed(parsed(lang, src)->0, src)
                &&& v == tree_comments(parsed(lang, src)->0, src, lang)
            },
        }
    }
}

/// The comments of a source file, with parsers from `pool`.
pub fn extract_comments_with(source: &str, lang: Language, pool: &mut ParserPool) -> (r: Result<
    Vec<Comment>,
    ExtractError,
>)
    requires
        old(pool).wf(),
    ensures
        final(pool).wf(),
        final(pool).used(*old(pool), lang),
        (match r {
            Ok(v) => {
                &&& extracted(source@, lang, Ok(comment_texts(v@)))
                &&& well_placed(comment_texts(v@), source@)
            },
            Err(e) => extracted(source@, lang, Err(e)),
        }),
{
    if lang == Language::Asm {
        return Ok(comments_in_assembly(source));
    }
    match pool.parse(source, lang) {
        Ok(tree) => {
            let nodes = list_nodes(&tree);
            comments_in_tree(source, lang, &nodes)
        },
        Err(SyntaxError::Grammar) => Err(ExtractError::Grammar),
        Err(SyntaxError::NoTree) => Err(ExtractError::NoTree),
    }
}

/// The comments of a source file.
pub fn extract_comments(source: &str, lang: Language) -> (r: Result<Vec<Comment>, ExtractError>)
    ensures
        (match r {
            Ok(v) => {
                &&& extracted(source@, lang, Ok(comment_texts(v@)))
                &&& well_placed(comment_texts(v@), source@)
            },
            Err(e) => extracted(source@, lang, Err(e)),
        }),
{
    let mut pool = ParserPool::new();
    extract_comments_with(source, lang, &mut pool)
}

} // verus!
