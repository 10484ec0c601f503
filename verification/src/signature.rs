//! What a function's signature says about the comments in it: parameter
//! comments that all drifted forward by one, and the manual-page block between
//! the signature and the body.

use crate::bytes::{line_start, line_start_before, slice, span, span_ok};
use crate::comment::ParamShift;
use crate::directive::{is_passthrough_directive, passthrough_directive};
use crate::language::Language;
use crate::syntax::{node_texts, NodeText, SyntaxNode};
use crate::text::{
    after_lead, before_trail, drop_trail, has_prefix, same, skip_lead, split_chars, split_on_three,
    split_words, starts_with, strs, words_of, CharClass,
};
use crate::wrap::positions;
use std::collections::HashMap;
use vstd::prelude::*;
use vstd::utf8::encode_utf8;

verus! {

broadcast use vstd::std_specs::hash::group_hash_axioms;

/// Every node is a stretch of whole characters of the source.
pub open spec fn nodes_placed(nodes: Seq<NodeText>, src: Seq<char>) -> bool {
    forall|i: int|
        0 <= i < nodes.len() ==> span_ok(
            src,
            (#[trigger] nodes[i]).start_byte as int,
            nodes[i].end_byte as int,
        )
}

/// The source text of node `i`.
pub open spec fn node_source(nodes: Seq<NodeText>, i: int, src: Seq<char>) -> Seq<char> {
    span(src, nodes[i].start_byte as int, nodes[i].end_byte as int)
}

fn text_of<'a>(nodes: &Vec<SyntaxNode>, i: usize, source: &'a str) -> (r: &'a str)
    requires
        i < nodes.len(),
        nodes_placed(node_texts(nodes@), source@),
    ensures
        r@ == node_source(node_texts(nodes@), i as int, source@),
{
    assert(node_texts(nodes@)[i as int] == nodes@[i as int]@);
    slice(source, nodes[i].start_byte, nodes[i].end_byte)
}

/// The children of node `i` at or behind `k`, in order.
pub open spec fn children_from(nodes: Seq<NodeText>, i: int, k: int) -> Seq<int>
    decreases nodes.len() - k,
{
    if k >= nodes.len() || nodes[k].depth <= nodes[i].depth {
        Seq::empty()
    } else if nodes[k].depth == nodes[i].depth + 1 {
        seq![k] + children_from(nodes, i, k + 1)
    } else {
        children_from(nodes, i, k + 1)
    }
}

pub open spec fn children(nodes: Seq<NodeText>, i: int) -> Seq<int> {
    children_from(nodes, i, i + 1)
}

/// All of `kids` are numbers of nodes.
pub open spec fn in_nodes(kids: Seq<int>, nodes: Seq<NodeText>) -> bool {
    forall|j: int| 0 <= j < kids.len() ==> 0 <= #[trigger] kids[j] < nodes.len()
}

fn children_of(nodes: &Vec<SyntaxNode>, i: usize) -> (r: Vec<usize>)
    requires
        i < nodes.len(),
    ensures
        positions(r@) == children(node_texts(nodes@), i as int),
        forall|j: int| 0 <= j < r.len() ==> #[trigger] r@[j] < nodes.len(),
{
    let ghost all = node_texts(nodes@);
    let mut out: Vec<usize> = Vec::new();
    let mut k: usize = i + 1;
    assert(positions(out@) + children(all, i as int) =~= children(all, i as int));
    while k < nodes.len() && nodes[k].depth > nodes[i].depth
        invariant
            i < k <= nodes.len(),
            all == node_texts(nodes@),
            positions(out@) + children_from(all, i as int, k as int) == children(all, i as int),
            forall|j: int| 0 <= j < out.len() ==> #[trigger] out@[j] < nodes.len(),
        decreases nodes.len() - k,
    {
        assert(all[k as int] == nodes@[k as int]@ && all[i as int] == nodes@[i as int]@);
        if nodes[k].depth - nodes[i].depth == 1 {
            let ghost before = positions(out@);
            out.push(k);
            assert(positions(out@) =~= before + seq![k as int]);
            assert(positions(out@) + children_from(all, i as int, k + 1) =~= before
                + children_from(all, i as int, k as int));
        }
        k = k + 1;
    }
    proof {
        assert(all[i as int] == nodes@[i as int]@);
        if k < nodes.len() {
            assert(all[k as int] == nodes@[k as int]@);
        }
        assert(positions(out@) =~= children(all, i as int));
    }
    out
}

/// The first of `kids` at or behind `j` that its parent holds under `name`.
pub open spec fn field_from(nodes: Seq<NodeText>, kids: Seq<int>, j: int, name: Seq<char>) -> Option<
    int,
>
    decreases kids.len() - j,
{
    if j >= kids.len() {
        None
    } else if nodes[kids[j]].field == Some(name) {
        Some(kids[j])
    } else {
        field_from(nodes, kids, j + 1, name)
    }
}

/// The child of node `i` under `name`.
pub open spec fn field_child(nodes: Seq<NodeText>, i: int, name: Seq<char>) -> Option<int> {
    field_from(nodes, children(nodes, i), 0, name)
}

fn child_by_field_name(nodes: &Vec<SyntaxNode>, i: usize, name: &str) -> (r: Option<usize>)
    requires
        i < nodes.len(),
    ensures
        (match r {
            Some(k) => k < nodes.len() && field_child(node_texts(nodes@), i as int, name@) == Some(
                k as int,
            ),
            None => field_child(node_texts(nodes@), i as int, name@) is None,
        }),
{
    let ghost all = node_texts(nodes@);
    let kids = children_of(nodes, i);
    let ghost ks = positions(kids@);
    let mut j: usize = 0;
    while j < kids.len()
        invariant
            j <= kids.len(),
            all == node_texts(nodes@),
            ks == positions(kids@),
            ks == children(all, i as int),
            forall|t: int| 0 <= t < kids.len() ==> #[trigger] kids@[t] < nodes.len(),
            field_child(all, i as int, name@) == field_from(all, ks, j as int, name@),
        decreases kids.len() - j,
    {
        let k: usize = kids[j];
        assert(kids@[j as int] < nodes.len());
        assert(ks[j as int] == k && all[k as int] == nodes@[k as int]@);
        let hit = match nodes[k].field {
            Some(f) => same(f, name),
            None => false,
        };
        if hit {
            return Some(k);
        }
        j = j + 1;
    }
    None
}

/// The heading that opens a piece of a manual page.
pub open spec fn piece_heading(piece: Seq<char>) -> Seq<char> {
    let words = words_of(after_lead(piece, CharClass::One('/')));
    if words.len() == 0 {
        Seq::empty()
    } else {
        before_trail(words[0], CharClass::One(':'))
    }
}

pub open spec fn has_heading(pieces: Seq<Seq<char>>, name: Seq<char>) -> bool {
    exists|i: int| 0 <= i < pieces.len() && piece_heading(#[trigger] pieces[i]) == name
}

/// The text has a description and a return section.
pub open spec fn manpage_headers(text: Seq<char>) -> bool {
    let pieces = split_on_three(text, '\n', '\r', '*');
    has_heading(pieces, "DESCRIPTION"@) && (has_heading(pieces, "RETURN"@) || has_heading(
        pieces,
        "RETURNS"@,
    ))
}

fn pieces_have(pieces: &Vec<&str>, name: &str) -> (r: bool)
    requires
        name@.len() > 0,
    ensures
        r == has_heading(strs(pieces@), name@),
{
    let ghost all = strs(pieces@);
    let mut i: usize = 0;
    while i < pieces.len()
        invariant
            i <= pieces.len(),
            all == strs(pieces@),
            name@.len() > 0,
            forall|j: int| 0 <= j < i ==> piece_heading(#[trigger] all[j]) != name@,
        decreases pieces.len() - i,
    {
        assert(all[i as int] == pieces@[i as int]@);
        let words = split_words(skip_lead(pieces[i], CharClass::One('/')));
        let ghost ws = strs(words@);
        assert(words.len() == ws.len());
        if words.len() > 0 {
            assert(ws[0] == words@[0]@);
            if same(drop_trail(words[0], CharClass::One(':')), name) {
                return true;
            }
        }
        i = i + 1;
    }
    false
}

fn has_manpage_section_headers(text: &str) -> (r: bool)
    ensures
        r == manpage_headers(text@),
{
    let pieces = split_chars(text, '\n', '\r', '*');
    proof {
        reveal_strlit("DESCRIPTION");
        reveal_strlit("RETURN");
        reveal_strlit("RETURNS");
    }
    pieces_have(&pieces, "DESCRIPTION") && (pieces_have(&pieces, "RETURN") || pieces_have(
        &pieces,
        "RETURNS",
    ))
}

/// A parameter and the comments that lead it.
pub ghost struct Param {
    pub node: int,
    pub group: Seq<int>,
}

/// Kid `j` is of the given kind.
pub open spec fn kid_is(nodes: Seq<NodeText>, kids: Seq<int>, j: int, kind: Seq<char>) -> bool {
    0 <= j < kids.len() && nodes[kids[j]].kind == kind
}

/// Where the comments from kid `j` on end.
pub open spec fn comments_end(nodes: Seq<NodeText>, kids: Seq<int>, j: int) -> int
    decreases kids.len() - j,
{
    if kid_is(nodes, kids, j, "comment"@) {
        comments_end(nodes, kids, j + 1)
    } else {
        j
    }
}

/// The comments from kid `a` to before `b` are block comments.
pub open spec fn all_blocks(
    nodes: Seq<NodeText>,
    kids: Seq<int>,
    a: int,
    b: int,
    src: Seq<char>,
) -> bool {
    forall|j: int| a <= j < b ==> has_prefix(node_source(nodes, #[trigger] kids[j], src), "/*"@)
}

/// The parameters from kid `j` on, each behind a comma and its comments, up to
/// the closing parenthesis; `None` where the list has any other shape.
pub open spec fn params_from(
    nodes: Seq<NodeText>,
    kids: Seq<int>,
    j: int,
    src: Seq<char>,
) -> Option<Seq<Param>>
    decreases kids.len() - j,
{
    if kid_is(nodes, kids, j, ","@) {
        let e = comments_end(nodes, kids, j + 1);
        if j < e && all_blocks(nodes, kids, j + 1, e, src) && kid_is(
            nodes,
            kids,
            e,
            "parameter_declaration"@,
        ) {
            match params_from(nodes, kids, e + 1, src) {
                Some(rest) => Some(
                    seq![Param { node: kids[e], group: kids.subrange(j + 1, e) }] + rest,
                ),
                None => None,
            }
        } else {
            None
        }
    } else if kid_is(nodes, kids, j, ")"@) && j == kids.len() - 1 {
        Some(Seq::empty())
    } else {
        None
    }
}

/// The parameters of a parameter list; no comment leads the first one.
pub open spec fn params_of(nodes: Seq<NodeText>, kids: Seq<int>, src: Seq<char>) -> Option<
    Seq<Param>,
> {
    if kid_is(nodes, kids, 0, "("@) && kid_is(nodes, kids, 1, "parameter_declaration"@) {
        match params_from(nodes, kids, 2, src) {
            Some(rest) => Some(seq![Param { node: kids[1], group: Seq::empty() }] + rest),
            None => None,
        }
    } else {
        None
    }
}

struct ParamGroup {
    node: usize,
    group: Vec<usize>,
}

spec fn param_views(v: Seq<ParamGroup>) -> Seq<Param> {
    Seq::new(v.len(), |i: int| Param { node: v[i].node as int, group: positions(v[i].group@) })
}

fn kind_at(nodes: &Vec<SyntaxNode>, kids: &Vec<usize>, j: usize, kind: &str) -> (r: bool)
    requires
        forall|t: int| 0 <= t < kids.len() ==> #[trigger] kids@[t] < nodes.len(),
    ensures
        r == kid_is(node_texts(nodes@), positions(kids@), j as int, kind@),
{
    if j >= kids.len() {
        return false;
    }
    assert(kids@[j as int] < nodes.len());
    let k: usize = kids[j];
    assert(node_texts(nodes@)[k as int] == nodes@[k as int]@);
    same(nodes[k].kind, kind)
}

/// Reads the comments from kid `from` on; `None` when one is a line comment.
fn comment_group(nodes: &Vec<SyntaxNode>, kids: &Vec<usize>, from: usize, source: &str) -> (r:
    Option<Vec<usize>>)
    requires
        from <= kids.len(),
        nodes_placed(node_texts(nodes@), source@),
        forall|t: int| 0 <= t < kids.len() ==> #[trigger] kids@[t] < nodes.len(),
    ensures
        ({
            let all = node_texts(nodes@);
            let ks = positions(kids@);
            let e = comments_end(all, ks, from as int);
            match r {
                Some(g) => {
                    &&& all_blocks(all, ks, from as int, e, source@)
                    &&& positions(g@) == ks.subrange(from as int, e)
                    &&& e == from + g.len() <= kids.len()
                    &&& forall|t: int| 0 <= t < g.len() ==> #[trigger] g@[t] < nodes.len()
                },
                None => !all_blocks(all, ks, from as int, e, source@),
            }
        }),
{
    let ghost all = node_texts(nodes@);
    let ghost ks = positions(kids@);
    let mut group: Vec<usize> = Vec::new();
    let mut j: usize = from;
    assert(positions(group@) =~= ks.subrange(from as int, from as int));
    while kind_at(nodes, kids, j, "comment")
        invariant
            from <= j <= kids.len(),
            all == node_texts(nodes@),
            ks == positions(kids@),
            nodes_placed(all, source@),
            forall|t: int| 0 <= t < kids.len() ==> #[trigger] kids@[t] < nodes.len(),
            forall|t: int| 0 <= t < group.len() ==> #[trigger] group@[t] < nodes.len(),
            comments_end(all, ks, from as int) == comments_end(all, ks, j as int),
            all_blocks(all, ks, from as int, j as int, source@),
            positions(group@) == ks.subrange(from as int, j as int),
            group.len() == j - from,
        decreases kids.len() - j,
    {
        assert(kids@[j as int] < nodes.len());
        let k: usize = kids[j];
        assert(ks[j as int] == k);
        if !starts_with(text_of(nodes, k, source), "/*") {
            proof {
                lemma_comments_end(all, ks, j + 1);
                assert(!has_prefix(node_source(all, ks[j as int], source@), "/*"@));
            }
            return None;
        }
        let ghost before = positions(group@);
        group.push(k);
        assert(positions(group@) =~= before.push(k as int));
        assert(ks.subrange(from as int, j + 1) =~= ks.subrange(from as int, j as int).push(
            ks[j as int],
        ));
        j = j + 1;
    }
    Some(group)
}

proof fn lemma_comments_end(nodes: Seq<NodeText>, kids: Seq<int>, j: int)
    requires
        0 <= j <= kids.len(),
    ensures
        j <= comments_end(nodes, kids, j) <= kids.len(),
    decreases kids.len() - j,
{
    if kid_is(nodes, kids, j, "comment"@) {
        lemma_comments_end(nodes, kids, j + 1);
    }
}

/// Reads a parameter list.
fn read_params(nodes: &Vec<SyntaxNode>, kids: &Vec<usize>, source: &str) -> (r: Option<
    Vec<ParamGroup>,
>)
    requires
        nodes_placed(node_texts(nodes@), source@),
        forall|t: int| 0 <= t < kids.len() ==> #[trigger] kids@[t] < nodes.len(),
    ensures
        (match r {
            Some(v) => {
                &&& params_of(node_texts(nodes@), positions(kids@), source@) == Some(
                    param_views(v@),
                )
                &&& groups_in(v@, nodes.len() as int)
                &&& v.len() > 0
            },
            None => params_of(node_texts(nodes@), positions(kids@), source@) is None,
        }),
{
    let ghost all = node_texts(nodes@);
    let ghost ks = positions(kids@);
    if !kind_at(nodes, kids, 0, "(") || !kind_at(nodes, kids, 1, "parameter_declaration") {
        return None;
    }
    let mut params: Vec<ParamGroup> = Vec::new();
    assert(kids@[1] < nodes.len());
    let first = ParamGroup { node: kids[1], group: Vec::new() };
    params.push(first);
    proof {
        assert(positions(first.group@) =~= Seq::<int>::empty());
        assert(param_views(params@) =~= seq![Param { node: ks[1], group: Seq::empty() }]);
    }
    let mut j: usize = 2;
    while kind_at(nodes, kids, j, ",")
        invariant
            2 <= j <= kids.len(),
            all == node_texts(nodes@),
            ks == positions(kids@),
            nodes_placed(all, source@),
            forall|t: int| 0 <= t < kids.len() ==> #[trigger] kids@[t] < nodes.len(),
            groups_in(params@, nodes.len() as int),
            params.len() > 0,
            params_of(all, ks, source@) == (match params_from(all, ks, j as int, source@) {
                Some(rest) => Some(param_views(params@) + rest),
                None => None,
            }),
        decreases kids.len() - j,
    {
        proof {
            lemma_comments_end(all, ks, j + 1);
        }
        let group = match comment_group(nodes, kids, j + 1, source) {
            Some(g) => g,
            None => {
                return None;
            },
        };
        let e: usize = j + 1 + group.len();
        if !kind_at(nodes, kids, e, "parameter_declaration") {
            return None;
        }
        assert(kids@[e as int] < nodes.len());
        let ghost before = param_views(params@);
        let ghost p = Param { node: ks[e as int], group: ks.subrange(j + 1, e as int) };
        let ghost rest = params_from(all, ks, e + 1, source@);
        params.push(ParamGroup { node: kids[e], group });
        proof {
            assert(param_views(params@) =~= before.push(p));
            if rest is Some {
                assert(before + (seq![p] + rest->0) =~= before.push(p) + rest->0);
            }
        }
        j = e + 1;
    }
    if kind_at(nodes, kids, j, ")") && j == kids.len() - 1 {
        assert(param_views(params@) + Seq::empty() =~= param_views(params@));
        Some(params)
    } else {
        None
    }
}

/// All nodes that the groups name exist.
spec fn groups_in(v: Seq<ParamGroup>, n: int) -> bool {
    forall|i: int|
        #![trigger v[i]]
        0 <= i < v.len() ==> v[i].node < n && forall|t: int|
            0 <= t < v[i].group.len() ==> #[trigger] v[i].group@[t] < n
}

/// The first parameter at or behind `i` that comments lead.
pub open spec fn first_group(params: Seq<Param>, i: int) -> int
    decreases params.len() - i,
{
    if i >= params.len() || params[i].group.len() > 0 {
        i
    } else {
        first_group(params, i + 1)
    }
}

/// Comments lead every parameter from `m` on.
pub open spec fn groups_contiguous(params: Seq<Param>, m: int) -> bool {
    forall|i: int| m <= i < params.len() ==> (#[trigger] params[i]).group.len() > 0
}

/// A comment of the group is an instruction to another tool.
pub open spec fn group_pinned(
    nodes: Seq<NodeText>,
    group: Seq<int>,
    src: Seq<char>,
    lang: Language,
) -> bool {
    exists|k: int|
        0 <= k < group.len() && passthrough_directive(
            node_source(nodes, #[trigger] group[k], src),
            lang,
        )
}

pub open spec fn any_pinned(
    nodes: Seq<NodeText>,
    params: Seq<Param>,
    src: Seq<char>,
    lang: Language,
) -> bool {
    exists|i: int|
        0 <= i < params.len() && group_pinned(nodes, (#[trigger] params[i]).group, src, lang)
}

/// Where the comments of a group move: behind the parameter that ends at `at`.
pub open spec fn group_shifts(nodes: Seq<NodeText>, group: Seq<int>, at: usize) -> Seq<
    (usize, ParamShift),
> {
    Seq::new(
        group.len(),
        |k: int|
            (nodes[group[k]].start_byte, ParamShift { insert_at: at, after_paren: false }),
    )
}

/// Where the comments move that lead the parameters from `m` to before `n`:
/// each group behind the parameter before its own.
pub open spec fn leading_shifts(nodes: Seq<NodeText>, params: Seq<Param>, m: int, n: int) -> Seq<
    (usize, ParamShift),
>
    decreases n - m,
{
    if n <= m {
        Seq::empty()
    } else {
        leading_shifts(nodes, params, m, n - 1) + group_shifts(
            nodes,
            params[n - 1].group,
            nodes[params[n - 2].node].end_byte,
        )
    }
}

/// A comment between the declarator and the body.
pub open spec fn behind_declarator(
    nodes: Seq<NodeText>,
    k: int,
    decl: int,
    body: Option<int>,
) -> bool {
    &&& nodes[k].kind == "comment"@
    &&& nodes[k].start_byte >= nodes[decl].end_byte
    &&& match body {
        Some(b) => nodes[k].end_byte <= nodes[b].start_byte,
        None => true,
    }
}

/// Those of `kids` at or behind `j` that are such comments.
pub open spec fn trailing_from(
    nodes: Seq<NodeText>,
    kids: Seq<int>,
    j: int,
    decl: int,
    body: Option<int>,
) -> Seq<int>
    decreases kids.len() - j,
{
    if j >= kids.len() {
        Seq::empty()
    } else if behind_declarator(nodes, kids[j], decl, body) {
        seq![kids[j]] + trailing_from(nodes, kids, j + 1, decl, body)
    } else {
        trailing_from(nodes, kids, j + 1, decl, body)
    }
}

/// The declarator of function `f` and its parameter list.
pub open spec fn signature_of(nodes: Seq<NodeText>, f: int) -> Option<(int, int)> {
    match field_child(nodes, f, "declarator"@) {
        Some(decl) => if nodes[decl].kind == "function_declarator"@ {
            match field_child(nodes, decl, "parameters"@) {
                Some(list) => if nodes[list].kind == "parameter_list"@ {
                    Some((decl, list))
                } else {
                    None
                },
                None => None,
            }
        } else {
            None
        },
        None => None,
    }
}

/// The one block comment behind the closing parenthesis of function `f`, when
/// it is no manual page.
pub open spec fn displaced_comment(nodes: Seq<NodeText>, f: int, decl: int, src: Seq<char>) -> Option<
    int,
> {
    let trailing = trailing_from(
        nodes,
        children(nodes, f),
        0,
        decl,
        field_child(nodes, f, "body"@),
    );
    if trailing.len() == 1 && !manpage_headers(node_source(nodes, trailing[0], src)) && has_prefix(
        node_source(nodes, trailing[0], src),
        "/*"@,
    ) {
        Some(trailing[0])
    } else {
        None
    }
}

/// The moves of a signature whose parameter comments drifted: `tail` is the
/// comment behind the closing parenthesis. Comments must lead the last
/// parameters without a gap, and no instruction to another tool may be among
/// them.
pub open spec fn drift_shifts(
    nodes: Seq<NodeText>,
    params: Seq<Param>,
    tail: int,
    src: Seq<char>,
    lang: Language,
) -> Seq<(usize, ParamShift)> {
    let n = params.len() as int;
    let m = first_group(params, 0);
    if m >= n || m == 0 || !groups_contiguous(params, m) || passthrough_directive(
        node_source(nodes, tail, src),
        lang,
    ) || any_pinned(nodes, params, src, lang) {
        Seq::empty()
    } else {
        leading_shifts(nodes, params, m, n).push(
            (
                nodes[tail].start_byte,
                ParamShift { insert_at: nodes[params[n - 1].node].end_byte, after_paren: true },
            ),
        )
    }
}

/// The moves of function `f`.
pub open spec fn function_shifts(nodes: Seq<NodeText>, f: int, src: Seq<char>, lang: Language) -> Seq<
    (usize, ParamShift),
> {
    match signature_of(nodes, f) {
        Some((decl, list)) => match (
            displaced_comment(nodes, f, decl, src),
            params_of(nodes, children(nodes, list), src),
        ) {
            (Some(tail), Some(params)) => drift_shifts(nodes, params, tail, src, lang),
            _ => Seq::empty(),
        },
        None => Seq::empty(),
    }
}

/// `map` with the first `n` moves entered.
pub open spec fn with_shifts(
    map: Map<usize, ParamShift>,
    shifts: Seq<(usize, ParamShift)>,
    n: int,
) -> Map<usize, ParamShift>
    decreases n,
{
    if n <= 0 {
        map
    } else {
        with_shifts(map, shifts, n - 1).insert(shifts[n - 1].0, shifts[n - 1].1)
    }
}

/// The moves of the functions among the first `n` nodes, by the start of the
/// comment.
pub open spec fn shifts_upto(nodes: Seq<NodeText>, n: int, src: Seq<char>, lang: Language) -> Map<
    usize,
    ParamShift,
>
    decreases n,
{
    if n <= 0 {
        Map::empty()
    } else {
        let map = shifts_upto(nodes, n - 1, src, lang);
        if nodes[n - 1].kind == "function_definition"@ {
            let shifts = function_shifts(nodes, n - 1, src, lang);
            with_shifts(map, shifts, shifts.len() as int)
        } else {
            map
        }
    }
}

/// The moves of all parameter comments that drifted.
pub open spec fn param_shifts(nodes: Seq<NodeText>, src: Seq<char>, lang: Language) -> Map<
    usize,
    ParamShift,
> {
    if lang.is_c_like() {
        shifts_upto(nodes, nodes.len() as int, src, lang)
    } else {
        Map::empty()
    }
}

/// Some node ends at `at`.
pub open spec fn node_ends_at(nodes: Seq<NodeText>, at: usize) -> bool {
    exists|p: int| 0 <= p < nodes.len() && (#[trigger] nodes[p]).end_byte == at
}

/// Every move of `shifts` goes to the end of a node.
pub open spec fn ends_at_nodes(shifts: Seq<(usize, ParamShift)>, nodes: Seq<NodeText>) -> bool {
    forall|k: int| 0 <= k < shifts.len() ==> node_ends_at(nodes, (#[trigger] shifts[k]).1.insert_at)
}

pub open spec fn params_in(params: Seq<Param>, nodes: Seq<NodeText>) -> bool {
    forall|i: int| 0 <= i < params.len() ==> 0 <= (#[trigger] params[i]).node < nodes.len()
}

proof fn lemma_children_in(nodes: Seq<NodeText>, i: int, k: int)
    requires
        0 <= k,
    ensures
        in_nodes(children_from(nodes, i, k), nodes),
    decreases nodes.len() - k,
{
    if k < nodes.len() && nodes[k].depth > nodes[i].depth {
        lemma_children_in(nodes, i, k + 1);
        let rest = children_from(nodes, i, k + 1);
        let all = children_from(nodes, i, k);
        assert forall|j: int| 0 <= j < all.len() implies 0 <= #[trigger] all[j] < nodes.len() by {
            if nodes[k].depth == nodes[i].depth + 1 {
                if j > 0 {
                    assert(all[j] == rest[j - 1]);
                }
            } else {
                assert(all[j] == rest[j]);
            }
        }
    }
}

proof fn lemma_params_in(nodes: Seq<NodeText>, kids: Seq<int>, j: int, src: Seq<char>)
    requires
        in_nodes(kids, nodes),
    ensures
        params_from(nodes, kids, j, src) is Some ==> params_in(
            params_from(nodes, kids, j, src)->0,
            nodes,
        ),
    decreases kids.len() - j,
{
    if kid_is(nodes, kids, j, ","@) {
        let e = comments_end(nodes, kids, j + 1);
        if j < e && kid_is(nodes, kids, e, "parameter_declaration"@) {
            lemma_params_in(nodes, kids, e + 1, src);
            assert(0 <= kids[e] < nodes.len());
        }
    }
}

proof fn lemma_leading_ends(nodes: Seq<NodeText>, params: Seq<Param>, m: int, n: int)
    requires
        0 < m,
        n <= params.len(),
        params_in(params, nodes),
    ensures
        ends_at_nodes(leading_shifts(nodes, params, m, n), nodes),
    decreases n - m,
{
    if n > m {
        lemma_leading_ends(nodes, params, m, n - 1);
        assert(0 <= params[n - 2].node < nodes.len());
        let at = nodes[params[n - 2].node].end_byte;
        assert(node_ends_at(nodes, at));
        let before = leading_shifts(nodes, params, m, n - 1);
        let all = leading_shifts(nodes, params, m, n);
        assert forall|k: int| 0 <= k < all.len() implies node_ends_at(
            nodes,
            (#[trigger] all[k]).1.insert_at,
        ) by {
            if k < before.len() {
                assert(all[k] == before[k]);
            }
        }
    }
}

proof fn lemma_function_ends(nodes: Seq<NodeText>, f: int, src: Seq<char>, lang: Language)
    requires
        0 <= f < nodes.len(),
    ensures
        ends_at_nodes(function_shifts(nodes, f, src, lang), nodes),
{
    match signature_of(nodes, f) {
        Some((decl, list)) => {
            let kids = children(nodes, list);
            lemma_children_in(nodes, f, f + 1);
            lemma_field_in(nodes, children(nodes, f), 0, "declarator"@);
            lemma_children_in(nodes, decl, decl + 1);
            lemma_field_in(nodes, children(nodes, decl), 0, "parameters"@);
            lemma_children_in(nodes, list, list + 1);
            lemma_params_in(nodes, kids, 2, src);
            match params_of(nodes, kids, src) {
                Some(params) => {
                    assert(0 <= kids[1] < nodes.len());
                    assert(params_in(params, nodes)) by {
                        let rest = params_from(nodes, kids, 2, src)->0;
                        assert forall|i: int| 0 <= i < params.len() implies 0 <= (
                        #[trigger] params[i]).node < nodes.len() by {
                            if i > 0 {
                                assert(params[i] == rest[i - 1]);
                            }
                        }
                    }
                    let n = params.len() as int;
                    let m = first_group(params, 0);
                    lemma_first_group(params, 0);
                    if 0 < m < n {
                        lemma_leading_ends(nodes, params, m, n);
                        assert(0 <= params[n - 1].node < nodes.len());
                        assert(node_ends_at(nodes, nodes[params[n - 1].node].end_byte));
                    }
                },
                None => {},
            }
        },
        None => {},
    }
}

proof fn lemma_first_group(params: Seq<Param>, i: int)
    requires
        0 <= i <= params.len(),
    ensures
        i <= first_group(params, i) <= params.len(),
    decreases params.len() - i,
{
    if i < params.len() && params[i].group.len() == 0 {
        lemma_first_group(params, i + 1);
    }
}

proof fn lemma_field_in(nodes: Seq<NodeText>, kids: Seq<int>, j: int, name: Seq<char>)
    requires
        0 <= j,
        in_nodes(kids, nodes),
    ensures
        field_from(nodes, kids, j, name) is Some ==> 0 <= field_from(nodes, kids, j, name)->0
            < nodes.len(),
    decreases kids.len() - j,
{
    if j < kids.len() {
        assert(0 <= kids[j] < nodes.len());
        lemma_field_in(nodes, kids, j + 1, name);
    }
}

proof fn lemma_with_shifts_ends(
    map: Map<usize, ParamShift>,
    shifts: Seq<(usize, ParamShift)>,
    n: int,
    nodes: Seq<NodeText>,
)
    requires
        0 <= n <= shifts.len(),
        ends_at_nodes(shifts, nodes),
        forall|k: usize| map.dom().contains(k) ==> node_ends_at(nodes, (#[trigger] map[k]).insert_at),
    ensures
        forall|k: usize|
            with_shifts(map, shifts, n).dom().contains(k) ==> node_ends_at(
                nodes,
                (#[trigger] with_shifts(map, shifts, n)[k]).insert_at,
            ),
    decreases n,
{
    if n > 0 {
        lemma_with_shifts_ends(map, shifts, n - 1, nodes);
        assert(node_ends_at(nodes, shifts[n - 1].1.insert_at));
        let before = with_shifts(map, shifts, n - 1);
        let all = with_shifts(map, shifts, n);
        assert forall|k: usize| all.dom().contains(k) implies node_ends_at(
            nodes,
            (#[trigger] all[k]).insert_at,
        ) by {
            if k != shifts[n - 1].0 {
                assert(all[k] == before[k]);
            }
        }
    }
}

/// Every comment that moves goes to the end of a node.
pub proof fn lemma_shifts_end_at_nodes(nodes: Seq<NodeText>, n: int, src: Seq<char>, lang: Language)
    requires
        0 <= n <= nodes.len(),
    ensures
        forall|k: usize|
            shifts_upto(nodes, n, src, lang).dom().contains(k) ==> node_ends_at(
                nodes,
                (#[trigger] shifts_upto(nodes, n, src, lang)[k]).insert_at,
            ),
    decreases n,
{
    if n > 0 {
        lemma_shifts_end_at_nodes(nodes, n - 1, src, lang);
        let map = shifts_upto(nodes, n - 1, src, lang);
        let shifts = function_shifts(nodes, n - 1, src, lang);
        lemma_function_ends(nodes, n - 1, src, lang);
        lemma_with_shifts_ends(map, shifts, shifts.len() as int, nodes);
    }
}

fn find_displaced(nodes: &Vec<SyntaxNode>, f: usize, decl: usize, source: &str) -> (r: Option<usize>)
    requires
        f < nodes.len(),
        decl < nodes.len(),
        nodes_placed(node_texts(nodes@), source@),
    ensures
        (match r {
            Some(t) => t < nodes.len() && displaced_comment(
                node_texts(nodes@),
                f as int,
                decl as int,
                source@,
            ) == Some(t as int),
            None => displaced_comment(node_texts(nodes@), f as int, decl as int, source@) is None,
        }),
{
    let ghost all = node_texts(nodes@);
    let body = child_by_field_name(nodes, f, "body");
    let ghost body_at = field_child(all, f as int, "body"@);
    let kids = children_of(nodes, f);
    let ghost ks = positions(kids@);
    let mut trailing: Vec<usize> = Vec::new();
    let mut j: usize = 0;
    let ghost want = trailing_from(all, ks, 0, decl as int, body_at);
    assert(positions(trailing@) + want =~= want);
    while j < kids.len()
        invariant
            j <= kids.len(),
            decl < nodes.len(),
            all == node_texts(nodes@),
            ks == positions(kids@),
            forall|t: int| 0 <= t < kids.len() ==> #[trigger] kids@[t] < nodes.len(),
            forall|t: int| 0 <= t < trailing.len() ==> #[trigger] trailing@[t] < nodes.len(),
            (match body {
                Some(b) => b < nodes.len() && body_at == Some(b as int),
                None => body_at is None,
            }),
            want == trailing_from(all, ks, 0, decl as int, body_at),
            positions(trailing@) + trailing_from(all, ks, j as int, decl as int, body_at) == want,
        decreases kids.len() - j,
    {
        assert(kids@[j as int] < nodes.len());
        let k: usize = kids[j];
        assert(ks[j as int] == k && all[k as int] == nodes@[k as int]@);
        assert(all[decl as int] == nodes@[decl as int]@);
        let before_body = match body {
            Some(b) => {
                assert(all[b as int] == nodes@[b as int]@);
                nodes[k].end_byte <= nodes[b].start_byte
            },
            None => true,
        };
        if same(nodes[k].kind, "comment") && nodes[k].start_byte >= nodes[decl].end_byte
            && before_body {
            let ghost before = positions(trailing@);
            trailing.push(k);
            assert(positions(trailing@) =~= before + seq![k as int]);
            assert(positions(trailing@) + trailing_from(all, ks, j + 1, decl as int, body_at)
                =~= before + trailing_from(all, ks, j as int, decl as int, body_at));
        }
        j = j + 1;
    }
    assert(positions(trailing@) =~= want);
    assert(trailing.len() == want.len());
    if trailing.len() != 1 {
        return None;
    }
    let t: usize = trailing[0];
    assert(want[0] == t);
    let text = text_of(nodes, t, source);
    if has_manpage_section_headers(text) || !starts_with(text, "/*") {
        return None;
    }
    Some(t)
}

fn group_has_directive(
    nodes: &Vec<SyntaxNode>,
    group: &Vec<usize>,
    source: &str,
    lang: Language,
) -> (r: bool)
    requires
        nodes_placed(node_texts(nodes@), source@),
        forall|t: int| 0 <= t < group.len() ==> #[trigger] group@[t] < nodes.len(),
    ensures
        r == group_pinned(node_texts(nodes@), positions(group@), source@, lang),
{
    let ghost all = node_texts(nodes@);
    let ghost g = positions(group@);
    let mut k: usize = 0;
    while k < group.len()
        invariant
            k <= group.len(),
            all == node_texts(nodes@),
            g == positions(group@),
            nodes_placed(all, source@),
            forall|t: int| 0 <= t < group.len() ==> #[trigger] group@[t] < nodes.len(),
            forall|t: int|
                0 <= t < k ==> !passthrough_directive(
                    node_source(all, #[trigger] g[t], source@),
                    lang,
                ),
        decreases group.len() - k,
    {
        assert(group@[k as int] < nodes.len());
        assert(g[k as int] == group@[k as int]);
        if is_passthrough_directive(text_of(nodes, group[k], source), lang) {
            return true;
        }
        k = k + 1;
    }
    false
}

fn any_directive(
    nodes: &Vec<SyntaxNode>,
    params: &Vec<ParamGroup>,
    source: &str,
    lang: Language,
) -> (r: bool)
    requires
        nodes_placed(node_texts(nodes@), source@),
        groups_in(params@, nodes.len() as int),
    ensures
        r == any_pinned(node_texts(nodes@), param_views(params@), source@, lang),
{
    let ghost all = node_texts(nodes@);
    let ghost ps = param_views(params@);
    let mut i: usize = 0;
    while i < params.len()
        invariant
            i <= params.len(),
            all == node_texts(nodes@),
            ps == param_views(params@),
            nodes_placed(all, source@),
            groups_in(params@, nodes.len() as int),
            forall|t: int|
                0 <= t < i ==> !group_pinned(all, (#[trigger] ps[t]).group, source@, lang),
        decreases params.len() - i,
    {
        assert(ps[i as int].group == positions(params@[i as int].group@));
        if group_has_directive(nodes, &params[i].group, source, lang) {
            return true;
        }
        i = i + 1;
    }
    false
}

/// The first commented parameter, when comments lead all parameters from there
/// on.
fn drift_start(params: &Vec<ParamGroup>) -> (r: Option<usize>)
    ensures
        ({
            let ps = param_views(params@);
            let m = first_group(ps, 0);
            match r {
                Some(k) => m == k && 0 < k < params.len() && groups_contiguous(ps, m),
                None => m >= ps.len() || m == 0 || !groups_contiguous(ps, m),
            }
        }),
{
    let ghost ps = param_views(params@);
    let mut m: usize = 0;
    while m < params.len() && params[m].group.len() == 0
        invariant
            m <= params.len(),
            ps == param_views(params@),
            first_group(ps, 0) == first_group(ps, m as int),
        decreases params.len() - m,
    {
        assert(ps[m as int].group.len() == params@[m as int].group.len());
        m = m + 1;
    }
    proof {
        if m < params.len() {
            assert(ps[m as int].group.len() == params@[m as int].group.len());
        }
    }
    if m == 0 || m >= params.len() {
        return None;
    }
    let mut i: usize = m;
    while i < params.len()
        invariant
            m <= i <= params.len(),
            ps == param_views(params@),
            first_group(ps, 0) == m,
            forall|t: int| m <= t < i ==> (#[trigger] ps[t]).group.len() > 0,
        decreases params.len() - i,
    {
        assert(ps[i as int].group.len() == params@[i as int].group.len());
        if params[i].group.len() == 0 {
            return None;
        }
        i = i + 1;
    }
    Some(m)
}

fn insert_group(
    map: &mut HashMap<usize, ParamShift>,
    nodes: &Vec<SyntaxNode>,
    group: &Vec<usize>,
    at: usize,
)
    requires
        forall|t: int| 0 <= t < group.len() ==> #[trigger] group@[t] < nodes.len(),
    ensures
        ({
            let shifts = group_shifts(node_texts(nodes@), positions(group@), at);
            final(map)@ == with_shifts(old(map)@, shifts, shifts.len() as int)
        }),
{
    let ghost all = node_texts(nodes@);
    let ghost given = map@;
    let ghost shifts = group_shifts(all, positions(group@), at);
    let mut k: usize = 0;
    while k < group.len()
        invariant
            k <= group.len() == shifts.len(),
            all == node_texts(nodes@),
            shifts == group_shifts(all, positions(group@), at),
            forall|t: int| 0 <= t < group.len() ==> #[trigger] group@[t] < nodes.len(),
            map@ == with_shifts(given, shifts, k as int),
        decreases group.len() - k,
    {
        assert(group@[k as int] < nodes.len());
        let c: usize = group[k];
        assert(all[c as int] == nodes@[c as int]@);
        assert(shifts[k as int] == (
            nodes@[c as int].start_byte,
            ParamShift { insert_at: at, after_paren: false },
        ));
        let _ = map.insert(
            nodes[c].start_byte,
            ParamShift { insert_at: at, after_paren: false },
        );
        k = k + 1;
    }
}

proof fn lemma_with_shifts_concat(
    map: Map<usize, ParamShift>,
    a: Seq<(usize, ParamShift)>,
    b: Seq<(usize, ParamShift)>,
    n: int,
)
    requires
        0 <= n <= b.len(),
    ensures
        with_shifts(map, a + b, a.len() + n) == with_shifts(
            with_shifts(map, a, a.len() as int),
            b,
            n,
        ),
    decreases n,
{
    if n > 0 {
        lemma_with_shifts_concat(map, a, b, n - 1);
        assert((a + b)[a.len() + n - 1] == b[n - 1]);
    } else {
        lemma_with_shifts_prefix(map, a, b, a.len() as int);
    }
}

proof fn lemma_with_shifts_prefix(
    map: Map<usize, ParamShift>,
    a: Seq<(usize, ParamShift)>,
    b: Seq<(usize, ParamShift)>,
    n: int,
)
    requires
        0 <= n <= a.len(),
    ensures
        with_shifts(map, a + b, n) == with_shifts(map, a, n),
    decreases n,
{
    if n > 0 {
        lemma_with_shifts_prefix(map, a, b, n - 1);
        assert((a + b)[n - 1] == a[n - 1]);
    }
}

fn insert_drift(
    map: &mut HashMap<usize, ParamShift>,
    nodes: &Vec<SyntaxNode>,
    params: &Vec<ParamGroup>,
    m: usize,
    tail: usize,
)
    requires
        0 < m < params.len(),
        tail < nodes.len(),
        groups_in(params@, nodes.len() as int),
    ensures
        ({
            let all = node_texts(nodes@);
            let ps = param_views(params@);
            let n = ps.len() as int;
            let shifts = leading_shifts(all, ps, m as int, n).push(
                (
                    all[tail as int].start_byte,
                    ParamShift { insert_at: all[ps[n - 1].node].end_byte, after_paren: true },
                ),
            );
            final(map)@ == with_shifts(old(map)@, shifts, shifts.len() as int)
        }),
{
    let ghost all = node_texts(nodes@);
    let ghost ps = param_views(params@);
    let ghost given = map@;
    let n: usize = params.len();
    let mut i: usize = m;
    while i < n
        invariant
            0 < m <= i <= n == params.len(),
            all == node_texts(nodes@),
            ps == param_views(params@),
            groups_in(params@, nodes.len() as int),
            map@ == with_shifts(
                given,
                leading_shifts(all, ps, m as int, i as int),
                leading_shifts(all, ps, m as int, i as int).len() as int,
            ),
        decreases n - i,
    {
        assert(params@[i - 1].node < nodes.len());
        let target: usize = nodes[params[i - 1].node].end_byte;
        let ghost before = leading_shifts(all, ps, m as int, i as int);
        let ghost more = group_shifts(all, ps[i as int].group, target);
        proof {
            assert(ps[i - 1].node == params@[i - 1].node);
            assert(all[ps[i - 1].node] == nodes@[params@[i - 1].node as int]@);
            assert(ps[i as int].group == positions(params@[i as int].group@));
            assert(params@[i as int].node < nodes.len());
            lemma_with_shifts_concat(given, before, more, more.len() as int);
        }
        insert_group(map, nodes, &params[i].group, target);
        i = i + 1;
    }
    let ghost leading = leading_shifts(all, ps, m as int, n as int);
    assert(params@[n - 1].node < nodes.len());
    let last_end: usize = nodes[params[n - 1].node].end_byte;
    let shift = ParamShift { insert_at: last_end, after_paren: true };
    let _ = map.insert(nodes[tail].start_byte, shift);
    proof {
        assert(ps[n - 1].node == params@[n - 1].node);
        assert(all[ps[n - 1].node] == nodes@[params@[n - 1].node as int]@);
        assert(all[tail as int] == nodes@[tail as int]@);
        let one = seq![(all[tail as int].start_byte, shift)];
        assert(leading.push((all[tail as int].start_byte, shift)) =~= leading + one);
        lemma_with_shifts_prefix(given, leading, one, leading.len() as int);
    }
}

/// Enters the moves of function `func` into `map`.
fn detect_param_drift(
    nodes: &Vec<SyntaxNode>,
    func: usize,
    source: &str,
    lang: Language,
    map: &mut HashMap<usize, ParamShift>,
)
    requires
        func < nodes.len(),
        nodes_placed(node_texts(nodes@), source@),
    ensures
        ({
            let shifts = function_shifts(node_texts(nodes@), func as int, source@, lang);
            final(map)@ == with_shifts(old(map)@, shifts, shifts.len() as int)
        }),
{
    let ghost all = node_texts(nodes@);
    let decl = match child_by_field_name(nodes, func, "declarator") {
        Some(d) => d,
        None => {
            return;
        },
    };
    assert(all[decl as int] == nodes@[decl as int]@);
    if !same(nodes[decl].kind, "function_declarator") {
        return;
    }
    let list = match child_by_field_name(nodes, decl, "parameters") {
        Some(l) => l,
        None => {
            return;
        },
    };
    assert(all[list as int] == nodes@[list as int]@);
    if !same(nodes[list].kind, "parameter_list") {
        return;
    }
    let tail = match find_displaced(nodes, func, decl, source) {
        Some(t) => t,
        None => {
            return;
        },
    };
    let kids = children_of(nodes, list);
    let params = match read_params(nodes, &kids, source) {
        Some(p) => p,
        None => {
            return;
        },
    };
    assert(param_views(params@).len() == params.len());
    let m = match drift_start(&params) {
        Some(m) => m,
        None => {
            return;
        },
    };
    if is_passthrough_directive(text_of(nodes, tail, source), lang) || any_directive(
        nodes,
        &params,
        source,
        lang,
    ) {
        return;
    }
    insert_drift(map, nodes, &params, m, tail);
}

/// The moves of the parameter comments that drifted, by the start of each
/// comment. A signature has drifted when every parameter from some later one on
/// is led by comments and exactly one comment follows the closing parenthesis.
pub fn collect_param_shifts(nodes: &Vec<SyntaxNode>, source: &str, lang: Language) -> (r: HashMap<
    usize,
    ParamShift,
>)
    requires
        nodes_placed(node_texts(nodes@), source@),
    ensures
        r@ == param_shifts(node_texts(nodes@), source@, lang),
{
    let ghost all = node_texts(nodes@);
    let mut map: HashMap<usize, ParamShift> = HashMap::new();
    assert(map@ =~= Map::empty());
    if !lang.c_like() {
        return map;
    }
    let mut i: usize = 0;
    while i < nodes.len()
        invariant
            i <= nodes.len(),
            all == node_texts(nodes@),
            nodes_placed(all, source@),
            map@ == shifts_upto(all, i as int, source@, lang),
        decreases nodes.len() - i,
    {
        assert(all[i as int] == nodes@[i as int]@);
        if same(nodes[i].kind, "function_definition") {
            detect_param_drift(nodes, i, source, lang, &mut map);
        }
        i = i + 1;
    }
    map
}

/// Where a comment between the signature and the body of function `parent`
/// moves: the start of the line that the function starts on.
pub open spec fn relocate_target(
    nodes: Seq<NodeText>,
    i: int,
    parent: Option<int>,
    src: Seq<char>,
    lang: Language,
) -> Option<usize> {
    match parent {
        Some(p) => {
            let decl = field_child(nodes, p, "declarator"@);
            let body = field_child(nodes, p, "body"@);
            if lang.is_c_like() && nodes[p].kind == "function_definition"@ && decl is Some && body
                is Some && nodes[i].start_byte >= nodes[decl->0].end_byte && nodes[i].end_byte
                <= nodes[body->0].start_byte {
                Some(line_start(encode_utf8(src), nodes[p].start_byte as int) as usize)
            } else {
                None
            }
        },
        None => None,
    }
}

pub fn manpage_relocate_target(
    nodes: &Vec<SyntaxNode>,
    i: usize,
    parent: Option<usize>,
    source: &str,
    lang: Language,
) -> (r: Option<usize>)
    requires
        i < nodes.len(),
        nodes_placed(node_texts(nodes@), source@),
        parent is Some ==> parent->0 < nodes.len(),
    ensures
        r == relocate_target(
            node_texts(nodes@),
            i as int,
            match parent {
                Some(p) => Some(p as int),
                None => None,
            },
            source@,
            lang,
        ),
{
    let ghost all = node_texts(nodes@);
    if !lang.c_like() {
        return None;
    }
    match parent {
        None => None,
        Some(p) => {
            assert(all[p as int] == nodes@[p as int]@ && all[i as int] == nodes@[i as int]@);
            if !same(nodes[p].kind, "function_definition") {
                return None;
            }
            match (
                child_by_field_name(nodes, p, "declarator"),
                child_by_field_name(nodes, p, "body"),
            ) {
                (Some(decl), Some(body)) => {
                    assert(all[decl as int] == nodes@[decl as int]@);
                    assert(all[body as int] == nodes@[body as int]@);
                    if nodes[i].start_byte >= nodes[decl].end_byte && nodes[i].end_byte
                        <= nodes[body].start_byte {
                        Some(line_start_before(source, nodes[p].start_byte))
                    } else {
                        None
                    }
                },
                _ => None,
            }
        },
    }
}

} // verus!
