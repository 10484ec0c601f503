//! Comments of parameters that stand one parameter too late, and manual pages in signatures.

use crate::comment::ParamShift;
use crate::comment_laws::on_line_from;
use crate::directive::passthrough_directive;
use crate::language::Language;
use crate::marker_laws::{lemma_markers, opens_with};
use crate::signature::{
    all_blocks, any_pinned, children, comments_end, displaced_comment, drift_shifts, field_child,
    first_group, function_shifts, group_pinned, group_shifts, groups_contiguous, has_heading,
    leading_shifts, manpage_headers, node_source, params_from, params_of, piece_heading,
    relocate_target, trailing_from, Param,
};
use crate::syntax::NodeText;
use crate::text::{
    after_lead, has_prefix, in_class, lemma_lead_len, lemma_trail_len, split_on_three, words_of,
    CharClass,
};
use vstd::prelude::*;
use vstd::utf8::encode_utf8;

verus! {

/// The comment that node `k` is goes to the end of node `p`.
pub open spec fn goes_to(
    shifts: Seq<(usize, ParamShift)>,
    nodes: Seq<NodeText>,
    k: int,
    p: int,
    behind: bool,
) -> bool {
    exists|q: int|
        0 <= q < shifts.len() && #[trigger] shifts[q] == (
            nodes[k].start_byte,
            ParamShift { insert_at: nodes[p].end_byte, after_paren: behind },
        )
}

/// Comments lead the parameters from `m` on and none before, and no tool reads any of them.
pub open spec fn comments_drifted(
    nodes: Seq<NodeText>,
    params: Seq<Param>,
    m: int,
    tail: int,
    src: Seq<char>,
    lang: Language,
) -> bool {
    &&& 0 < m < params.len()
    &&& forall|i: int| 0 <= i < m ==> (#[trigger] params[i]).group.len() == 0
    &&& forall|i: int| m <= i < params.len() ==> (#[trigger] params[i]).group.len() > 0
    &&& forall|i: int, k: int|
        0 <= i < params.len() && 0 <= k < params[i].group.len() ==> !passthrough_directive(
            node_source(nodes, #[trigger] params[i].group[k], src),
            lang,
        )
    &&& !passthrough_directive(node_source(nodes, tail, src), lang)
}

proof fn lemma_first_group(params: Seq<Param>, i: int, m: int)
    requires
        0 <= i <= m < params.len(),
        forall|k: int| 0 <= k < m ==> (#[trigger] params[k]).group.len() == 0,
        params[m].group.len() > 0,
    ensures
        first_group(params, i) == m,
    decreases m - i,
{
    if i < m {
        assert(params[i].group.len() == 0);
        lemma_first_group(params, i + 1, m);
    }
}

proof fn lemma_leading(nodes: Seq<NodeText>, params: Seq<Param>, m: int, n: int, i: int, k: int) -> (q:
    int)
    requires
        0 < m <= i < n <= params.len(),
        0 <= k < params[i].group.len(),
    ensures
        0 <= q < leading_shifts(nodes, params, m, n).len(),
        leading_shifts(nodes, params, m, n)[q] == (
            nodes[params[i].group[k]].start_byte,
            ParamShift { insert_at: nodes[params[i - 1].node].end_byte, after_paren: false },
        ),
    decreases n,
{
    let head = leading_shifts(nodes, params, m, n - 1);
    let own = group_shifts(nodes, params[n - 1].group, nodes[params[n - 2].node].end_byte);
    let all = leading_shifts(nodes, params, m, n);
    assert(all == head + own);
    if i == n - 1 {
        assert(all[head.len() + k] == own[k]);
        head.len() + k
    } else {
        let q = lemma_leading(nodes, params, m, n - 1, i, k);
        assert(all[q] == head[q]);
        q
    }
}

/// Where the comments of the last parameters each stand one parameter too late, every one of
/// them goes behind the parameter in front of it, and the one behind the parenthesis goes behind
/// the last parameter.
pub proof fn law_drifted_comments_go_back(
    nodes: Seq<NodeText>,
    params: Seq<Param>,
    m: int,
    tail: int,
    src: Seq<char>,
    lang: Language,
    i: int,
    k: int,
)
    requires
        comments_drifted(nodes, params, m, tail, src, lang),
        m <= i < params.len(),
        0 <= k < params[i].group.len(),
    ensures
        ({
            let shifts = drift_shifts(nodes, params, tail, src, lang);
            &&& goes_to(shifts, nodes, params[i].group[k], params[i - 1].node, false)
            &&& goes_to(shifts, nodes, tail, params.last().node, true)
        }),
{
    let n = params.len() as int;
    let shifts = drift_shifts(nodes, params, tail, src, lang);
    assert(params[m].group.len() > 0);
    lemma_first_group(params, 0, m);
    assert(groups_contiguous(params, m));
    assert(!any_pinned(nodes, params, src, lang)) by {
        if any_pinned(nodes, params, src, lang) {
            let a = choose|a: int|
                0 <= a < params.len() && group_pinned(
                    nodes,
                    (#[trigger] params[a]).group,
                    src,
                    lang,
                );
            let g = params[a].group;
            let b = choose|b: int|
                0 <= b < g.len() && passthrough_directive(
                    node_source(nodes, #[trigger] g[b], src),
                    lang,
                );
            assert(!passthrough_directive(node_source(nodes, params[a].group[b], src), lang));
        }
    }
    let lead = leading_shifts(nodes, params, m, n);
    let q = lemma_leading(nodes, params, m, n, i, k);
    assert(shifts[q] == lead[q]);
    assert(shifts[lead.len() as int].0 == nodes[tail].start_byte);
    assert(shifts[lead.len() as int] == (
        nodes[tail].start_byte,
        ParamShift { insert_at: nodes[params.last().node].end_byte, after_paren: true },
    ));
}

/// Where a comment leads the first parameter, a parameter in between has none, or a tool reads
/// one of the comments, nothing goes anywhere.
pub proof fn law_other_comments_do_not_drift(
    nodes: Seq<NodeText>,
    params: Seq<Param>,
    tail: int,
    src: Seq<char>,
    lang: Language,
    i: int,
    j: int,
)
    requires
        ({
            ||| params.len() > 0 && params[0].group.len() > 0
            ||| 0 <= i < j < params.len() && params[i].group.len() > 0 && params[j].group.len() == 0
            ||| 0 <= i < params.len() && 0 <= j < params[i].group.len() && passthrough_directive(
                node_source(nodes, params[i].group[j], src),
                lang,
            )
            ||| passthrough_directive(node_source(nodes, tail, src), lang)
            ||| forall|k: int| 0 <= k < params.len() ==> (#[trigger] params[k]).group.len() == 0
        }),
    ensures
        drift_shifts(nodes, params, tail, src, lang).len() == 0,
{
    let n = params.len() as int;
    let m = first_group(params, 0);
    if params.len() > 0 && params[0].group.len() > 0 {
    } else if 0 <= i < j < params.len() && params[i].group.len() > 0 && params[j].group.len() == 0 {
        lemma_first_at_most(params, 0, i);
        assert(!groups_contiguous(params, m)) by {
            assert(params[j].group.len() == 0);
        }
    } else if 0 <= i < params.len() && 0 <= j < params[i].group.len() && passthrough_directive(
        node_source(nodes, params[i].group[j], src),
        lang,
    ) {
        assert(group_pinned(nodes, params[i].group, src, lang));
        assert(any_pinned(nodes, params, src, lang));
    } else if !passthrough_directive(node_source(nodes, tail, src), lang) {
        lemma_no_group(params, 0);
    }
}

proof fn lemma_first_at_most(params: Seq<Param>, a: int, i: int)
    requires
        0 <= a <= i < params.len(),
        params[i].group.len() > 0,
    ensures
        a <= first_group(params, a) <= i,
    decreases i - a,
{
    if params[a].group.len() == 0 {
        lemma_first_at_most(params, a + 1, i);
    }
}

proof fn lemma_no_group(params: Seq<Param>, a: int)
    requires
        0 <= a <= params.len(),
        forall|k: int| 0 <= k < params.len() ==> (#[trigger] params[k]).group.len() == 0,
    ensures
        first_group(params, a) >= params.len(),
    decreases params.len() - a,
{
    if a < params.len() {
        assert(params[a].group.len() == 0);
        lemma_no_group(params, a + 1);
    }
}

/// A heading and any number of colons.
pub open spec fn opens_section(piece: Seq<char>, name: Seq<char>, n: nat) -> bool {
    words_of(piece).len() > 0 && words_of(piece)[0] == name + Seq::new(n, |k: int| ':')
}

proof fn lemma_section(piece: Seq<char>, name: Seq<char>, n: nat)
    requires
        opens_section(piece, name, n),
        piece.len() > 0 && piece[0] != '/',
        name.len() > 0 && name.last() != ':',
    ensures
        piece_heading(piece) == name,
{
    lemma_lead_len(piece, CharClass::One('/'), 0);
    assert(after_lead(piece, CharClass::One('/')) =~= piece);
    let w = words_of(piece)[0];
    let colons = Seq::new(n, |k: int| ':');
    assert forall|k: int| w.len() - n <= k < w.len() implies in_class(
        #[trigger] w[k],
        CharClass::One(':'),
    ) by {
        assert(w[k] == colons[k - name.len()]);
    }
    assert(w[w.len() - n - 1] == name.last());
    lemma_trail_len(w, CharClass::One(':'), n as int);
    assert(w.take(w.len() - n) =~= name);
}

/// A comment is taken for a manual page when one of its lines opens the description and another
/// what is returned.
pub proof fn law_pages_have_their_sections(text: Seq<char>, i: int, a: nat, j: int, b: nat, name: Seq<char>)
    requires
        ({
            let pieces = split_on_three(text, '\n', '\r', '*');
            &&& 0 <= i < pieces.len() && 0 <= j < pieces.len()
            &&& pieces[i].len() > 0 && pieces[i][0] != '/'
            &&& pieces[j].len() > 0 && pieces[j][0] != '/'
            &&& name == "RETURN"@ || name == "RETURNS"@
            &&& opens_section(pieces[i], "DESCRIPTION"@, a)
            &&& opens_section(pieces[j], name, b)
        }),
    ensures
        manpage_headers(text),
{
    let pieces = split_on_three(text, '\n', '\r', '*');
    reveal_strlit("DESCRIPTION");
    reveal_strlit("RETURN");
    reveal_strlit("RETURNS");
    lemma_section(pieces[i], "DESCRIPTION"@, a);
    lemma_section(pieces[j], name, b);
    assert(has_heading(pieces, "DESCRIPTION"@));
    assert(has_heading(pieces, name));
}

/// A comment between the signature of a function and its body goes in front of the line that the
/// function starts on, in C and C++.
pub proof fn law_pages_go_ahead_of_the_function(
    nodes: Seq<NodeText>,
    i: int,
    f: int,
    decl: int,
    body: int,
    at: int,
    src: Seq<char>,
    lang: Language,
)
    requires
        nodes[f].kind == "function_definition"@,
        field_child(nodes, f, "declarator"@) == Some(decl),
        field_child(nodes, f, "body"@) == Some(body),
        on_line_from(encode_utf8(src), at, nodes[f].start_byte as int),
    ensures
        relocate_target(nodes, i, Some(f), src, lang) == if (lang == Language::C || lang
            == Language::Cpp) && nodes[decl].end_byte <= nodes[i].start_byte && nodes[i].end_byte
            <= nodes[body].start_byte {
            Some(at as usize)
        } else {
            None
        },
        relocate_target(nodes, i, None, src, lang) is None,
{
    crate::comment_laws::lemma_line_from(encode_utf8(src), at, nodes[f].start_byte as int);
}

/// Only in a function does a comment go ahead.
pub proof fn law_other_comments_stay_in_place(
    nodes: Seq<NodeText>,
    i: int,
    f: int,
    src: Seq<char>,
    lang: Language,
)
    requires
        nodes[f].kind != "function_definition"@,
    ensures
        relocate_target(nodes, i, Some(f), src, lang) is None,
{
}

/// Kids `a` to before `b` are comments, and kid `b` is none.
proof fn lemma_comments_end(nodes: Seq<NodeText>, kids: Seq<int>, a: int, b: int)
    requires
        0 <= a <= b < kids.len(),
        forall|j: int| a <= j < b ==> nodes[#[trigger] kids[j]].kind == "comment"@,
        nodes[kids[b]].kind != "comment"@,
    ensures
        comments_end(nodes, kids, a) == b,
    decreases b - a,
{
    if a < b {
        assert(nodes[kids[a]].kind == "comment"@);
        lemma_comments_end(nodes, kids, a + 1, b);
    }
}

/// A list of two parameters with blocks in front of the second: the parameters are found, and the
/// blocks with the second.
pub proof fn law_blocks_lead_the_parameter_behind_them(
    nodes: Seq<NodeText>,
    kids: Seq<int>,
    g: int,
    src: Seq<char>,
)
    requires
        g >= 0,
        kids.len() == g + 5,
        nodes[kids[0]].kind == "("@,
        nodes[kids[1]].kind == "parameter_declaration"@,
        nodes[kids[2]].kind == ","@,
        forall|j: int|
            3 <= j < 3 + g ==> nodes[#[trigger] kids[j]].kind == "comment"@ && opens_with(
                node_source(nodes, kids[j], src),
                '/',
                '*',
            ),
        nodes[kids[3 + g]].kind == "parameter_declaration"@,
        nodes[kids[4 + g]].kind == ")"@,
    ensures
        ({
            let p = params_of(nodes, kids, src);
            &&& p is Some
            &&& (p->0).len() == 2
            &&& (p->0)[0].node == kids[1] && (p->0)[0].group.len() == 0
            &&& (p->0)[1].node == kids[3 + g] && (p->0)[1].group == kids.subrange(3, 3 + g)
        }),
{
    reveal_strlit(")");
    reveal_strlit(",");
    reveal_strlit("comment");
    reveal_strlit("parameter_declaration");
    assert(")"@[0] == ')' && ","@[0] == ',' && "comment"@.len() == 7 && "parameter_declaration"@.len()
        == 21);
    lemma_comments_end(nodes, kids, 3, 3 + g);
    assert forall|j: int| 3 <= j < 3 + g implies has_prefix(
        node_source(nodes, #[trigger] kids[j], src),
        "/*"@,
    ) by {
        lemma_markers(node_source(nodes, kids[j], src));
    }
    assert(params_from(nodes, kids, 4 + g, src) == Some(Seq::<Param>::empty()));
    let last = Param { node: kids[3 + g], group: kids.subrange(3, 3 + g) };
    assert(params_from(nodes, kids, 2, src) == Some(seq![last] + Seq::<Param>::empty()));
    assert(seq![last] + Seq::<Param>::empty() =~= seq![last]);
}

/// A line comment in a parameter list stops the search for drifted comments.
pub proof fn law_line_comments_stop_the_search(
    nodes: Seq<NodeText>,
    kids: Seq<int>,
    g: int,
    j: int,
    src: Seq<char>,
)
    requires
        0 < g && 3 + g < kids.len(),
        nodes[kids[2]].kind == ","@,
        forall|q: int| 3 <= q < 3 + g ==> nodes[#[trigger] kids[q]].kind == "comment"@,
        nodes[kids[3 + g]].kind != "comment"@,
        3 <= j < 3 + g,
        opens_with(node_source(nodes, kids[j], src), '/', '/'),
    ensures
        params_of(nodes, kids, src) is None,
{
    lemma_comments_end(nodes, kids, 3, 3 + g);
    lemma_markers(node_source(nodes, kids[j], src));
    assert(!all_blocks(nodes, kids, 3, 3 + g, src)) by {
        assert(!has_prefix(node_source(nodes, kids[j], src), "/*"@));
    }
    assert(params_from(nodes, kids, 2, src) is None);
}

/// The comment stands between the declarator and the body.
pub open spec fn stands_behind(nodes: Seq<NodeText>, k: int, decl: int, body: int) -> bool {
    &&& nodes[k].kind == "comment"@
    &&& nodes[decl].end_byte <= nodes[k].start_byte
    &&& nodes[k].end_byte <= nodes[body].start_byte
}

proof fn lemma_none_behind(nodes: Seq<NodeText>, kids: Seq<int>, j: int, decl: int, body: int)
    requires
        0 <= j <= kids.len(),
        forall|i: int| j <= i < kids.len() ==> !stands_behind(nodes, #[trigger] kids[i], decl, body),
    ensures
        trailing_from(nodes, kids, j, decl, Some(body)).len() == 0,
    decreases kids.len() - j,
{
    if j < kids.len() {
        assert(!stands_behind(nodes, kids[j], decl, body));
        lemma_none_behind(nodes, kids, j + 1, decl, body);
    }
}

proof fn lemma_one_behind(
    nodes: Seq<NodeText>,
    kids: Seq<int>,
    j: int,
    q: int,
    decl: int,
    body: int,
)
    requires
        0 <= j <= q < kids.len(),
        stands_behind(nodes, kids[q], decl, body),
        forall|i: int|
            j <= i < kids.len() && i != q ==> !stands_behind(nodes, #[trigger] kids[i], decl, body),
    ensures
        trailing_from(nodes, kids, j, decl, Some(body)) == seq![kids[q]],
    decreases q - j,
{
    if j < q {
        assert(!stands_behind(nodes, kids[j], decl, body));
        lemma_one_behind(nodes, kids, j + 1, q, decl, body);
    } else {
        lemma_none_behind(nodes, kids, q + 1, decl, body);
        assert(seq![kids[q]] + trailing_from(nodes, kids, q + 1, decl, Some(body)) =~= seq![
            kids[q],
        ]);
    }
}

proof fn lemma_two_behind(
    nodes: Seq<NodeText>,
    kids: Seq<int>,
    j: int,
    p: int,
    q: int,
    decl: int,
    body: int,
)
    requires
        0 <= j <= p < q < kids.len(),
        stands_behind(nodes, kids[p], decl, body),
        stands_behind(nodes, kids[q], decl, body),
    ensures
        trailing_from(nodes, kids, j, decl, Some(body)).len() >= 2,
    decreases p - j,
{
    if j < p {
        lemma_two_behind(nodes, kids, j + 1, p, q, decl, body);
    } else {
        lemma_some_behind(nodes, kids, p + 1, q, decl, body);
    }
}

proof fn lemma_some_behind(
    nodes: Seq<NodeText>,
    kids: Seq<int>,
    j: int,
    q: int,
    decl: int,
    body: int,
)
    requires
        0 <= j <= q < kids.len(),
        stands_behind(nodes, kids[q], decl, body),
    ensures
        trailing_from(nodes, kids, j, decl, Some(body)).len() >= 1,
    decreases q - j,
{
    if j < q {
        lemma_some_behind(nodes, kids, j + 1, q, decl, body);
    }
}

/// The comments of a signature are looked at where one block stands between the parenthesis and
/// the body and is no manual page. With two comments there, or with a line comment, none is.
pub proof fn law_one_block_behind_the_parenthesis(
    nodes: Seq<NodeText>,
    f: int,
    decl: int,
    body: int,
    p: int,
    q: int,
    src: Seq<char>,
)
    requires
        field_child(nodes, f, "body"@) == Some(body),
        ({
            let kids = children(nodes, f);
            &&& 0 <= q < kids.len()
            &&& stands_behind(nodes, kids[q], decl, body)
            &&& {
                ||| 0 <= p < q && stands_behind(nodes, kids[p], decl, body)
                ||| forall|i: int|
                    0 <= i < kids.len() && i != q ==> !stands_behind(
                        nodes,
                        #[trigger] kids[i],
                        decl,
                        body,
                    )
            }
        }),
    ensures
        ({
            let kids = children(nodes, f);
            let two = 0 <= p < q && stands_behind(nodes, kids[p], decl, body);
            let text = node_source(nodes, kids[q], src);
            displaced_comment(nodes, f, decl, src) == if !two && opens_with(text, '/', '*')
                && !manpage_headers(text) {
                Some(kids[q])
            } else {
                None
            }
        }),
{
    let kids = children(nodes, f);
    lemma_markers(node_source(nodes, kids[q], src));
    if 0 <= p < q && stands_behind(nodes, kids[p], decl, body) {
        lemma_two_behind(nodes, kids, 0, p, q, decl, body);
    } else {
        lemma_one_behind(nodes, kids, 0, q, decl, body);
    }
}

/// A function with a parameter list and such a block: what its comments do is decided by the
/// parameters that the list holds.
pub proof fn law_signatures_are_read(
    nodes: Seq<NodeText>,
    f: int,
    decl: int,
    list: int,
    tail: int,
    params: Seq<Param>,
    src: Seq<char>,
    lang: Language,
)
    requires
        field_child(nodes, f, "declarator"@) == Some(decl),
        nodes[decl].kind == "function_declarator"@,
        field_child(nodes, decl, "parameters"@) == Some(list),
        nodes[list].kind == "parameter_list"@,
        displaced_comment(nodes, f, decl, src) == Some(tail),
        params_of(nodes, children(nodes, list), src) == Some(params),
    ensures
        function_shifts(nodes, f, src, lang) == drift_shifts(nodes, params, tail, src, lang),
{
}

} // verus!
