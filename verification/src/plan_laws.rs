//! What holds of the plan for a source file, and of the source it makes.

use crate::assembly::{blocks_from, closer_from, pair_at, string_end, swallowed};
use crate::bytes::{
    at_boundary, lemma_encode_concat, lemma_source_ends, lemma_span_bytes, line_start, span,
    span_ok,
};
use crate::classify::{kind_of, style_of, Style};
use crate::comment::{acsl_split_allowed, CommentText};
use crate::directive::passthrough_directive;
use crate::language::{detected, path_extension, Language};
use crate::laws::{law_closer_split_keeps_text, solids};
use crate::merge::{merged_from, merged_run, merges, run_end};
use crate::normalize::{closer_split, DocText, LineKind, LineText};
use crate::planner::{
    alone_on_line, before_blanks, closer_indent, closer_splices, comment_splices, in_place_splices,
    is_blank, moved_span, moved_text, needs_blank, past_blanks, planned, planned_upto,
};
use crate::reflow::{crlf_lines, is_block, raw_line, reflowed, stars_collapsed};
use crate::rewrite::{
    applicable, blank_byte, code_byte, covered_code, fault, final_break, in_source_order, is_target,
    law_no_code_is_covered, resume_at, rewritten, rewritten_upto, splice_fault, Splice,
};
use crate::signature::{
    any_pinned, comments_end, drift_shifts, kid_is, node_source, params_from, params_of, Param,
};
use crate::syntax::NodeText;
use crate::text::{
    all_in, any_in, has_prefix, in_class, joined, lead_len, lemma_trail_len_facts, lowered,
    trail_len, trimmed, words_of, CharClass,
};
use crate::words::{all_words, is_word, lemma_words_are_words, lemma_words_joined};
use crate::wrap::wrapped_lines;
use vstd::prelude::*;
use vstd::utf8::{encode_utf8, encode_utf8_decode_utf8};

verus! {

/// The code bytes of the source from `a` to before `b`.
pub open spec fn code_between(src: Seq<char>, comments: Seq<CommentText>, a: int, b: int) -> Seq<u8>
    decreases b - a,
{
    if b <= a {
        Seq::empty()
    } else if code_byte(src, comments, b - 1) {
        code_between(src, comments, a, b - 1).push(encode_utf8(src)[b - 1])
    } else {
        code_between(src, comments, a, b - 1)
    }
}

/// The code bytes between the first `n` splices.
pub open spec fn kept_code(src: Seq<char>, comments: Seq<CommentText>, o: Seq<Splice>, n: int) -> Seq<
    u8,
>
    decreases n,
{
    if n <= 0 {
        Seq::empty()
    } else {
        kept_code(src, comments, o, n - 1) + code_between(
            src,
            comments,
            resume_at(o, n - 1),
            o[n - 1].start,
        )
    }
}

proof fn lemma_code_split(src: Seq<char>, comments: Seq<CommentText>, a: int, m: int, b: int)
    requires
        a <= m <= b,
    ensures
        code_between(src, comments, a, b) == code_between(src, comments, a, m) + code_between(
            src,
            comments,
            m,
            b,
        ),
    decreases b - m,
{
    if m < b {
        lemma_code_split(src, comments, a, m, b - 1);
    }
    assert(code_between(src, comments, a, b) =~= code_between(src, comments, a, m) + code_between(
        src,
        comments,
        m,
        b,
    ));
}

proof fn lemma_no_code(src: Seq<char>, comments: Seq<CommentText>, a: int, b: int)
    requires
        forall|i: int| a <= i < b ==> !#[trigger] code_byte(src, comments, i),
    ensures
        code_between(src, comments, a, b).len() == 0,
    decreases b - a,
{
    if a < b {
        lemma_no_code(src, comments, a, b - 1);
    }
}

proof fn lemma_kept_upto(
    v: Seq<Splice>,
    src: Seq<char>,
    comments: Seq<CommentText>,
    n: int,
)
    requires
        fault(v, src, comments) is None,
        0 <= n <= in_source_order(v).len(),
    ensures
        0 <= resume_at(in_source_order(v), n),
        code_between(src, comments, 0, resume_at(in_source_order(v), n)) == kept_code(
            src,
            comments,
            in_source_order(v),
            n,
        ),
    decreases n,
{
    let o = in_source_order(v);
    law_no_code_is_covered(v, src, comments);
    if n > 0 {
        lemma_kept_upto(v, src, comments, n - 1);
        let s = o[n - 1];
        let from = resume_at(o, n - 1);
        assert(span_ok(src, o[n - 1].start, o[n - 1].end));
        assert(from <= s.start) by {
            if n > 1 {
                assert(o[n - 1 - 1].end <= o[n - 1].start);
            }
        }
        lemma_code_split(src, comments, 0, from, s.start);
        lemma_code_split(src, comments, 0, s.start, s.end);
        assert forall|i: int| s.start <= i < s.end implies !#[trigger] code_byte(src, comments, i) by {
            assert(!covered_code(v, src, comments, n - 1, i));
        }
        lemma_no_code(src, comments, s.start, s.end);
        assert(code_between(src, comments, 0, s.end) =~= kept_code(src, comments, o, n));
    } else {
        assert(code_between(src, comments, 0, 0) =~= kept_code(src, comments, o, 0));
    }
}

/// Code bytes are never modified: the code of the source is the code between
/// the replacements, which is kept.
pub proof fn law_code_survives(v: Seq<Splice>, src: Seq<char>, comments: Seq<CommentText>)
    requires
        fault(v, src, comments) is None,
    ensures
        ({
            let o = in_source_order(v);
            let len = encode_utf8(src).len() as int;
            code_between(src, comments, 0, len) == kept_code(src, comments, o, o.len() as int)
                + code_between(src, comments, resume_at(o, o.len() as int), len)
        }),
{
    let o = in_source_order(v);
    let n = o.len() as int;
    let len = encode_utf8(src).len() as int;
    lemma_kept_upto(v, src, comments, n);
    law_no_code_is_covered(v, src, comments);
    if n > 0 {
        assert(span_ok(src, o[n - 1].start, o[n - 1].end));
    }
    lemma_code_split(src, comments, 0, resume_at(o, n), len);
}

/// The bytes of the rewritten source up to the end of the first `n` splices.
pub open spec fn bytes_upto(src: Seq<char>, o: Seq<Splice>, n: int) -> Seq<u8>
    decreases n,
{
    if n <= 0 {
        Seq::empty()
    } else {
        bytes_upto(src, o, n - 1) + encode_utf8(src).subrange(resume_at(o, n - 1), o[n - 1].start)
            + encode_utf8(o[n - 1].text)
    }
}

proof fn lemma_bytes_upto(v: Seq<Splice>, src: Seq<char>, n: int)
    requires
        applicable(v, src),
        0 <= n <= in_source_order(v).len(),
    ensures
        encode_utf8(rewritten_upto(src, in_source_order(v), n)) == bytes_upto(
            src,
            in_source_order(v),
            n,
        ),
        0 <= resume_at(in_source_order(v), n) <= encode_utf8(src).len(),
        at_boundary(src, resume_at(in_source_order(v), n)),
    decreases n,
{
    let o = in_source_order(v);
    lemma_source_ends(src);
    if n > 0 {
        lemma_bytes_upto(v, src, n - 1);
        let from = resume_at(o, n - 1);
        let s = o[n - 1];
        assert(span_ok(src, o[n - 1].start, o[n - 1].end));
        assert(from <= s.start) by {
            if n > 1 {
                assert(o[n - 1 - 1].end <= o[n - 1].start);
            }
        }
        lemma_span_bytes(src, from, s.start);
        let done = rewritten_upto(src, o, n - 1);
        let gap = span(src, from, s.start);
        lemma_encode_concat(done + gap, s.text);
        lemma_encode_concat(done, gap);
    }
}

/// What lies between replacements is copied byte for byte, and nothing comes in
/// but their texts.
pub proof fn law_rewriting_copies_the_rest(v: Seq<Splice>, src: Seq<char>)
    requires
        applicable(v, src),
    ensures
        ({
            let o = in_source_order(v);
            let n = o.len() as int;
            encode_utf8(rewritten(src, v)) == bytes_upto(src, o, n) + encode_utf8(src).skip(
                resume_at(o, n),
            )
        }),
{
    let o = in_source_order(v);
    let n = o.len() as int;
    let len = encode_utf8(src).len() as int;
    lemma_bytes_upto(v, src, n);
    lemma_source_ends(src);
    let from = resume_at(o, n);
    lemma_span_bytes(src, from, len);
    lemma_encode_concat(rewritten_upto(src, o, n), span(src, from, len));
    assert(encode_utf8(src).subrange(from, len) =~= encode_utf8(src).skip(from));
}

/// A source without replacements stays as it is.
pub proof fn law_no_replacement_no_change(src: Seq<char>)
    ensures
        rewritten(src, Seq::empty()) == src,
{
    let o = in_source_order(Seq::<Splice>::empty());
    assert(o.len() == 0);
    let b = encode_utf8(src);
    assert(b.subrange(0, b.len() as int) =~= b);
    encode_utf8_decode_utf8(src);
    assert(rewritten(src, Seq::empty()) =~= src);
}

/// Text goes in without covering anything only where a comment moves to.
pub proof fn law_inserts_are_moves(v: Seq<Splice>, src: Seq<char>, comments: Seq<CommentText>, k: int)
    requires
        fault(v, src, comments) is None,
        0 <= k < in_source_order(v).len(),
        in_source_order(v)[k].start == in_source_order(v)[k].end,
        in_source_order(v)[k].text.len() > 0,
    ensures
        is_target(comments, in_source_order(v)[k].start),
{
    let o = in_source_order(v);
    crate::rewrite::lemma_no_fault(o, 0, src, comments);
    assert(splice_fault(o, k, src, comments) is None);
}

/// A comment that another tool reads is not touched. The one exception is the
/// closer of an annotation on several lines.
pub proof fn law_directives_stay(
    src: Seq<char>,
    c: CommentText,
    prev: Option<CommentText>,
    lang: Language,
    limit: usize,
    tab_width: usize,
)
    requires
        c.force_passthrough,
        c.param_shift is None,
        !acsl_split_allowed(src, c, lang),
    ensures
        comment_splices(src, c, prev, lang, limit, tab_width).len() == 0,
{
    reveal(comment_splices);
    reveal(closer_splices);
    reveal(CommentText::left_alone);
}

/// A comment that is left alone keeps its text: at most its closer moves, and
/// with it only white space.
pub proof fn law_left_alone_keeps_text(
    src: Seq<char>,
    c: CommentText,
    prev: Option<CommentText>,
    lang: Language,
    limit: usize,
    tab_width: usize,
)
    requires
        c.param_shift is None,
        c.left_alone(kind_of(c.text, lang), lang, limit),
        all_in(c.line_indent_bytes, CharClass::White),
    ensures
        ({
            let r = comment_splices(src, c, prev, lang, limit, tab_width);
            &&& r.len() <= 1
            &&& r.len() == 1 ==> r[0].start == c.start_byte && r[0].end == c.end_byte && solids(
                r[0].text,
            ) == solids(c.text)
        }),
{
    reveal(comment_splices);
    reveal(closer_splices);
    reveal_strlit(" ");
    match closer_indent(src, c, lang) {
        Some(indent) => match closer_split(c.text, indent) {
            Some(text) => {
                if indent is Some {
                    let lead = c.line_indent_bytes + " "@;
                    assert(all_in(lead, CharClass::White)) by {
                        assert forall|i: int| 0 <= i < lead.len() implies in_class(
                            #[trigger] lead[i],
                            CharClass::White,
                        ) by {
                            if i < c.line_indent_bytes.len() {
                                assert(lead[i] == c.line_indent_bytes[i]);
                            }
                        }
                    }
                }
                law_closer_split_keeps_text(c.text, indent);
                lemma_break_has_no_text(text, span(src, c.start_byte, c.end_byte));
            },
            None => {},
        },
        None => {},
    }
}

/// The line break at the end of a text is white space.
pub proof fn lemma_white_break(s: Seq<char>)
    ensures
        all_in(final_break(s), CharClass::White),
{
    let tail = final_break(s);
    lemma_trail_len_facts(s, CharClass::Two('\r', '\n'));
    let n = trail_len(s, CharClass::Two('\r', '\n')) as int;
    assert forall|i: int| 0 <= i < tail.len() implies in_class(
        #[trigger] tail[i],
        CharClass::White,
    ) by {
        assert(tail[i] == s[s.len() - n + i]);
        assert(in_class(s[s.len() - n + i], CharClass::Two('\r', '\n')));
    }
}

proof fn lemma_break_has_no_text(text: Seq<char>, s: Seq<char>)
    ensures
        solids(text + final_break(s)) == solids(text),
{
    let tail = final_break(s);
    lemma_white_break(s);
    crate::laws::lemma_solids_white(tail);
    crate::laws::lemma_solids_concat(text, tail);
    assert(solids(text) + solids(tail) =~= solids(text));
}

/// A comment that is laid out as it should be is not replaced: nothing happens
/// to it unless it needs a blank line above it.
pub proof fn law_settled_comments_stay(
    src: Seq<char>,
    c: CommentText,
    prev: Option<CommentText>,
    lang: Language,
    limit: usize,
    tab_width: usize,
)
    requires
        c.param_shift is None,
        c.relocate_before is None,
        !c.left_alone(kind_of(c.text, lang), lang, limit),
        ({
            let text = reflowed(
                c.normalized(kind_of(c.text, lang), lang, limit),
                limit,
                tab_width,
            );
            let own = span(src, c.start_byte, c.end_byte);
            &&& text + final_break(own) == own
            &&& !needs_blank(src, c, style_of(c.text), text.contains('\n'), prev, lang)
        }),
    ensures
        comment_splices(src, c, prev, lang, limit, tab_width).len() == 0,
{
    reveal(comment_splices);
    reveal(in_place_splices);
}

/// A comment below a blank line gets no further one.
pub proof fn law_one_blank_line_is_enough(
    src: Seq<char>,
    c: CommentText,
    style: Style,
    multiline: bool,
    prev: Option<CommentText>,
    lang: Language,
)
    requires
        ({
            let b = encode_utf8(src);
            let at = line_start(b, c.start_byte);
            trimmed(span(src, line_start(b, at - 1), at)).len() == 0
        }),
    ensures
        !needs_blank(src, c, style, multiline, prev, lang),
{
}

/// No blank line is put above a documentation comment, which would detach it
/// from what it documents.
pub proof fn law_doc_comments_stay_attached(
    src: Seq<char>,
    c: CommentText,
    style: Style,
    multiline: bool,
    prev: Option<CommentText>,
    lang: Language,
)
    requires
        style == Style::DocLine || style == Style::DocBlock,
    ensures
        !needs_blank(src, c, style, multiline, prev, lang),
{
}

/// A comment that stays as it is never becomes part of another one.
pub proof fn law_pinned_comments_stay_apart(a: CommentText, b: CommentText, src: Seq<char>)
    requires
        a.force_passthrough || b.force_passthrough,
    ensures
        !merges(a, b, src),
{
}

/// A signature with an instruction to another tool among its drifted comments
/// is left alone as a whole.
pub proof fn law_directives_do_not_drift(
    nodes: Seq<NodeText>,
    params: Seq<Param>,
    tail: int,
    src: Seq<char>,
    lang: Language,
)
    requires
        passthrough_directive(node_source(nodes, tail, src), lang) || any_pinned(
            nodes,
            params,
            src,
            lang,
        ),
    ensures
        drift_shifts(nodes, params, tail, src, lang).len() == 0,
{
}

/// Indentation survives: every line of a paragraph starts with the comment's
/// own indentation.
pub proof fn law_lines_keep_indentation(
    doc: DocText,
    body: Seq<char>,
    effective: nat,
    hang: nat,
    j: int,
)
    requires
        0 <= j < wrapped_lines(body, doc.prefix(), effective, hang).len(),
    ensures
        has_prefix(wrapped_lines(body, doc.prefix(), effective, hang)[j], doc.indent),
{
    let line = wrapped_lines(body, doc.prefix(), effective, hang)[j];
    let p = doc.prefix();
    assert(p.take(doc.indent.len() as int) =~= doc.indent);
    assert forall|i: int| 0 <= i < doc.indent.len() implies line[i] == doc.indent[i] by {
        assert(line[i] == p[i]);
        assert(p[i] == p.take(doc.indent.len() as int)[i]);
    }
    assert(line.subrange(0, doc.indent.len() as int) =~= doc.indent);
}

proof fn lemma_crlf_all(lines: Seq<LineText>, n: int, crlf: bool)
    requires
        0 <= n <= lines.len(),
        forall|i: int| 0 <= i < n ==> (#[trigger] lines[i]).had_crlf == crlf,
    ensures
        crlf_lines(lines, n) == if crlf {
            n
        } else {
            0
        },
    decreases n,
{
    if n > 0 {
        lemma_crlf_all(lines, n - 1, crlf);
        assert(lines[n - 1].had_crlf == crlf);
    }
}

/// Line endings survive: a comment whose breaks are all of one kind keeps that
/// kind.
pub proof fn law_line_endings_survive(doc: DocText, crlf: bool)
    requires
        doc.lines.len() >= 2,
        forall|i: int| 0 <= i < doc.lines.len() - 1 ==> (#[trigger] doc.lines[i]).had_crlf == crlf,
    ensures
        doc.ending() == if crlf {
            "\r\n"@
        } else {
            "\n"@
        },
{
    lemma_crlf_all(doc.lines, doc.lines.len() - 1, crlf);
}

/// Preformatted lines pass through: as they stood in the source, but for a
/// marker of several stars in a block, which becomes one star. Rows and banners
/// go out behind the canonical prefix, and the first line of a block without
/// its opener.
pub proof fn law_preformatted_lines_pass(
    doc: DocText,
    li: int,
    prefix: Seq<char>,
    inline_opener: bool,
)
    requires
        doc.lines[li].kind != LineKind::LabelRow,
        doc.lines[li].kind != LineKind::Banner,
        !(inline_opener && li == 0),
    ensures
        raw_line(doc, li, prefix, inline_opener) == if is_block(doc.style) {
            stars_collapsed(doc.lines[li].raw)
        } else {
            doc.lines[li].raw
        },
        lead_len(
            crate::text::after_lead(doc.lines[li].raw, CharClass::Blank),
            CharClass::One('*'),
        ) < 2 ==> raw_line(doc, li, prefix, inline_opener) == doc.lines[li].raw,
{
}

/// No comment starts before the one ahead of it ends.
pub open spec fn apart(v: Seq<CommentText>) -> bool {
    forall|i: int, j: int| 0 <= i < j < v.len() ==> v[i].end_byte <= v[j].start_byte
}

proof fn lemma_merged_apart(v: Seq<CommentText>, i: int, src: Seq<char>)
    requires
        0 <= i,
        apart(v),
    ensures
        apart(merged_from(v, i, src)),
        forall|k: int|
            0 <= k < merged_from(v, i, src).len() ==> exists|p: int, q: int|
                i <= p <= q < v.len() && (#[trigger] merged_from(v, i, src)[k]).start_byte
                    == (#[trigger] v[p]).start_byte && merged_from(v, i, src)[k].end_byte == (
                #[trigger] v[q]).end_byte,
    decreases v.len() - i,
{
    if i < v.len() {
        crate::merge::lemma_run_end(v, i, src);
        let j = run_end(v, i, src);
        lemma_merged_apart(v, j + 1, src);
        let m = merged_run(v, i, j, src);
        let rest = merged_from(v, j + 1, src);
        let all = merged_from(v, i, src);
        assert(m.start_byte == v[i].start_byte && m.end_byte == v[j].end_byte);
        assert forall|k: int| 0 <= k < all.len() implies exists|p: int, q: int|
            i <= p <= q < v.len() && (#[trigger] all[k]).start_byte == (
            #[trigger] v[p]).start_byte && all[k].end_byte == (#[trigger] v[q]).end_byte by {
            if k > 0 {
                assert(all[k] == rest[k - 1]);
                let (p, q) = choose|p: int, q: int|
                    j + 1 <= p <= q < v.len() && rest[k - 1].start_byte == (
                    #[trigger] v[p]).start_byte && rest[k - 1].end_byte == (
                    #[trigger] v[q]).end_byte;
                assert(i <= p <= q);
            }
        }
        assert forall|a: int, b: int| 0 <= a < b < all.len() implies all[a].end_byte
            <= all[b].start_byte by {
            assert(all[b] == rest[b - 1]);
            if a > 0 {
                assert(all[a] == rest[a - 1]);
            } else {
                let (p, q) = choose|p: int, q: int|
                    j + 1 <= p <= q < v.len() && rest[b - 1].start_byte == (
                    #[trigger] v[p]).start_byte && rest[b - 1].end_byte == (
                    #[trigger] v[q]).end_byte;
                assert(v[j].end_byte <= v[p].start_byte);
            }
        }
    }
}

/// Joining runs of comments keeps the comments apart.
pub proof fn law_merged_comments_stay_apart(v: Seq<CommentText>, src: Seq<char>)
    requires
        apart(v),
    ensures
        apart(merged_from(v, 0, src)),
{
    lemma_merged_apart(v, 0, src);
}

/// An extension is matched without regard to case, and the content of a file
/// that has one does not matter.
pub proof fn law_extension_case_is_ignored(
    a: Seq<char>,
    b: Seq<char>,
    head_a: Seq<u8>,
    head_b: Seq<u8>,
)
    requires
        path_extension(a) is Some,
        path_extension(b) is Some,
        lowered(path_extension(a)->0) == lowered(path_extension(b)->0),
    ensures
        detected(a, head_a) == detected(b, head_b),
{
}

/// Block `k` of a list of blocks at or behind `i` is delimited as a block
/// comment is, starts no earlier than the one ahead of it ends, and could not be
/// part of a line comment.
pub open spec fn proper_block(bytes: Seq<u8>, blocks: Seq<(int, int)>, i: int, k: int) -> bool {
    let start = blocks[k].0;
    let end = blocks[k].1;
    &&& i <= start && start + 4 <= end <= bytes.len()
    &&& pair_at(bytes, start, 47, 42) && pair_at(bytes, end - 2, 42, 47)
    &&& !swallowed(bytes, start)
    &&& k > 0 ==> blocks[k - 1].1 <= start
}

proof fn lemma_proper_blocks(bytes: Seq<u8>, i: int, k: int)
    requires
        0 <= i,
        0 <= k < blocks_from(bytes, i).len(),
    ensures
        proper_block(bytes, blocks_from(bytes, i), i, k),
    decreases bytes.len() - i,
{
    let all = blocks_from(bytes, i);
    if pair_at(bytes, i, 47, 42) {
        let c = closer_from(bytes, i + 2);
        crate::assembly::lemma_closer(bytes, i + 2);
        let rest = blocks_from(bytes, c + 2);
        if swallowed(bytes, i) {
            assert(all == rest);
            lemma_proper_blocks(bytes, c + 2, k);
        } else {
            assert(all == seq![(i, c + 2)] + rest);
            if k > 0 {
                lemma_proper_blocks(bytes, c + 2, k - 1);
                assert(all[k] == rest[k - 1]);
                if k > 1 {
                    assert(all[k - 1] == rest[k - 2]);
                }
            }
        }
    } else if bytes[i] == 34 {
        let e = string_end(bytes, i + 1);
        assert(all == blocks_from(bytes, e));
        lemma_proper_blocks(bytes, e, k);
    } else {
        assert(all == blocks_from(bytes, i + 1));
        lemma_proper_blocks(bytes, i + 1, k);
    }
}

/// The comments that are read in an assembly source are block comments that
/// follow each other without overlap, and none could be part of a line comment.
pub proof fn law_assembly_blocks(bytes: Seq<u8>, k: int)
    requires
        0 <= k < blocks_from(bytes, 0).len(),
    ensures
        proper_block(bytes, blocks_from(bytes, 0), 0, k),
{
    lemma_proper_blocks(bytes, 0, k);
}


/// A source whose comments are all as they should be stays as it is.
pub proof fn law_settled_source_stays(
    src: Seq<char>,
    comments: Seq<CommentText>,
    lang: Language,
    limit: usize,
    tab_width: usize,
)
    requires
        forall|i: int|
            0 <= i < comments.len() ==> comment_splices(
                src,
                #[trigger] comments[i],
                if i > 0 {
                    Some(comments[i - 1])
                } else {
                    None
                },
                lang,
                limit,
                tab_width,
            ).len() == 0,
    ensures
        rewritten(src, planned(src, comments, lang, limit, tab_width)) == src,
{
    lemma_nothing_planned(src, comments, comments.len() as int, lang, limit, tab_width);
    assert(planned(src, comments, lang, limit, tab_width) =~= Seq::empty());
    law_no_replacement_no_change(src);
}

pub proof fn lemma_nothing_planned(
    src: Seq<char>,
    comments: Seq<CommentText>,
    n: int,
    lang: Language,
    limit: usize,
    tab_width: usize,
)
    requires
        0 <= n <= comments.len(),
        forall|i: int|
            0 <= i < comments.len() ==> comment_splices(
                src,
                #[trigger] comments[i],
                if i > 0 {
                    Some(comments[i - 1])
                } else {
                    None
                },
                lang,
                limit,
                tab_width,
            ).len() == 0,
    ensures
        planned_upto(src, comments, n, lang, limit, tab_width).len() == 0,
    decreases n,
{
    if n > 0 {
        lemma_nothing_planned(src, comments, n - 1, lang, limit, tab_width);
        let c = comments[n - 1];
    }
}

pub proof fn lemma_past_blanks(b: Seq<u8>, i: int)
    requires
        0 <= i <= b.len(),
    ensures
        i <= past_blanks(b, i) <= b.len(),
        forall|j: int| i <= j < past_blanks(b, i) ==> is_blank(#[trigger] b[j]),
    decreases b.len() - i,
{
    if i < b.len() && is_blank(b[i]) {
        lemma_past_blanks(b, i + 1);
    }
}

pub proof fn lemma_before_blanks(b: Seq<u8>, i: int, low: int)
    requires
        0 <= low <= i <= b.len(),
    ensures
        low <= before_blanks(b, i, low) <= i,
        forall|j: int| before_blanks(b, i, low) <= j < i ==> is_blank(#[trigger] b[j]),
    decreases i,
{
    if low < i && is_blank(b[i - 1]) {
        lemma_before_blanks(b, i - 1, low);
    }
}

/// Moving a comment away deletes no code: beside the comment itself, only
/// blanks and a line break go.
pub proof fn law_moving_deletes_no_code(b: Seq<u8>, start: int, end: int, backward: bool, i: int)
    requires
        0 <= start <= end <= b.len(),
        moved_span(b, start, end, backward).0 <= i < moved_span(b, start, end, backward).1,
    ensures
        start <= i < end || blank_byte(b[i]),
        0 <= i < b.len(),
{
    let at = line_start(b, start);
    let after = past_blanks(b, end);
    crate::bytes::lemma_line_start(b, start);
    lemma_past_blanks(b, end);
    lemma_before_blanks(b, start, at);
    if alone_on_line(b, start, end) {
        if i < start {
            assert(is_blank(b[i]));
        }
    }
}

/// A comment that moves back into a parameter list is put on one line, with all
/// its words.
pub proof fn law_moved_comment_keeps_words(text: Seq<char>)
    ensures
        words_of(moved_text(text)) == words_of(text),
        !any_in(moved_text(text), CharClass::Two('\n', '\r')),
{
    if any_in(text, CharClass::Two('\n', '\r')) {
        lemma_words_are_words(text);
        lemma_words_joined(words_of(text));
        lemma_joined_on_one_line(words_of(text));
    }
}

proof fn lemma_joined_on_one_line(ws: Seq<Seq<char>>)
    requires
        all_words(ws),
    ensures
        !any_in(joined(ws, " "@), CharClass::Two('\n', '\r')),
    decreases ws.len(),
{
    reveal_strlit(" ");
    let s = joined(ws, " "@);
    if ws.len() == 1 {
        assert(is_word(ws[0]));
        assert forall|i: int| 0 <= i < s.len() implies !in_class(
            #[trigger] s[i],
            CharClass::Two('\n', '\r'),
        ) by {
            assert(in_class(s[i], CharClass::Solid));
        }
    } else if ws.len() > 1 {
        let head = ws.drop_last();
        assert(all_words(head)) by {
            assert forall|i: int| 0 <= i < head.len() implies is_word(#[trigger] head[i]) by {
                assert(is_word(ws[i]));
            }
        }
        lemma_joined_on_one_line(head);
        assert(is_word(ws[ws.len() - 1]));
        let h = joined(head, " "@);
        let w = ws.last();
        assert forall|i: int| 0 <= i < s.len() implies !in_class(
            #[trigger] s[i],
            CharClass::Two('\n', '\r'),
        ) by {
            if i < h.len() {
                assert(s[i] == h[i]);
            } else if i > h.len() {
                assert(s[i] == w[i - h.len() - 1]);
                assert(in_class(w[i - h.len() - 1], CharClass::Solid));
            }
        }
    }
}

proof fn lemma_no_comment_behind_parameter(
    nodes: Seq<NodeText>,
    kids: Seq<int>,
    j: int,
    q: int,
    src: Seq<char>,
)
    requires
        0 <= j <= q,
        params_from(nodes, kids, j, src) is Some,
        kid_is(nodes, kids, q, "parameter_declaration"@),
    ensures
        !kid_is(nodes, kids, q + 1, "comment"@),
    decreases kids.len() - j,
{
    reveal_strlit("parameter_declaration");
    reveal_strlit("comment");
    reveal_strlit(",");
    reveal_strlit(")");
    assert("comment"@.len() != ","@.len() && "comment"@.len() != ")"@.len());
    assert("comment"@.len() != "parameter_declaration"@.len());
    assert("parameter_declaration"@.len() != ","@.len());
    if kid_is(nodes, kids, j, ","@) {
        let e = comments_end(nodes, kids, j + 1);
        lemma_all_comments(nodes, kids, j + 1);
        if q < e {
            if q > j {
                assert(kid_is(nodes, kids, q, "comment"@));
            }
        } else if q > e {
            lemma_no_comment_behind_parameter(nodes, kids, e + 1, q, src);
        } else {
            assert(params_from(nodes, kids, e + 1, src) is Some);
        }
    }
}

proof fn lemma_all_comments(nodes: Seq<NodeText>, kids: Seq<int>, j: int)
    requires
        0 <= j,
    ensures
        j <= comments_end(nodes, kids, j),
        forall|q: int| j <= q < comments_end(nodes, kids, j) ==> kid_is(nodes, kids, q, "comment"@),
    decreases kids.len() - j,
{
    if kid_is(nodes, kids, j, "comment"@) {
        lemma_all_comments(nodes, kids, j + 1);
    }
}

/// Parameter comments that have been moved back stay there: a list in which a
/// comment follows a parameter has not drifted.
pub proof fn law_shifted_comments_stay(
    nodes: Seq<NodeText>,
    kids: Seq<int>,
    q: int,
    src: Seq<char>,
)
    requires
        kid_is(nodes, kids, q, "parameter_declaration"@),
        kid_is(nodes, kids, q + 1, "comment"@),
    ensures
        params_of(nodes, kids, src) is None,
{
    reveal_strlit("parameter_declaration");
    reveal_strlit("comment");
    reveal_strlit("(");
    reveal_strlit(",");
    reveal_strlit(")");
    assert("parameter_declaration"@.len() != "("@.len());
    assert("comment"@.len() != ","@.len() && "comment"@.len() != ")"@.len());
    if params_of(nodes, kids, src) is Some {
        if q >= 2 {
            lemma_no_comment_behind_parameter(nodes, kids, 2, q, src);
        }
    }
}

} // verus!
