//! One comment of a source file, and what its place in the file says of it.

use crate::bytes::{
    at_boundary, lemma_encode_len, lemma_line_start_boundary, lemma_source_ends, line_start,
    line_start_before, slice, span, span_ok, split_chars_at,
};
use crate::directive::{
    acsl_annotation, bare_cr, cppcheck_suppress, ends_with_line_splice, is_acsl_annotation,
    is_cppcheck_suppress, is_passthrough_directive, line_splice, nested_block,
    passthrough_directive, rust_block_has_nested, spans_bare_cr, spans_line_splice, spliced,
};
use crate::language::Language;
use crate::text::{
    after_lead, all_in, any_in, before_trail, contains, count_lead, count_trail, drop_trail,
    ends_with, has_prefix, has_suffix, has_text, in_class, is_white, lead_len, leads_with,
    lemma_lead_len_facts, lemma_trail_len, lemma_trail_len_facts, only_of, opens_with, same,
    skip_chars, skip_lead, some_of, starts_with, strip_suffix, sub_at, suffix_rest, take_chars,
    trail_len, trim, trim_end, trim_start, trimmed, trimmed_end, trimmed_start, CharClass,
};
use vstd::prelude::*;
use vstd::utf8::encode_utf8;

verus! {

/// How a parameter comment that drifted forward moves back.
#[derive(Debug, Clone, Copy, PartialEq, Eq, Structural)]
pub struct ParamShift {
    /// Where the comment is put back: the end of the parameter it describes.
    pub insert_at: usize,
    /// The comment stood behind the closing parenthesis.
    pub after_paren: bool,
}

/// One comment, or a run of comments that read as one.
#[derive(Debug, Clone)]
pub struct Comment {
    pub start_byte: usize,
    pub end_byte: usize,
    pub start_col_byte: usize,
    pub text: String,
    pub force_passthrough: bool,
    /// Something other than white space precedes the comment on its line.
    pub is_trailing: bool,
    /// What precedes the comment on its line, where that is only white space.
    pub line_indent_bytes: String,
    /// The line ending to use where the comment has no break inside.
    pub fallback_ending: &'static str,
    /// Nothing but a byte order mark, white space or a licence tag precedes the
    /// comment in the file.
    pub at_file_start: bool,
    /// The line start of the function whose signature and body the comment
    /// stands between.
    pub relocate_before: Option<usize>,
    pub param_shift: Option<ParamShift>,
}

/// `Comment` over plain text.
pub ghost struct CommentText {
    pub start_byte: int,
    pub end_byte: int,
    pub start_col_byte: int,
    pub text: Seq<char>,
    pub force_passthrough: bool,
    pub is_trailing: bool,
    pub line_indent_bytes: Seq<char>,
    pub fallback_ending: Seq<char>,
    pub at_file_start: bool,
    pub relocate_before: Option<usize>,
    pub param_shift: Option<ParamShift>,
}

impl View for Comment {
    type V = CommentText;

    open spec fn view(&self) -> CommentText {
        CommentText {
            start_byte: self.start_byte as int,
            end_byte: self.end_byte as int,
            start_col_byte: self.start_col_byte as int,
            text: self.text@,
            force_passthrough: self.force_passthrough,
            is_trailing: self.is_trailing,
            line_indent_bytes: self.line_indent_bytes@,
            fallback_ending: self.fallback_ending@,
            at_file_start: self.at_file_start,
            relocate_before: self.relocate_before,
            param_shift: self.param_shift,
        }
    }
}

pub open spec fn comment_texts(v: Seq<Comment>) -> Seq<CommentText> {
    Seq::new(v.len(), |i: int| v[i]@)
}

impl CommentText {
    /// The comment is a stretch of whole characters of `src`.
    pub open spec fn placed(self, src: Seq<char>) -> bool {
        span_ok(src, self.start_byte, self.end_byte)
    }

    /// Whether a block's opener stands alone on its first line; `None` for
    /// other comments.
    pub open spec fn opener_alone(self) -> Option<bool> {
        let first = trimmed_end(
            self.text.take(lead_len(self.text, CharClass::NotOne('\n')) as int),
        );
        if first == "/**"@ || first == "/*!"@ || first == "/*"@ {
            Some(true)
        } else if has_prefix(first, "/**"@) || has_prefix(first, "/*!"@) || has_prefix(
            first,
            "/*"@,
        ) {
            Some(false)
        } else {
            None
        }
    }
}

impl Comment {
    pub fn style_opener_alone(&self) -> (r: Option<bool>)
        ensures
            r == self@.opener_alone(),
    {
        let text = self.text.as_str();
        let n: usize = count_lead(text, CharClass::NotOne('\n'));
        let first = trim_end(take_chars(text, n));
        if same(first, "/**") || same(first, "/*!") || same(first, "/*") {
            Some(true)
        } else if starts_with(first, "/**") || starts_with(first, "/*!") || starts_with(
            first,
            "/*",
        ) {
            Some(false)
        } else {
            None
        }
    }

    /// A copy of the comment.
    pub fn copy(&self) -> (r: Comment)
        ensures
            r@ == self@,
    {
        Comment {
            start_byte: self.start_byte,
            end_byte: self.end_byte,
            start_col_byte: self.start_col_byte,
            text: self.text.clone(),
            force_passthrough: self.force_passthrough,
            is_trailing: self.is_trailing,
            line_indent_bytes: self.line_indent_bytes.clone(),
            fallback_ending: self.fallback_ending,
            at_file_start: self.at_file_start,
            relocate_before: self.relocate_before,
            param_shift: self.param_shift,
        }
    }
}

/// Nothing precedes but a byte order mark, white space, and at most one comment
/// with a licence tag.
pub open spec fn file_start_prefix(before: Seq<char>) -> bool {
    let t = trimmed(after_lead(before, CharClass::One('\u{feff}')));
    ||| t.len() == 0
    ||| {
        &&& has_prefix(t, "/*"@)
        &&& has_suffix(t, "*/"@)
        &&& has_text(t, "SPDX-License-Identifier"@)
        &&& !has_text(t.subrange(2, t.len() - 2), "*/"@)
    }
}

/// The first `*/` of `s` at or behind position `i`; the length where there is
/// none.
pub open spec fn closer_at(s: Seq<char>, i: int) -> int
    decreases s.len() - i,
{
    if i + 2 > s.len() {
        s.len() as int
    } else if sub_at(s, "*/"@, i) {
        i
    } else {
        closer_at(s, i + 1)
    }
}

proof fn lemma_closer_at(s: Seq<char>, i: int)
    requires
        0 <= i <= s.len(),
    ensures
        i <= closer_at(s, i) <= s.len(),
        closer_at(s, i) < s.len() ==> sub_at(s, "*/"@, closer_at(s, i)),
        forall|k: int| i <= k < closer_at(s, i) ==> !#[trigger] sub_at(s, "*/"@, k),
    decreases s.len() - i,
{
    reveal_strlit("*/");
    if i + 2 <= s.len() && !sub_at(s, "*/"@, i) {
        lemma_closer_at(s, i + 1);
    }
}

/// Finds the first `*/` behind the opener of a block comment.
fn find_block_end(s: &str) -> (r: Option<usize>)
    ensures
        (match r {
            Some(p) => p == closer_at(s@, 2) && p + 2 <= s@.len() && p + 2 <= usize::MAX,
            None => closer_at(s@, 2) == s@.len() || s@.len() < 2,
        }),
{
    let whole: usize = s.as_bytes().len();
    let mut n: usize = 0;
    let mut star = false;
    proof {
        reveal_strlit("*/");
        lemma_encode_len(s@);
    }
    for c in it: s.chars()
        invariant
            it.seq() == s@,
            s@.len() <= whole,
            n == it.index(),
            star == (n >= 3 && s@[n - 1] == '*'),
            "*/"@ == seq!['*', '/'],
            n >= 3 ==> closer_at(s@, 2) == closer_at(s@, n - 1),
    {
        if star && c == '/' {
            proof {
                assert(s@.subrange(n - 1, n + 1) =~= "*/"@);
            }
            return Some(n - 1);
        }
        proof {
            if n >= 3 {
                if sub_at(s@, "*/"@, n - 1) {
                    let pair = s@.subrange(n - 1, n + 1);
                    assert(pair[0] == s@[n - 1] && pair[1] == s@[n as int]);
                }
            }
        }
        star = c == '*' && n >= 2;
        n = n + 1;
    }
    None
}

/// A text that starts a block comment is one comment and white space behind it
/// exactly when it ends there without white space and holds no other closer.
proof fn lemma_one_comment(u: Seq<char>)
    requires
        has_prefix(u, "/*"@),
        u.len() > 0,
        !is_white(u[0]),
    ensures
        ({
            let t = trimmed_end(u);
            let p = closer_at(u, 2);
            let head = u.take(p + 2);
            (has_prefix(t, "/*"@) && has_suffix(t, "*/"@) && has_text(
                t,
                "SPDX-License-Identifier"@,
            ) && !has_text(t.subrange(2, t.len() - 2), "*/"@)) <==> (p + 2 <= u.len() && all_in(
                u.skip(p + 2),
                CharClass::White,
            ) && has_text(head, "SPDX-License-Identifier"@))
        }),
{
    reveal_strlit("/*");
    reveal_strlit("*/");
    reveal_strlit("SPDX-License-Identifier");
    let t = trimmed_end(u);
    let p = closer_at(u, 2);
    let spdx = "SPDX-License-Identifier"@;
    lemma_closer_at(u, 2);
    lemma_trail_len_facts(u, CharClass::White);
    let n = trail_len(u, CharClass::White) as int;
    let inner = t.subrange(2, t.len() - 2);
    if p + 2 <= u.len() && all_in(u.skip(p + 2), CharClass::White) {
        let rest = u.skip(p + 2);
        assert(u.subrange(p, p + 2)[1] == '/');
        assert forall|i: int| u.len() - rest.len() <= i < u.len() implies in_class(
            #[trigger] u[i],
            CharClass::White,
        ) by {
            assert(rest[i - (p + 2)] == u[i]);
        }
        assert(u[p + 1] == '/');
        lemma_trail_len(u, CharClass::White, rest.len() as int);
        assert(t =~= u.take(p + 2));
        assert(t.subrange(0, 2) =~= u.subrange(0, 2));
        assert(t.subrange(p, p + 2) =~= u.subrange(p, p + 2));
        if has_text(inner, "*/"@) {
            let k = choose|k: int| #[trigger] sub_at(inner, "*/"@, k);
            assert(u.subrange(k + 2, k + 4) =~= inner.subrange(k, k + 2));
            assert(sub_at(u, "*/"@, k + 2));
        }
    } else if has_prefix(t, "/*"@) && has_suffix(t, "*/"@) && has_text(t, spdx) {
        let k = choose|k: int| #[trigger] sub_at(t, spdx, k);
        assert(t.len() >= 23);
        let e = t.len() - 2;
        assert(u.subrange(e, e + 2) =~= t.subrange(e, e + 2));
        assert(sub_at(u, "*/"@, e));
        assert(p <= e);
        assert(u.subrange(p, p + 2)[1] == '/');
        assert(u.subrange(e, e + 2)[0] == '*');
        if p == e {
            let rest = u.skip(p + 2);
            assert forall|i: int| 0 <= i < rest.len() implies in_class(
                #[trigger] rest[i],
                CharClass::White,
            ) by {
                assert(rest[i] == u[p + 2 + i]);
            }
        } else {
            assert(p + 1 != e);
            assert(inner.subrange(p - 2, p) =~= u.subrange(p, p + 2));
            assert(sub_at(inner, "*/"@, p - 2));
        }
    }
}

fn is_file_start_prefix(before: &str) -> (r: bool)
    ensures
        r == file_start_prefix(before@),
{
    let u = trim_start(skip_lead(before, CharClass::One('\u{feff}')));
    let ghost t = trimmed_end(u@);
    proof {
        lemma_trail_len_facts(u@, CharClass::White);
        lemma_lead_len_facts(
            after_lead(before@, CharClass::One('\u{feff}')),
            CharClass::White,
        );
    }
    if u.is_empty() {
        return true;
    }
    proof {
        assert(!is_white(u@[0]));
        assert(t.len() > 0) by {
            if t.len() == 0 {
                assert(in_class(u@[0], CharClass::White));
            }
        }
    }
    if !starts_with(u, "/*") {
        proof {
            reveal_strlit("/*");
            if has_prefix(t, "/*"@) {
                assert(u@.subrange(0, 2) =~= t.subrange(0, 2));
            }
        }
        return false;
    }
    proof {
        reveal_strlit("/*");
        lemma_one_comment(u@);
        lemma_closer_at(u@, 2);
    }
    match find_block_end(u) {
        None => false,
        Some(p) => {
            let (head, rest) = split_chars_at(u, p + 2);
            only_of(rest, CharClass::White) && contains(head, "SPDX-License-Identifier")
        },
    }
}

/// The line that ends at `end`, or a line that runs into it by a backslash,
/// opens with `#`.
pub open spec fn in_directive(src: Seq<char>, end: int) -> bool
    decreases end,
{
    let b = encode_utf8(src);
    let start = line_start(b, end);
    let above = line_start(b, start - 1);
    ||| leads_with(trimmed_start(span(src, start, end)), CharClass::One('#'))
    ||| 0 < start <= end && spliced(span(src, above, start - 1)) && in_directive(src, start - 1)
}

/// A comment that starts at `start_byte` is inside a preprocessor directive.
pub fn is_inside_preprocessor_directive(start_byte: usize, source: &str) -> (r: bool)
    requires
        start_byte <= encode_utf8(source@).len(),
        at_boundary(source@, start_byte as int),
    ensures
        r == in_directive(source@, start_byte as int),
{
    let ghost b = encode_utf8(source@);
    let mut end: usize = start_byte;
    loop
        invariant
            b == encode_utf8(source@),
            end <= start_byte <= b.len(),
            at_boundary(source@, end as int),
            in_directive(source@, start_byte as int) == in_directive(source@, end as int),
        decreases end,
    {
        let start: usize = line_start_before(source, end);
        proof {
            lemma_line_start_boundary(source@, end as int);
        }
        if opens_with(trim_start(slice(source, start, end)), CharClass::One('#')) {
            return true;
        }
        if start == 0 {
            return false;
        }
        let above: usize = line_start_before(source, start - 1);
        proof {
            lemma_line_start_boundary(source@, start - 1);
        }
        if !ends_with_line_splice(slice(source, above, start - 1)) {
            return false;
        }
        end = start - 1;
    }
}

/// A comment that stays as it is: one that another tool reads, or one whose
/// text is not what the lines of the source show.
pub open spec fn pinned(src: Seq<char>, start: int, end: int, lang: Language) -> bool {
    let text = span(src, start, end);
    ||| lang == Language::Rust && nested_block(text)
    ||| passthrough_directive(text, lang)
    ||| bare_cr(encode_utf8(src), start, end)
    ||| line_splice(text, lang)
}

/// The comment from byte offset `start` to `end`.
pub open spec fn comment_at(
    src: Seq<char>,
    start: int,
    end: int,
    lang: Language,
    relocate_before: Option<usize>,
    param_shift: Option<ParamShift>,
) -> CommentText {
    let at = line_start(encode_utf8(src), start);
    let lead = span(src, at, start);
    let trailing = any_in(lead, CharClass::Solid);
    CommentText {
        start_byte: start,
        end_byte: end,
        start_col_byte: start - at,
        text: span(src, start, end),
        force_passthrough: pinned(src, start, end, lang),
        is_trailing: trailing,
        line_indent_bytes: if trailing {
            Seq::empty()
        } else {
            lead
        },
        fallback_ending: "\n"@,
        at_file_start: file_start_prefix(span(src, 0, start)),
        relocate_before,
        param_shift,
    }
}

/// Builds a comment from its place in the source.
pub fn make_comment(
    source: &str,
    start_byte: usize,
    end_byte: usize,
    lang: Language,
    relocate_before: Option<usize>,
    param_shift: Option<ParamShift>,
) -> (r: Comment)
    requires
        span_ok(source@, start_byte as int, end_byte as int),
    ensures
        r@ == comment_at(
            source@,
            start_byte as int,
            end_byte as int,
            lang,
            relocate_before,
            param_shift,
        ),
{
    let text = slice(source, start_byte, end_byte);
    let force_passthrough = (lang == Language::Rust && rust_block_has_nested(text))
        || is_passthrough_directive(text, lang) || spans_bare_cr(source, start_byte, end_byte)
        || spans_line_splice(text, lang);
    let at: usize = line_start_before(source, start_byte);
    proof {
        lemma_line_start_boundary(source@, start_byte as int);
        lemma_source_ends(source@);
    }
    let lead = slice(source, at, start_byte);
    let is_trailing = some_of(lead, CharClass::Solid);
    let line_indent_bytes = if is_trailing {
        let empty = String::new();
        assert(empty@ =~= Seq::<char>::empty());
        empty
    } else {
        lead.to_string()
    };
    let at_file_start = is_file_start_prefix(slice(source, 0, start_byte));
    Comment {
        start_byte,
        end_byte,
        start_col_byte: start_byte - at,
        text: text.to_string(),
        force_passthrough,
        is_trailing,
        line_indent_bytes,
        fallback_ending: "\n",
        at_file_start,
        relocate_before,
        param_shift,
    }
}

/// The text behind the last line feed.
pub open spec fn final_line(text: Seq<char>) -> Seq<char> {
    text.skip(text.len() - trail_len(text, CharClass::NotOne('\n')))
}

/// The closer of an ACSL block may move to a line of its own: nothing but its
/// being an annotation pins the comment, it does not share its line with code,
/// and text of the annotation stands in front of a closer that carries no
/// marker.
pub open spec fn acsl_split_allowed(src: Seq<char>, c: CommentText, lang: Language) -> bool {
    let last = trimmed_end(final_line(c.text));
    &&& lang.is_c_like()
    &&& acsl_annotation(c.text)
    &&& !c.is_trailing
    &&& !bare_cr(encode_utf8(src), c.start_byte, c.end_byte)
    &&& !cppcheck_suppress(c.text)
    &&& !has_suffix(last, "@*/"@)
    &&& match suffix_rest(last, "*/"@) {
        Some(before) => before_trail(
            after_lead(trimmed(before), CharClass::Two('@', '*')),
            CharClass::Two('@', '*'),
        ).len() > 0,
        None => false,
    }
}

pub fn acsl_closer_split_allowed(source: &str, c: &Comment, lang: Language) -> (r: bool)
    requires
        c@.placed(source@),
    ensures
        r == acsl_split_allowed(source@, c@, lang),
{
    let text = c.text.as_str();
    if !lang.c_like() || !is_acsl_annotation(text) {
        return false;
    }
    if c.is_trailing || spans_bare_cr(source, c.start_byte, c.end_byte) || is_cppcheck_suppress(
        text,
    ) {
        return false;
    }
    let len: usize = text.unicode_len();
    let n: usize = count_trail(text, CharClass::NotOne('\n'));
    let last = trim_end(skip_chars(text, len - n));
    if ends_with(last, "@*/") {
        return false;
    }
    match strip_suffix(last, "*/") {
        Some(before) => !drop_trail(
            skip_lead(trim(before), CharClass::Two('@', '*')),
            CharClass::Two('@', '*'),
        ).is_empty(),
        None => false,
    }
}

} // verus!
