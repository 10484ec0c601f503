//! Comments that move: where they go in and what goes in.

use crate::comment::CommentText;
use crate::language::Language;
use crate::planner::{comment_splices, moved_span, page_splices, shift_splices};
use crate::text::{any_in, in_class, joined, words_of, CharClass};
use vstd::prelude::*;
use vstd::utf8::encode_utf8;

verus! {

/// A comment of a parameter goes behind it with one space in front, on one line; where it stood
/// it is taken out.
pub proof fn law_parameter_comments_go_behind(
    src: Seq<char>,
    c: CommentText,
    prev: Option<CommentText>,
    lang: Language,
    limit: usize,
    tab_width: usize,
)
    requires
        c.param_shift is Some,
    ensures
        ({
            let all = comment_splices(src, c, prev, lang, limit, tab_width);
            let one_line = forall|k: int|
                0 <= k < c.text.len() ==> #[trigger] c.text[k] != '\n' && c.text[k] != '\r';
            &&& all.len() == 2
            &&& all[0].text.len() == 0
            &&& (all[0].start, all[0].end) == moved_span(
                encode_utf8(src),
                c.start_byte,
                c.end_byte,
                c.param_shift->0.after_paren,
            )
            &&& all[1].start == c.param_shift->0.insert_at && all[1].end
                == c.param_shift->0.insert_at
            &&& one_line ==> all[1].text == " "@ + c.text
            &&& !one_line ==> all[1].text == " "@ + joined(words_of(c.text), " "@)
        }),
{
    reveal(comment_splices);
    reveal(shift_splices);
    if forall|k: int| 0 <= k < c.text.len() ==> #[trigger] c.text[k] != '\n' && c.text[k] != '\r' {
        assert(!any_in(c.text, CharClass::Two('\n', '\r'))) by {
            if any_in(c.text, CharClass::Two('\n', '\r')) {
                let k = choose|k: int|
                    0 <= k < c.text.len() && in_class(
                        #[trigger] c.text[k],
                        CharClass::Two('\n', '\r'),
                    );
                assert(c.text[k] != '\n' && c.text[k] != '\r');
            }
        }
    } else {
        let k = choose|k: int|
            0 <= k < c.text.len() && !(#[trigger] c.text[k] != '\n' && c.text[k] != '\r');
        assert(in_class(c.text[k], CharClass::Two('\n', '\r')));
    }
}

/// A manual page goes in front of its function with an empty line behind it, and one in front
/// where there is none yet and the file does not start there.
pub proof fn law_pages_are_set_off(src: Seq<char>, c: CommentText, text: Seq<char>)
    requires
        c.relocate_before is Some,
    ensures
        ({
            let b = encode_utf8(src);
            let at = c.relocate_before->0 as int;
            let nl = c.fallback_ending;
            let all = page_splices(src, c, text);
            let set_off = {
                ||| at == 0
                ||| at >= 2 && b[at - 1] == 10 && b[at - 2] == 10
                ||| at >= 4 && b[at - 1] == 10 && b[at - 2] == 13 && b[at - 3] == 10 && b[at - 4]
                    == 13
            };
            &&& all.len() == 2
            &&& all[1].start == at && all[1].end == at
            &&& set_off ==> all[1].text == text + nl + nl
            &&& !set_off ==> all[1].text == nl + text + nl + nl
            &&& all[0].text.len() == 0
            &&& (all[0].start, all[0].end) == moved_span(
                b,
                c.start_byte,
                c.end_byte,
                c.is_trailing,
            )
        }),
{
    reveal(page_splices);
    assert(Seq::<char>::empty() + text + c.fallback_ending + c.fallback_ending =~= text
        + c.fallback_ending + c.fallback_ending);
}

} // verus!
