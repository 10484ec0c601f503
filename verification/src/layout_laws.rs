//! Star markers of kept lines, and the text behind kernel-doc tags.

use crate::bytes::{lemma_encode_ascii_char, lemma_encode_concat};
use crate::classify::DocFlavor;
use crate::marker_laws::all_blank;
use crate::reflow::{hanging_indent, kdoc_column, spaces_collapsed, stars_collapsed};
use crate::text::{
    after_lead, in_class, is_word_char, lead_run, lemma_lead_len, trimmed_start, CharClass,
};
use crate::textline::kernel_doc_tag;
use vstd::prelude::*;
use vstd::utf8::encode_utf8;

verus! {

/// A marker of several stars is written as one; what follows it stays. Stars with text glued to
/// them are text.
pub proof fn law_star_runs_become_one(ws: Seq<char>, n: nat, rest: Seq<char>)
    requires
        all_blank(ws),
        n >= 1,
        rest.len() > 0 && rest[0] != '*',
    ensures
        stars_collapsed(ws + Seq::new(n, |k: int| '*') + rest) == if rest[0] == ' ' || rest[0]
            == '\t' {
            ws + seq!['*'] + rest
        } else {
            ws + Seq::new(n, |k: int| '*') + rest
        },
{
    let stars = Seq::new(n, |k: int| '*');
    let raw = ws + stars + rest;
    reveal_strlit("*");
    assert forall|k: int| 0 <= k < ws.len() implies in_class(#[trigger] raw[k], CharClass::Blank) by {
        assert(raw[k] == ws[k]);
    }
    assert(raw[ws.len() as int] == '*');
    lemma_lead_len(raw, CharClass::Blank, ws.len() as int);
    assert(lead_run(raw, CharClass::Blank) =~= ws);
    let t = after_lead(raw, CharClass::Blank);
    assert(t =~= stars + rest);
    assert forall|k: int| 0 <= k < n implies in_class(#[trigger] t[k], CharClass::One('*')) by {
        assert(t[k] == stars[k]);
    }
    assert(t[n as int] == rest[0]);
    lemma_lead_len(t, CharClass::One('*'), n as int);
    assert(t.skip(n as int) =~= rest);
    assert("*"@ =~= seq!['*']);
    if n == 1 {
        assert(stars =~= seq!['*']);
    }
}

proof fn lemma_ascii_bytes(s: Seq<char>)
    requires
        forall|k: int| 0 <= k < s.len() ==> #[trigger] s[k] <= '\u{7f}',
    ensures
        encode_utf8(s).len() == s.len(),
    decreases s.len(),
{
    if s.len() > 0 {
        let a = s.drop_last();
        assert forall|k: int| 0 <= k < a.len() implies #[trigger] a[k] <= '\u{7f}' by {
            assert(a[k] == s[k]);
        }
        lemma_ascii_bytes(a);
        assert(s[s.len() - 1] <= '\u{7f}');
        lemma_encode_ascii_char(s.last());
        lemma_encode_concat(a, seq![s.last()]);
        assert(s =~= a + seq![s.last()]);
    } else {
        crate::bytes::lemma_encode_len(s);
        assert(s =~= Seq::<char>::empty());
    }
}

/// The lines behind a kernel-doc tag hang under its text; where fewer than twenty-one columns
/// would be left for them they hang by four.
pub proof fn law_kernel_doc_text_hangs(name: Seq<char>, text: Seq<char>, effective: nat)
    requires
        name.len() > 0,
        forall|j: int| 0 <= j < name.len() ==> is_word_char(#[trigger] name[j]),
    ensures
        ({
            let s = seq!['@'] + name + seq![':', ' '] + text;
            let at = name.len() + 3;
            &&& hanging_indent(s, effective, DocFlavor::Doxygen) == if effective > at + 20 {
                at
            } else {
                4
            }
            &&& hanging_indent(s, effective, DocFlavor::Plain) == 0
        }),
{
    let s = seq!['@'] + name + seq![':', ' '] + text;
    let n = name.len() as int;
    assert(s[0] == '@');
    lemma_lead_len(s, CharClass::White, 0);
    assert(trimmed_start(s) =~= s);
    let rest = s.skip(1);
    assert forall|j: int| 0 <= j < n implies in_class(#[trigger] rest[j], CharClass::Word) by {
        assert(rest[j] == name[j]);
    }
    assert(rest[n] == ':');
    lemma_lead_len(rest, CharClass::Word, n);
    let more = rest.skip(n);
    assert(more[0] == ':');
    lemma_lead_len(more, CharClass::White, 0);
    assert(trimmed_start(more) =~= more);
    assert(kernel_doc_tag(s));
    assert forall|j: int| 0 <= j < n + 1 implies in_class(
        #[trigger] s[j],
        CharClass::NotOne(':'),
    ) by {
        if j > 0 {
            assert(s[j] == name[j - 1]);
        }
    }
    assert(s[n + 1] == ':');
    lemma_lead_len(s, CharClass::NotOne(':'), n + 1);
    let head = s.take(n + 2);
    assert forall|k: int| 0 <= k < head.len() implies #[trigger] head[k] <= '\u{7f}' by {
        if 0 < k <= n {
            assert(head[k] == name[k - 1]);
        }
    }
    lemma_ascii_bytes(head);
    assert(s.skip(n + 2)[0] == ' ');
    assert(kdoc_column(s) == name.len() + 3);
}

/// The text has neither spaces nor tabs.
pub open spec fn no_blanks(s: Seq<char>) -> bool {
    forall|k: int| 0 <= k < s.len() ==> #[trigger] s[k] != ' ' && s[k] != '\t'
}

/// Blanks between two texts become one space.
pub proof fn law_blanks_become_one_space(a: Seq<char>, run: Seq<char>, b: Seq<char>)
    requires
        no_blanks(a) && no_blanks(b),
        all_blank(run) && run.len() > 0,
    ensures
        spaces_collapsed(a + run + b) == a + seq![' '] + b,
        spaces_collapsed(a) == a,
    decreases b.len(),
{
    lemma_no_blanks(a);
    let s = a + run + b;
    if b.len() == 0 {
        lemma_trailing_blanks(a, run);
        assert(s =~= a + run);
        assert(a + seq![' '] + b =~= a + seq![' ']);
    } else {
        let c = b.drop_last();
        assert(no_blanks(c)) by {
            assert forall|k: int| 0 <= k < c.len() implies #[trigger] c[k] != ' ' && c[k] != '\t' by {
                assert(c[k] == b[k]);
            }
        }
        law_blanks_become_one_space(a, run, c);
        assert(s.drop_last() =~= a + run + c);
        assert(s.last() == b[b.len() - 1]);
        assert((a + seq![' '] + c).push(b.last()) =~= a + seq![' '] + b);
    }
}

proof fn lemma_no_blanks(a: Seq<char>)
    requires
        no_blanks(a),
    ensures
        spaces_collapsed(a) == a,
    decreases a.len(),
{
    if a.len() > 0 {
        let c = a.drop_last();
        assert forall|k: int| 0 <= k < c.len() implies #[trigger] c[k] != ' ' && c[k] != '\t' by {
            assert(c[k] == a[k]);
        }
        lemma_no_blanks(c);
        assert(a[a.len() - 1] != ' ' && a[a.len() - 1] != '\t');
        assert(c.push(a.last()) =~= a);
    }
}

proof fn lemma_trailing_blanks(a: Seq<char>, run: Seq<char>)
    requires
        no_blanks(a),
        all_blank(run) && run.len() > 0,
    ensures
        spaces_collapsed(a + run) == a + seq![' '],
    decreases run.len(),
{
    let s = a + run;
    lemma_no_blanks(a);
    assert(run[run.len() - 1] == ' ' || run[run.len() - 1] == '\t');
    assert(s.last() == run[run.len() - 1]);
    if run.len() == 1 {
        assert(s.drop_last() =~= a);
        if s.len() > 1 {
            assert(s[s.len() - 2] == a[a.len() - 1]);
        }
        assert(a.push(' ') =~= a + seq![' ']);
    } else {
        let r = run.drop_last();
        assert forall|k: int| 0 <= k < r.len() implies #[trigger] r[k] == ' ' || r[k] == '\t' by {
            assert(r[k] == run[k]);
        }
        lemma_trailing_blanks(a, r);
        assert(s.drop_last() =~= a + r);
        assert(s[s.len() - 2] == run[run.len() - 2]);
    }
}

} // verus!
