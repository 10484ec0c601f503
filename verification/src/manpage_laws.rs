//! Manual-page sections in a block become a description and a sentence.

use crate::linekind::LineKind;
use crate::manpage::{
    heading, page, page_lines, page_step, return_description, section_of, without_trailing_empty,
    Section,
};
use crate::shape_laws::lemma_prefixed;
use crate::text::{
    all_in, has_prefix, has_suffix, in_class, joined, less_suffix, lowered, words_of, CharClass,
};
use vstd::prelude::*;

verus! {

/// The names of the section on what is given back.
pub open spec fn names_return(h: Seq<char>) -> bool {
    h == "RETURN"@ || h == "RETURNS"@ || h == "RETURN VALUE"@ || h == "RETURN VALUES"@
}

/// The segment is the name, with or without a colon.
pub open spec fn is_heading_for(seg: Seq<char>, name: Seq<char>) -> bool {
    seg == name || seg == name + seq![':']
}

proof fn lemma_without_colon(name: Seq<char>)
    requires
        name.len() > 0 && name.last() != ':',
    ensures
        less_suffix(name + seq![':'], ":"@) == name,
        less_suffix(name, ":"@) == name,
{
    reveal_strlit(":");
    let s = name + seq![':'];
    assert(s.subrange(s.len() - 1, s.len() as int) =~= ":"@);
    assert(s.take(s.len() - 1) =~= name);
    if has_suffix(name, ":"@) {
        assert(name.subrange(name.len() - 1, name.len() as int)[0] == name.last());
    }
}

proof fn lemma_return_heading(seg: Seq<char>, name: Seq<char>)
    requires
        names_return(name),
        is_heading_for(seg, name),
    ensures
        heading(seg),
        section_of(seg) == Some(Section::Return),
        seg.len() > 0,
{
    reveal_strlit("RETURN");
    reveal_strlit("RETURNS");
    reveal_strlit("RETURN VALUE");
    reveal_strlit("RETURN VALUES");
    reveal_strlit("DESCRIPTION");
    assert("DESCRIPTION"@.len() == 11 && "DESCRIPTION"@[0] == 'D');
    assert(name[0] == 'R');
    lemma_without_colon(name);
    assert(in_class(name[0], CharClass::Capital));
    assert(all_in(name, CharClass::CapitalOrSpace));
}

proof fn lemma_description_heading(seg: Seq<char>)
    requires
        is_heading_for(seg, "DESCRIPTION"@),
    ensures
        heading(seg),
        section_of(seg) == Some(Section::Description),
        seg.len() > 0,
{
    reveal_strlit("DESCRIPTION");
    let name = "DESCRIPTION"@;
    lemma_without_colon(name);
    assert(in_class(name[0], CharClass::Capital));
    assert(all_in(name, CharClass::CapitalOrSpace));
}

/// Text is no heading when a small letter is in it.
proof fn lemma_text_is_no_heading(s: Seq<char>, k: int)
    requires
        0 <= k < s.len(),
        'a' <= s[k] <= 'z',
    ensures
        !heading(s),
{
    reveal_strlit(":");
    let name = less_suffix(s, ":"@);
    if has_suffix(s, ":"@) {
        assert(s.subrange(s.len() - 1, s.len() as int)[0] == s.last());
        assert(k < s.len() - 1);
    }
    assert(name[k] == s[k]);
    assert(!in_class(name[k], CharClass::CapitalOrSpace));
}

/// A text that does not start with an `r` is given back as it is.
proof fn lemma_own_words(s: Seq<char>)
    requires
        s.len() > 0,
        s[0] != 'R' && s[0] != 'r',
    ensures
        return_description(s) == s,
{
    reveal_strlit("Returns ");
    reveal_strlit("Return ");
    reveal_strlit("returns ");
    reveal_strlit("return ");
    reveal_strlit("returns");
    reveal_strlit("return");
    if has_prefix(s, "Returns "@) {
        assert(s.subrange(0, 8)[0] == s[0]);
    }
    if has_prefix(s, "Return "@) {
        assert(s.subrange(0, 7)[0] == s[0]);
    }
    if has_prefix(s, "returns "@) {
        assert(s.subrange(0, 8)[0] == s[0]);
    }
    if has_prefix(s, "return "@) {
        assert(s.subrange(0, 7)[0] == s[0]);
    }
    assert(lowered(s)[0] == crate::text::lower_char(s[0]));
    assert("returns"@[0] == 'r' && "return"@[0] == 'r');
    assert(lowered(s)[0] != 'r') by {
        let c = s[0];
        if 'A' <= c <= 'Z' {
            assert((c as u32 + 32) as char == 'r' ==> c as u32 == 82);
        }
    }
}

/// A word for giving back that the text starts with already is not said twice.
pub proof fn law_return_is_said_once(w: Seq<char>, x: Seq<char>)
    requires
        w == "Return "@ || w == "Returns "@ || w == "return "@ || w == "returns "@,
        x.len() > 0,
        x[0] != 'R' && x[0] != 'r' && x[0] != 's',
    ensures
        return_description(w + x) == x,
        return_description(x) == x,
        return_description("Returns"@).len() == 0,
        return_description("Return"@).len() == 0,
        return_description("returns"@).len() == 0,
        return_description("return"@).len() == 0,
{
    let s = w + x;
    lemma_prefixed(w, x);
    lemma_own_words(x);
    reveal_strlit("Returns ");
    reveal_strlit("Return ");
    reveal_strlit("returns ");
    reveal_strlit("return ");
    reveal_strlit("returns");
    reveal_strlit("return");
    reveal_strlit("Returns");
    reveal_strlit("Return");
    if has_prefix(s, "Returns "@) {
        assert(s.subrange(0, 8)[0] == s[0] && s.subrange(0, 8)[6] == s[6]);
    }
    if has_prefix(s, "Return "@) {
        assert(s.subrange(0, 7)[0] == s[0] && s.subrange(0, 7)[6] == s[6]);
    }
    if has_prefix(s, "returns "@) {
        assert(s.subrange(0, 8)[0] == s[0] && s.subrange(0, 8)[6] == s[6]);
    }
    if has_prefix(s, "return "@) {
        assert(s.subrange(0, 7)[0] == s[0] && s.subrange(0, 7)[6] == s[6]);
    }
    assert(s[0] == w[0] && s[6] == w[6]);
    assert(lowered("Returns"@) =~= "returns"@);
    assert(lowered("Return"@) =~= "return"@);
    assert(lowered("returns"@) =~= "returns"@);
    assert(lowered("return"@) =~= "return"@);
    lemma_too_short("Returns"@);
    lemma_too_short("Return"@);
    lemma_too_short("returns"@);
    lemma_too_short("return"@);
}

proof fn lemma_too_short(s: Seq<char>)
    requires
        s == "Returns"@ || s == "Return"@ || s == "returns"@ || s == "return"@,
    ensures
        !has_prefix(s, "Returns "@) && !has_prefix(s, "Return "@) && !has_prefix(s, "returns "@)
            && !has_prefix(s, "return "@),
{
    reveal_strlit("Returns ");
    reveal_strlit("Return ");
    reveal_strlit("returns ");
    reveal_strlit("return ");
    reveal_strlit("returns");
    reveal_strlit("return");
    reveal_strlit("Returns");
    reveal_strlit("Return");
    if has_prefix(s, "Return "@) {
        assert(s.subrange(0, 7)[6] == s[6]);
    }
    if has_prefix(s, "return "@) {
        assert(s.subrange(0, 7)[6] == s[6]);
    }
}

/// A description and a section on what is given back, in either order: the block says the
/// description, leaves a line empty and says what is returned.
#[verifier::spinoff_prover]
#[verifier::rlimit(40)]
pub proof fn law_sections_become_a_sentence(
    h: Seq<char>,
    d: Seq<char>,
    k: int,
    g: Seq<char>,
    name: Seq<char>,
    r: Seq<char>,
    m: int,
    had_crlf: bool,
    swapped: bool,
)
    requires
        is_heading_for(h, "DESCRIPTION"@),
        names_return(name) && is_heading_for(g, name),
        0 <= k < d.len() && 'a' <= d[k] <= 'z',
        0 <= m < r.len() && 'a' <= r[m] <= 'z',
        joined(words_of(r), " "@).len() > 0,
        joined(words_of(r), " "@)[0] != 'R' && joined(words_of(r), " "@)[0] != 'r',
    ensures
        ({
            let segs = if swapped {
                seq![g, r, h, d]
            } else {
                seq![h, d, g, r]
            };
            let p = page_lines(segs, had_crlf);
            &&& p is Some
            &&& (p->0).len() == 3
            &&& (p->0)[0].text == d && (p->0)[0].kind == LineKind::Prose
            &&& (p->0)[1].text.len() == 0 && (p->0)[1].kind == LineKind::Blank
            &&& (p->0)[2].text == "Return "@ + joined(words_of(r), " "@)
            &&& (p->0)[2].kind == LineKind::Prose
        }),
{
    let segs = if swapped {
        seq![g, r, h, d]
    } else {
        seq![h, d, g, r]
    };
    lemma_description_heading(h);
    lemma_return_heading(g, name);
    lemma_text_is_no_heading(d, k);
    lemma_text_is_no_heading(r, m);
    lemma_own_words(joined(words_of(r), " "@));
    let p0 = page(segs, 0);
    let p1 = page(segs, 1);
    let p2 = page(segs, 2);
    let p3 = page(segs, 3);
    let p4 = page(segs, 4);
    assert(p1 == page_step(p0, segs[0]));
    assert(p2 == page_step(p1, segs[1]));
    assert(p3 == page_step(p2, segs[2]));
    assert(p4 == page_step(p3, segs[3]));
    let none = Seq::<Seq<char>>::empty();
    assert(none.push(d) =~= seq![d]);
    assert(none + words_of(r) =~= words_of(r));
    assert(p4.description =~= seq![d]);
    assert(p4.words =~= words_of(r));
    assert(without_trailing_empty(seq![d]) == seq![d]);
}

/// A block with another section, or with text in front of all sections, is left as it is.
pub proof fn law_other_sections_stay(segs: Seq<Seq<char>>, i: int, had_crlf: bool)
    requires
        0 <= i < segs.len(),
        ({
            let s = segs[i];
            ||| {
                &&& 0 < s.len() <= 24
                &&& 'A' <= s[0] <= 'Z'
                &&& forall|k: int| 0 <= k < s.len() ==> 'A' <= #[trigger] s[k] <= 'Z'
                &&& s != "DESCRIPTION"@ && !names_return(s)
            }
            ||| i == 0 && s.len() > 0 && 'a' <= s[0] <= 'z'
        }),
    ensures
        page_lines(segs, had_crlf) is None,
{
    let s = segs[i];
    if 'A' <= s[0] <= 'Z' {
        assert(s.last() == s[s.len() - 1]);
        lemma_without_colon(s);
        assert(in_class(s[0], CharClass::Capital));
        assert forall|k: int| 0 <= k < s.len() implies in_class(
            #[trigger] s[k],
            CharClass::CapitalOrSpace,
        ) by {}
        assert(heading(s));
    } else {
        lemma_text_is_no_heading(s, 0);
        assert(page(segs, 0).current is None);
    }
    assert(page(segs, i + 1).foreign);
    lemma_stays_foreign(segs, i + 1, segs.len() as int);
}

proof fn lemma_stays_foreign(segs: Seq<Seq<char>>, i: int, n: int)
    requires
        0 < i <= n <= segs.len(),
        page(segs, i).foreign,
    ensures
        page(segs, n).foreign,
    decreases n - i,
{
    if i < n {
        lemma_stays_foreign(segs, i, n - 1);
    }
}

} // verus!
