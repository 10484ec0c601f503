//! Comment styles and documentation flavours.

use crate::language::Language;
use crate::text::{has_prefix, starts_with};
use crate::textline::{block_is_doc, opens_doc_block};
use vstd::prelude::*;

verus! {

/// How a comment is delimited.
#[derive(Debug, Clone, Copy, PartialEq, Eq, Structural)]
pub enum Style {
    Line,
    DocLine,
    Block,
    DocBlock,
}

/// Which documentation tool reads a comment.
#[derive(Debug, Clone, Copy, PartialEq, Eq, Structural)]
pub enum DocFlavor {
    /// None: an ordinary comment.
    Plain,
    Doxygen,
    Rustdoc,
}

#[derive(Debug, Clone, Copy, PartialEq, Eq, Structural)]
pub struct Kind {
    pub style: Style,
    pub flavor: DocFlavor,
}

/// The style that a comment's opener shows.
pub open spec fn style_of(text: Seq<char>) -> Style {
    if has_prefix(text, "///"@) || has_prefix(text, "//!"@) {
        Style::DocLine
    } else if opens_doc_block(text) {
        Style::DocBlock
    } else if has_prefix(text, "/*"@) {
        Style::Block
    } else {
        Style::Line
    }
}

pub fn classify_style(text: &str) -> (r: Style)
    ensures
        r == style_of(text@),
{
    if starts_with(text, "///") || starts_with(text, "//!") {
        Style::DocLine
    } else if block_is_doc(text) {
        Style::DocBlock
    } else if starts_with(text, "/*") {
        Style::Block
    } else {
        Style::Line
    }
}

/// Documentation comments are read by Rustdoc in Rust and by Doxygen in C and
/// C++.
pub open spec fn flavor_of(style: Style, lang: Language) -> DocFlavor {
    if style != Style::DocLine && style != Style::DocBlock {
        DocFlavor::Plain
    } else if lang == Language::Rust {
        DocFlavor::Rustdoc
    } else if lang.is_c_like() {
        DocFlavor::Doxygen
    } else {
        DocFlavor::Plain
    }
}

pub open spec fn kind_of(text: Seq<char>, lang: Language) -> Kind {
    Kind { style: style_of(text), flavor: flavor_of(style_of(text), lang) }
}

pub fn classify(text: &str, lang: Language) -> (r: Kind)
    ensures
        r == kind_of(text@, lang),
{
    let style = classify_style(text);
    let flavor = if style != Style::DocLine && style != Style::DocBlock {
        DocFlavor::Plain
    } else if lang == Language::Rust {
        DocFlavor::Rustdoc
    } else if lang.c_like() {
        DocFlavor::Doxygen
    } else {
        DocFlavor::Plain
    };
    Kind { style, flavor }
}

} // verus!
