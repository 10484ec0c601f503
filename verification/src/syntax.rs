//! Syntax trees as lists of nodes, and the parser that makes them.
//!
//! A tree is the list of its nodes in the order in which they open, each with
//! its depth. The node that follows a node is its first child exactly when it
//! lies one deeper.

use crate::language::Language;
use vstd::prelude::*;

verus! {

/// A parser of the tree-sitter library.
#[verifier::external_type_specification]
#[verifier::external_body]
pub struct ExParser(tree_sitter::Parser);

/// A syntax tree of the tree-sitter library.
#[verifier::external_type_specification]
#[verifier::external_body]
pub struct ExTree(tree_sitter::Tree);

/// A position in a syntax tree.
#[verifier::external_type_specification]
#[verifier::external_body]
pub struct ExTreeCursor<'tree>(tree_sitter::TreeCursor<'tree>);

/// Why a parser does not take a grammar.
#[verifier::external_type_specification]
#[verifier::external_body]
pub struct ExLanguageError(tree_sitter::LanguageError);

/// One node of a syntax tree.
pub struct SyntaxNode<'tree> {
    pub kind: &'tree str,
    pub start_byte: usize,
    pub end_byte: usize,
    pub depth: usize,
    /// The name under which the parent holds the node.
    pub field: Option<&'tree str>,
}

/// `SyntaxNode` over plain text.
pub ghost struct NodeText {
    pub kind: Seq<char>,
    pub start_byte: usize,
    pub end_byte: usize,
    pub depth: usize,
    pub field: Option<Seq<char>>,
}

impl<'tree> View for SyntaxNode<'tree> {
    type V = NodeText;

    open spec fn view(&self) -> NodeText {
        NodeText {
            kind: self.kind@,
            start_byte: self.start_byte,
            end_byte: self.end_byte,
            depth: self.depth,
            field: match self.field {
                Some(s) => Some(s@),
                None => None,
            },
        }
    }
}

pub open spec fn node_texts(v: Seq<SyntaxNode>) -> Seq<NodeText> {
    Seq::new(v.len(), |i: int| v[i]@)
}

/// The language whose grammar a parser has been given.
pub uninterp spec fn parser_grammar(p: tree_sitter::Parser) -> Option<Language>;

/// Whether a parser takes the grammar of a language, as `Parser::set_language`
/// finds it.
pub uninterp spec fn grammar_taken(lang: Language) -> bool;

/// The nodes of a tree, each ahead of its children.
pub uninterp spec fn tree_nodes(t: tree_sitter::Tree) -> Seq<NodeText>;

/// The nodes of the tree that a cursor moves in.
pub uninterp spec fn cursor_nodes(c: tree_sitter::TreeCursor) -> Seq<NodeText>;

/// The number of the node that a cursor is at.
pub uninterp spec fn cursor_at(c: tree_sitter::TreeCursor) -> int;

/// The nodes that the grammar of a language gives for a source, as
/// `Parser::parse` finds them; `None` where it gives no tree.
pub uninterp spec fn parsed(lang: Language, source: Seq<char>) -> Option<Seq<NodeText>>;

/// The list is that of a tree: one root, and no node more than one deeper than
/// the one before it.
pub open spec fn is_tree(nodes: Seq<NodeText>) -> bool {
    &&& nodes.len() > 0
    &&& nodes[0].depth == 0
    &&& forall|i: int|
        1 <= i < nodes.len() ==> 1 <= (#[trigger] nodes[i]).depth <= nodes[i - 1].depth + 1
}

/// Where the nodes below node `i` end, looking from `k` on.
pub open spec fn subtree_end(nodes: Seq<NodeText>, i: int, k: int) -> int
    decreases nodes.len() - k,
{
    if k < nodes.len() && nodes[k].depth > nodes[i].depth {
        subtree_end(nodes, i, k + 1)
    } else {
        k
    }
}

/// The node that holds node `i`: the last one before `k` that is less deep.
pub open spec fn parent_before(nodes: Seq<NodeText>, i: int, k: int) -> int
    decreases k,
{
    if k <= 0 {
        -1
    } else if nodes[k - 1].depth < nodes[i].depth {
        k - 1
    } else {
        parent_before(nodes, i, k - 1)
    }
}

/// `Parser::new`: a parser without a grammar.
#[verifier::external_body]
fn new_parser() -> (p: tree_sitter::Parser)
    ensures
        parser_grammar(p) is None,
{
    tree_sitter::Parser::new()
}

/// `Parser::set_language` with `tree_sitter_c::LANGUAGE`: on success the parser
/// reads C. Success depends on the grammar alone: on the version of its format,
/// and on whether it is made for parsing. What it comes to is left open.
#[verifier::external_body]
fn set_c(p: &mut tree_sitter::Parser) -> (r: Result<(), tree_sitter::LanguageError>)
    ensures
        r is Ok == grammar_taken(Language::C),
        r is Ok ==> parser_grammar(*final(p)) == Some(Language::C),
{
    p.set_language(&tree_sitter_c::LANGUAGE.into())
}

/// `Parser::set_language` with `tree_sitter_cpp::LANGUAGE`: on success the parser
/// reads C++. Success depends on the grammar alone: on the version of its format,
/// and on whether it is made for parsing. What it comes to is left open.
#[verifier::external_body]
fn set_cpp(p: &mut tree_sitter::Parser) -> (r: Result<(), tree_sitter::LanguageError>)
    ensures
        r is Ok == grammar_taken(Language::Cpp),
        r is Ok ==> parser_grammar(*final(p)) == Some(Language::Cpp),
{
    p.set_language(&tree_sitter_cpp::LANGUAGE.into())
}

/// `Parser::set_language` with `tree_sitter_rust::LANGUAGE`: on success the parser
/// reads Rust. Success depends on the grammar alone: on the version of its format,
/// and on whether it is made for parsing. What it comes to is left open.
#[verifier::external_body]
fn set_rust(p: &mut tree_sitter::Parser) -> (r: Result<(), tree_sitter::LanguageError>)
    ensures
        r is Ok == grammar_taken(Language::Rust),
        r is Ok ==> parser_grammar(*final(p)) == Some(Language::Rust),
{
    p.set_language(&tree_sitter_rust::LANGUAGE.into())
}

/// `Parser::set_language` with `tree_sitter_bash::LANGUAGE`: on success the parser
/// reads shell. Success depends on the grammar alone: on the version of its format,
/// and on whether it is made for parsing. What it comes to is left open.
#[verifier::external_body]
fn set_bash(p: &mut tree_sitter::Parser) -> (r: Result<(), tree_sitter::LanguageError>)
    ensures
        r is Ok == grammar_taken(Language::Shell),
        r is Ok ==> parser_grammar(*final(p)) == Some(Language::Shell),
{
    p.set_language(&tree_sitter_bash::LANGUAGE.into())
}

/// `Parser::parse` without an earlier tree: the parser keeps its grammar, and
/// the nodes it finds depend on the grammar and the source alone. Which nodes
/// those are is left open.
#[verifier::external_body]
fn parse_source(p: &mut tree_sitter::Parser, source: &str) -> (r: Option<tree_sitter::Tree>)
    requires
        parser_grammar(*old(p)) is Some,
    ensures
        parser_grammar(*final(p)) == parser_grammar(*old(p)),
        (match r {
            Some(t) => parsed(parser_grammar(*old(p))->0, source@) == Some(tree_nodes(t)),
            None => parsed(parser_grammar(*old(p))->0, source@) is None,
        }),
{
    p.parse(source, None)
}

/// `Tree::walk`: a cursor at the root of the tree. The nodes of a tree, each
/// ahead of its children, are listed as `is_tree` says.
#[verifier::external_body]
fn walk_tree<'a>(t: &'a tree_sitter::Tree) -> (c: tree_sitter::TreeCursor<'a>)
    ensures
        cursor_nodes(c) == tree_nodes(*t),
        cursor_at(c) == 0,
        is_tree(cursor_nodes(c)),
{
    t.walk()
}

/// `TreeCursor::goto_first_child`: moves to the next node when that is a child.
#[verifier::external_body]
fn to_first_child(c: &mut tree_sitter::TreeCursor) -> (r: bool)
    ensures
        cursor_nodes(*final(c)) == cursor_nodes(*old(c)),
        ({
            let nodes = cursor_nodes(*old(c));
            let i = cursor_at(*old(c));
            &&& r == (i + 1 < nodes.len() && nodes[i + 1].depth == nodes[i].depth + 1)
            &&& cursor_at(*final(c)) == if r {
                i + 1
            } else {
                i
            }
        }),
{
    c.goto_first_child()
}

/// `TreeCursor::goto_next_sibling`: moves past the nodes below the current one
/// when a node of the same depth follows there.
#[verifier::external_body]
fn to_next_sibling(c: &mut tree_sitter::TreeCursor) -> (r: bool)
    ensures
        cursor_nodes(*final(c)) == cursor_nodes(*old(c)),
        ({
            let nodes = cursor_nodes(*old(c));
            let i = cursor_at(*old(c));
            let e = subtree_end(nodes, i, i + 1);
            &&& r == (e < nodes.len() && nodes[e].depth == nodes[i].depth)
            &&& cursor_at(*final(c)) == if r {
                e
            } else {
                i
            }
        }),
{
    c.goto_next_sibling()
}

/// `TreeCursor::goto_parent`: moves to the node that holds the current one; the
/// root has none.
#[verifier::external_body]
fn to_parent(c: &mut tree_sitter::TreeCursor) -> (r: bool)
    ensures
        cursor_nodes(*final(c)) == cursor_nodes(*old(c)),
        ({
            let nodes = cursor_nodes(*old(c));
            let i = cursor_at(*old(c));
            &&& r == (i > 0)
            &&& cursor_at(*final(c)) == if r {
                parent_before(nodes, i, i)
            } else {
                i
            }
        }),
{
    c.goto_parent()
}

/// `TreeCursor::node`, `TreeCursor::field_name` and `TreeCursor::depth`: the
/// current node.
#[verifier::external_body]
fn current_node<'tree>(c: &tree_sitter::TreeCursor<'tree>) -> (n: SyntaxNode<'tree>)
    ensures
        n@ == cursor_nodes(*c)[cursor_at(*c)],
{
    let node = c.node();
    SyntaxNode {
        kind: node.kind(),
        start_byte: node.start_byte(),
        end_byte: node.end_byte(),
        depth: c.depth() as usize,
        field: c.field_name(),
    }
}


proof fn lemma_subtree_end(nodes: Seq<NodeText>, i: int, k: int)
    requires
        0 <= i < k <= nodes.len(),
    ensures
        k <= subtree_end(nodes, i, k) <= nodes.len(),
        forall|j: int| k <= j < subtree_end(nodes, i, k) ==> (#[trigger] nodes[j]).depth > nodes[i].depth,
        subtree_end(nodes, i, k) < nodes.len() ==> nodes[subtree_end(nodes, i, k)].depth
            <= nodes[i].depth,
    decreases nodes.len() - k,
{
    if k < nodes.len() && nodes[k].depth > nodes[i].depth {
        lemma_subtree_end(nodes, i, k + 1);
    }
}

/// Everything from `k` up to `e` lies below node `i`, and `e` does not.
proof fn lemma_subtree_end_is(nodes: Seq<NodeText>, i: int, k: int, e: int)
    requires
        0 <= i < k <= e <= nodes.len(),
        forall|j: int| k <= j < e ==> (#[trigger] nodes[j]).depth > nodes[i].depth,
        e == nodes.len() || nodes[e].depth <= nodes[i].depth,
    ensures
        subtree_end(nodes, i, k) == e,
    decreases e - k,
{
    if k < e {
        lemma_subtree_end_is(nodes, i, k + 1, e);
    }
}

proof fn lemma_parent(nodes: Seq<NodeText>, i: int, k: int)
    requires
        is_tree(nodes),
        0 < i < nodes.len(),
        0 < k <= i,
        forall|j: int| k <= j < i ==> (#[trigger] nodes[j]).depth >= nodes[i].depth,
    ensures
        0 <= parent_before(nodes, i, k) < k,
        nodes[parent_before(nodes, i, k)].depth < nodes[i].depth,
        forall|j: int|
            parent_before(nodes, i, k) < j < i ==> (#[trigger] nodes[j]).depth >= nodes[i].depth,
    decreases k,
{
    assert(nodes[i].depth >= 1);
    if nodes[k - 1].depth >= nodes[i].depth {
        assert(k - 1 > 0);
        lemma_parent(nodes, i, k - 1);
    }
}

/// The parent lies exactly one less deep.
proof fn lemma_parent_depth(nodes: Seq<NodeText>, i: int, p: int)
    requires
        is_tree(nodes),
        0 <= p < i < nodes.len(),
        nodes[p].depth < nodes[i].depth,
        forall|j: int| p < j < i ==> (#[trigger] nodes[j]).depth >= nodes[i].depth,
    ensures
        nodes[p].depth + 1 == nodes[i].depth,
{
    assert(nodes[p + 1].depth <= nodes[p + 1 - 1].depth + 1);
    if p + 1 < i {
        assert(nodes[p + 1].depth >= nodes[i].depth);
    }
}

/// Lists the nodes of a tree.
pub(crate) fn list_nodes<'tree>(tree: &'tree tree_sitter::Tree) -> (r: Vec<SyntaxNode<'tree>>)
    ensures
        node_texts(r@) == tree_nodes(*tree),
        is_tree(node_texts(r@)),
{
    let mut c = walk_tree(tree);
    let ghost nodes = tree_nodes(*tree);
    let mut out: Vec<SyntaxNode<'tree>> = Vec::new();
    let first = current_node(&c);
    out.push(first);
    assert(node_texts(out@) =~= nodes.take(1));
    loop
        invariant
            is_tree(nodes),
            nodes == tree_nodes(*tree),
            cursor_nodes(c) == nodes,
            0 <= cursor_at(c) < nodes.len(),
            out.len() == cursor_at(c) + 1,
            node_texts(out@) == nodes.take(out.len() as int),
        decreases nodes.len() - out.len(),
    {
        if to_first_child(&mut c) {
            let n = current_node(&c);
            let ghost before = node_texts(out@);
            out.push(n);
            assert(node_texts(out@) =~= before.push(n@));
            assert(node_texts(out@) =~= nodes.take(out.len() as int));
            continue;
        }
        let ghost len = out.len() as int;
        proof {
            let i = cursor_at(c);
            if len < nodes.len() {
                assert(nodes[len].depth <= nodes[len - 1].depth + 1);
            }
            lemma_subtree_end_is(nodes, i, i + 1, len);
        }
        let mut moved = to_next_sibling(&mut c);
        while !moved
            invariant
                is_tree(nodes),
                cursor_nodes(c) == nodes,
                len == out.len(),
                node_texts(out@) == nodes.take(len),
                nodes == tree_nodes(*tree),
                1 <= len <= nodes.len(),
                0 <= cursor_at(c) < nodes.len(),
                moved ==> cursor_at(c) == len && len < nodes.len(),
                !moved ==> cursor_at(c) < len && subtree_end(
                    nodes,
                    cursor_at(c),
                    cursor_at(c) + 1,
                ) == len && (len == nodes.len() || nodes[len].depth < nodes[cursor_at(c)].depth),
            decreases (if moved {
                0
            } else {
                cursor_at(c) + 1
            }),
        {
            let ghost i = cursor_at(c);
            proof {
                lemma_subtree_end(nodes, i, i + 1);
                if i > 0 {
                    lemma_parent(nodes, i, i);
                    let p = parent_before(nodes, i, i);
                    lemma_parent_depth(nodes, i, p);
                    assert forall|j: int| p + 1 <= j < len implies (#[trigger] nodes[j]).depth
                        > nodes[p].depth by {
                        if j > i {
                            assert(nodes[j].depth > nodes[i].depth);
                        }
                    }
                    lemma_subtree_end_is(nodes, p, p + 1, len);
                }
            }
            if !to_parent(&mut c) {
                proof {
                    if len < nodes.len() {
                        assert(nodes[len].depth >= 1);
                    }
                    assert(nodes.take(len) =~= nodes);
                }
                return out;
            }
            moved = to_next_sibling(&mut c);
        }
        let n = current_node(&c);
        let ghost before = node_texts(out@);
        out.push(n);
        assert(node_texts(out@) =~= before.push(n@));
        assert(node_texts(out@) =~= nodes.take(out.len() as int));
    }
}


/// Why a source has no syntax tree.
#[derive(Debug, Clone, Copy, PartialEq, Eq, Structural)]
pub enum SyntaxError {
    /// The parser does not take the language's grammar.
    Grammar,
    /// The parser gives no tree.
    NoTree,
}

/// There are parsers for the language: it has a grammar, and a parser takes it.
pub open spec fn parseable(lang: Language) -> bool {
    lang != Language::Asm && grammar_taken(lang)
}

/// A parser that reads `lang`.
fn make_parser(lang: Language) -> (r: Option<tree_sitter::Parser>)
    ensures
        r is Some == parseable(lang),
        r is Some ==> parser_grammar(r->0) == Some(lang),
{
    let mut p = new_parser();
    let set = match lang {
        Language::C => set_c(&mut p),
        Language::Cpp => set_cpp(&mut p),
        Language::Rust => set_rust(&mut p),
        Language::Shell => set_bash(&mut p),
        Language::Asm => {
            return None;
        },
    };
    match set {
        Ok(_) => Some(p),
        Err(_) => None,
    }
}

/// The parsers made so far, one for each language that has a grammar. A parser
/// is made when its language first turns up, and kept for further files.
pub struct ParserPool {
    c: Option<tree_sitter::Parser>,
    cpp: Option<tree_sitter::Parser>,
    rust: Option<tree_sitter::Parser>,
    shell: Option<tree_sitter::Parser>,
}

impl ParserPool {
    /// The parser that is kept for a language.
    pub closed spec fn slot(&self, lang: Language) -> Option<tree_sitter::Parser> {
        match lang {
            Language::C => self.c,
            Language::Cpp => self.cpp,
            Language::Rust => self.rust,
            Language::Shell => self.shell,
            Language::Asm => None,
        }
    }

    /// A parser is kept for the language.
    pub open spec fn holds(&self, lang: Language) -> bool {
        self.slot(lang) is Some
    }

    /// Every parser reads the language that it is kept for.
    pub open spec fn wf(&self) -> bool {
        forall|lang: Language|
            (#[trigger] self.slot(lang)) is Some ==> parseable(lang) && parser_grammar(
                self.slot(lang)->0,
            ) == Some(lang)
    }

    /// The pool is what `before` becomes when a source in `lang` is parsed: it
    /// has a parser for that language if there can be one, and the parsers for
    /// other languages are those it had.
    pub open spec fn used(&self, before: ParserPool, lang: Language) -> bool {
        &&& self.holds(lang) == parseable(lang)
        &&& forall|other: Language|
            other != lang ==> #[trigger] self.slot(other) == before.slot(other)
    }

    /// A pool without parsers.
    pub fn new() -> (r: ParserPool)
        ensures
            r.wf(),
            forall|lang: Language| !#[trigger] r.holds(lang),
    {
        ParserPool { c: None, cpp: None, rust: None, shell: None }
    }

    /// Takes the parser for a language out of the pool.
    fn take(&mut self, lang: Language) -> (r: Option<tree_sitter::Parser>)
        requires
            old(self).wf(),
        ensures
            final(self).wf(),
            r == old(self).slot(lang),
            forall|l: Language| #[trigger]
                final(self).slot(l) == if l == lang {
                    None
                } else {
                    old(self).slot(l)
                },
            r is Some ==> parser_grammar(r->0) == Some(lang),
    {
        let r = match lang {
            Language::C => self.c.take(),
            Language::Cpp => self.cpp.take(),
            Language::Rust => self.rust.take(),
            Language::Shell => self.shell.take(),
            Language::Asm => None,
        };
        assert(forall|l: Language| l != lang ==> #[trigger] self.slot(l) == old(self).slot(l));
        r
    }

    /// Keeps a parser for a language that has a grammar.
    fn put(&mut self, lang: Language, p: tree_sitter::Parser)
        requires
            old(self).wf(),
            parser_grammar(p) == Some(lang),
        ensures
            forall|l: Language| #[trigger]
                final(self).slot(l) == if l == lang && l != Language::Asm {
                    Some(p)
                } else {
                    old(self).slot(l)
                },
            grammar_taken(lang) ==> final(self).wf(),
    {
        match lang {
            Language::C => {
                self.c = Some(p);
            },
            Language::Cpp => {
                self.cpp = Some(p);
            },
            Language::Rust => {
                self.rust = Some(p);
            },
            Language::Shell => {
                self.shell = Some(p);
            },
            Language::Asm => {},
        }
        assert(forall|l: Language| l != lang ==> #[trigger] self.slot(l) == old(self).slot(l));
    }

    /// The syntax tree of a source.
    pub(crate) fn parse(&mut self, source: &str, lang: Language) -> (r: Result<
        tree_sitter::Tree,
        SyntaxError,
    >)
        requires
            old(self).wf(),
        ensures
            final(self).wf(),
            final(self).used(*old(self), lang),
            (match r {
                Ok(t) => parseable(lang) && parsed(lang, source@) == Some(tree_nodes(t)),
                Err(SyntaxError::NoTree) => parseable(lang) && parsed(lang, source@) is None,
                Err(SyntaxError::Grammar) => !parseable(lang),
            }),
    {
        let parser = match self.take(lang) {
            Some(p) => Some(p),
            None => make_parser(lang),
        };
        match parser {
            None => Err(SyntaxError::Grammar),
            Some(p) => {
                let mut p = p;
                let tree = parse_source(&mut p, source);
                self.put(lang, p);
                match tree {
                    Some(t) => Ok(t),
                    None => Err(SyntaxError::NoTree),
                }
            },
        }
    }
}

impl Default for ParserPool {
    fn default() -> (r: ParserPool)
        ensures
            r.wf(),
            forall|lang: Language| !#[trigger] r.holds(lang),
    {
        ParserPool::new()
    }
}

} // verus!
