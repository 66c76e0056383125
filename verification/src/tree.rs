//! Syntax trees as plain values: each node's type, byte range, depth and flags, in
//! pre-order. The linter's logic reads trees only through this form.

use vstd::prelude::*;

use crate::rules::Languages;
use crate::syntax::{
    cursor_depth, cursor_node, descendant_count, goto_descendant, node_end_byte, node_has_error,
    node_is_error, node_is_missing, node_is_named, node_kind, node_start_byte, parse_cypher,
    parse_cypherdoc, root_node, walk, Grammar, ParsedTree,
};

verus! {

/// One node of a syntax tree.
pub struct SyntaxNode {
    /// The grammar's name for the node's type.
    pub kind: String,
    pub start: usize,
    pub end: usize,
    /// How far below the root the node is; the root has depth zero.
    pub depth: u32,
    pub is_named: bool,
    /// Whether the node stands for a syntax error.
    pub is_error: bool,
    /// Whether the parser inserted the node to recover from a syntax error.
    pub is_missing: bool,
}

/// The value of a `SyntaxNode`.
pub struct NodeModel {
    pub kind: Seq<char>,
    pub start: usize,
    pub end: usize,
    pub depth: u32,
    pub is_named: bool,
    pub is_error: bool,
    pub is_missing: bool,
}

impl View for SyntaxNode {
    type V = NodeModel;

    open spec fn view(&self) -> NodeModel {
        NodeModel {
            kind: self.kind@,
            start: self.start,
            end: self.end,
            depth: self.depth,
            is_named: self.is_named,
            is_error: self.is_error,
            is_missing: self.is_missing,
        }
    }
}

/// A syntax tree: the grammar and the text it was parsed from, whether it holds a syntax
/// error anywhere, and its nodes in pre-order, the root first.
pub struct SyntaxTree {
    pub grammar: Grammar,
    pub text: String,
    pub has_error: bool,
    pub nodes: Vec<SyntaxNode>,
}

/// The value of a `SyntaxTree`.
pub struct TreeModel {
    pub grammar: Grammar,
    pub text: Seq<char>,
    pub has_error: bool,
    pub nodes: Seq<NodeModel>,
}

impl View for SyntaxTree {
    type V = TreeModel;

    open spec fn view(&self) -> TreeModel {
        TreeModel {
            grammar: self.grammar,
            text: self.text@,
            has_error: self.has_error,
            nodes: self.nodes@.map_values(|n: SyntaxNode| n@),
        }
    }
}

/// Parses `text` with the grammar `grammar` of `languages`; `None` when the parser does not
/// accept that grammar or yields no tree.
pub fn parse_source(languages: &Languages, grammar: Grammar, text: &str) -> (r: Option<ParsedTree>)
    ensures
        r matches Some(p) ==> p.grammar() == grammar && p.text() == text@,
{
    match grammar {
        Grammar::Cypher => parse_cypher(languages, text),
        Grammar::CypherDoc => parse_cypherdoc(languages, text),
    }
}

/// The plain form of a node.
fn read_node(n: &tree_sitter::Node, depth: u32) -> (r: SyntaxNode)
    ensures
        r.depth == depth,
{
    SyntaxNode {
        kind: String::from_str(node_kind(n)),
        start: node_start_byte(n),
        end: node_end_byte(n),
        depth,
        is_named: node_is_named(n),
        is_error: node_is_error(n),
        is_missing: node_is_missing(n),
    }
}

/// The plain form of a parsed tree: its grammar and text, and its nodes visited in
/// pre-order, the root first.
pub fn read_tree(p: &ParsedTree) -> (r: SyntaxTree)
    ensures
        r.nodes@.len() >= 1,
        r@.grammar == p.grammar(),
        r@.text == p.text(),
{
    let root = root_node(p.tree());
    let count = descendant_count(&root);
    let mut cursor = walk(&root);
    let mut nodes: Vec<SyntaxNode> = Vec::new();
    for i in 0..count
        invariant
            nodes@.len() == i,
    {
        goto_descendant(&mut cursor, i);
        let node = cursor_node(&cursor);
        let depth = cursor_depth(&cursor);
        nodes.push(read_node(&node, depth));
    }
    SyntaxTree { grammar: p.grammar_of(), text: String::from_str(p.text_str()), has_error: node_has_error(&root), nodes }
}

} // verus!
