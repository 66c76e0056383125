//! The tree-sitter calls the linter makes: parsing, walking a syntax tree and running
//! queries. Everything here is a trusted wrapper; what it hands back is turned into plain
//! values by the verified code in `tree`.

use tree_sitter::{QueryErrorKind, StreamingIterator};
use vstd::prelude::*;

use crate::rules::Languages;

verus! {

/// A tree-sitter grammar.
#[verifier::external_type_specification]
#[verifier::external_body]
pub struct ExLanguage(tree_sitter::Language);

/// A parsed syntax tree.
#[verifier::external_type_specification]
#[verifier::external_body]
pub struct ExTree(tree_sitter::Tree);

/// A node of a syntax tree.
#[verifier::external_type_specification]
#[verifier::external_body]
pub struct ExNode<'tree>(tree_sitter::Node<'tree>);

/// A cursor walking a syntax tree.
#[verifier::external_type_specification]
#[verifier::external_body]
pub struct ExTreeCursor<'cursor>(tree_sitter::TreeCursor<'cursor>);

/// A compiled tree-sitter query.
#[verifier::external_type_specification]
#[verifier::external_body]
pub struct ExQuery(tree_sitter::Query);

/// Which of the linter's two grammars a tree was parsed with, or a query compiled for.
#[derive(Debug, Clone, Copy, PartialEq, Eq, Structural)]
pub enum Grammar {
    /// The Cypher grammar, `Languages::cypher`.
    Cypher,
    /// The doc-comment grammar, `Languages::cypherdoc`.
    CypherDoc,
}

/// A syntax tree together with the text and the grammar it was parsed from. Only the
/// parsing functions below make one, so the text is always the one the tree describes.
pub struct ParsedTree {
    tree: tree_sitter::Tree,
    text: String,
    grammar: Grammar,
}

impl ParsedTree {
    /// The text that was parsed.
    pub closed spec fn text(&self) -> Seq<char> {
        self.text@
    }

    /// The grammar the text was parsed with.
    pub closed spec fn grammar(&self) -> Grammar {
        self.grammar
    }

    /// The tree.
    pub fn tree(&self) -> &tree_sitter::Tree {
        &self.tree
    }

    /// The text that was parsed.
    pub fn text_str(&self) -> (r: &str)
        ensures
            r@ == self.text(),
    {
        self.text.as_str()
    }

    /// The grammar the text was parsed with.
    pub fn grammar_of(&self) -> (g: Grammar)
        ensures
            g == self.grammar(),
    {
        self.grammar
    }
}

/// Makes a parser, sets it to `languages.cypher` with `Parser::set_language`, and parses
/// `text` with `Parser::parse`, keeping the text and the grammar with the tree. `None`
/// when the grammar's ABI version is one this tree-sitter does not accept (or parsing
/// yields no tree); nothing is stated of the tree itself, which depends on the grammar.
#[verifier::external_body]
pub(crate) fn parse_cypher(languages: &Languages, text: &str) -> (r: Option<ParsedTree>)
    ensures
        r matches Some(p) ==> p.grammar() == Grammar::Cypher && p.text() == text@,
{
    let mut parser = tree_sitter::Parser::new();
    parser.set_language(&languages.cypher).ok()?;
    let tree = parser.parse(text, None)?;
    Some(ParsedTree { tree, text: text.to_string(), grammar: Grammar::Cypher })
}

/// As `parse_cypher`, with the doc-comment grammar `languages.cypherdoc`.
#[verifier::external_body]
pub(crate) fn parse_cypherdoc(languages: &Languages, text: &str) -> (r: Option<ParsedTree>)
    ensures
        r matches Some(p) ==> p.grammar() == Grammar::CypherDoc && p.text() == text@,
{
    let mut parser = tree_sitter::Parser::new();
    parser.set_language(&languages.cypherdoc).ok()?;
    let tree = parser.parse(text, None)?;
    Some(ParsedTree { tree, text: text.to_string(), grammar: Grammar::CypherDoc })
}

/// Calls `Tree::root_node`.
#[verifier::external_body]
pub(crate) fn root_node<'t>(t: &'t tree_sitter::Tree) -> (n: tree_sitter::Node<'t>) {
    t.root_node()
}

/// Calls `Node::descendant_count`: the number of nodes in the subtree, one of them for `n`
/// itself, so at least one.
#[verifier::external_body]
pub(crate) fn descendant_count(n: &tree_sitter::Node) -> (c: usize)
    ensures
        c >= 1,
{
    n.descendant_count()
}

/// Calls `Node::walk`: a cursor on `n` that stays within its subtree.
#[verifier::external_body]
pub(crate) fn walk<'t>(n: &tree_sitter::Node<'t>) -> (c: tree_sitter::TreeCursor<'t>) {
    n.walk()
}

/// Calls `TreeCursor::goto_descendant`: moves to the `i`-th node of the cursor's subtree
/// in pre-order, the subtree's root being number zero.
#[verifier::external_body]
pub(crate) fn goto_descendant(c: &mut tree_sitter::TreeCursor, i: usize) {
    c.goto_descendant(i)
}

/// Calls `TreeCursor::node`: the node the cursor is on.
#[verifier::external_body]
pub(crate) fn cursor_node<'t>(c: &tree_sitter::TreeCursor<'t>) -> (n: tree_sitter::Node<'t>) {
    c.node()
}

/// Calls `TreeCursor::depth`: how far below the cursor's root its node is.
#[verifier::external_body]
pub(crate) fn cursor_depth(c: &tree_sitter::TreeCursor) -> (d: u32) {
    c.depth()
}

/// Calls `Node::kind`: the grammar's name for the node's type.
#[verifier::external_body]
pub(crate) fn node_kind(n: &tree_sitter::Node) -> (k: &'static str) {
    n.kind()
}

/// Calls `Node::start_byte`.
#[verifier::external_body]
pub(crate) fn node_start_byte(n: &tree_sitter::Node) -> (b: usize) {
    n.start_byte()
}

/// Calls `Node::end_byte`.
#[verifier::external_body]
pub(crate) fn node_end_byte(n: &tree_sitter::Node) -> (b: usize) {
    n.end_byte()
}

/// Calls `Node::is_named`.
#[verifier::external_body]
pub(crate) fn node_is_named(n: &tree_sitter::Node) -> (b: bool) {
    n.is_named()
}

/// Calls `Node::is_error`: whether the node stands for a syntax error.
#[verifier::external_body]
pub(crate) fn node_is_error(n: &tree_sitter::Node) -> (b: bool) {
    n.is_error()
}

/// Calls `Node::is_missing`: whether the parser inserted the node to recover from an error.
#[verifier::external_body]
pub(crate) fn node_is_missing(n: &tree_sitter::Node) -> (b: bool) {
    n.is_missing()
}

/// Calls `Node::has_error`: whether the node is, or contains, a syntax error.
#[verifier::external_body]
pub(crate) fn node_has_error(n: &tree_sitter::Node) -> (b: bool) {
    n.has_error()
}

/// A parse tree written as an S-expression, with the text and grammar it was parsed
/// from. Only `tree_sexp` makes one.
pub struct TreeSexp {
    sexp: String,
    text: String,
    grammar: Grammar,
}

impl TreeSexp {
    /// The text the tree was parsed from.
    pub closed spec fn text(&self) -> Seq<char> {
        self.text@
    }

    /// The grammar the tree was parsed with.
    pub closed spec fn grammar(&self) -> Grammar {
        self.grammar
    }

    /// The S-expression.
    pub fn as_str(&self) -> &str {
        self.sexp.as_str()
    }
}

/// Calls `Node::to_sexp` on the root of `parsed`: the whole tree as an S-expression, kept
/// with copies of the text and grammar it was parsed from. Nothing is stated of the
/// S-expression itself: it depends on the grammar.
#[verifier::external_body]
pub(crate) fn tree_sexp(parsed: &ParsedTree) -> (r: TreeSexp)
    ensures
        r.text() == parsed.text(),
        r.grammar() == parsed.grammar(),
{
    TreeSexp { sexp: parsed.tree.root_node().to_sexp(), text: parsed.text.clone(), grammar: parsed.grammar }
}

/// What kind of mistake made a query fail to compile.
#[derive(Debug, Clone, Copy, PartialEq, Eq, Structural)]
pub enum QueryProblemKind {
    Syntax,
    NodeType,
    Field,
    Capture,
    Predicate,
    Structure,
    Language,
}

/// Why a query did not compile: where (zero-based row and column, and byte offset), what
/// kind of mistake, and tree-sitter's message.
pub struct QueryProblem {
    pub row: usize,
    pub column: usize,
    pub offset: usize,
    pub message: String,
    pub kind: QueryProblemKind,
}

/// Why a query did not compile, as tree-sitter reports it.
#[verifier::external_type_specification]
#[verifier::external_body]
pub struct ExQueryError(tree_sitter::QueryError);

/// A compiled query together with its source text and the grammar it was compiled for.
/// Only the compiling functions below make one.
pub struct CompiledQuery {
    query: tree_sitter::Query,
    source: String,
    grammar: Grammar,
}

impl CompiledQuery {
    /// The text the query was compiled from.
    pub closed spec fn source(&self) -> Seq<char> {
        self.source@
    }

    /// The grammar the query was compiled for.
    pub closed spec fn grammar(&self) -> Grammar {
        self.grammar
    }
}

/// Calls `Query::new`, compiling `source` for `languages.cypher`, and keeps the source and
/// the grammar with the query. Whether it compiles depends on the grammar, which Verus
/// cannot see into, so nothing is stated of the outcome.
#[verifier::external_body]
pub(crate) fn compile_cypher_query(languages: &Languages, source: &str) -> (r: Result<CompiledQuery, tree_sitter::QueryError>)
    ensures
        r matches Ok(q) ==> q.source() == source@ && q.grammar() == Grammar::Cypher,
{
    let query = tree_sitter::Query::new(&languages.cypher, source)?;
    Ok(CompiledQuery { query, source: source.to_string(), grammar: Grammar::Cypher })
}

/// As `compile_cypher_query`, for the doc-comment grammar `languages.cypherdoc`.
#[verifier::external_body]
pub(crate) fn compile_cypherdoc_query(languages: &Languages, source: &str) -> (r: Result<CompiledQuery, tree_sitter::QueryError>)
    ensures
        r matches Ok(q) ==> q.source() == source@ && q.grammar() == Grammar::CypherDoc,
{
    let query = tree_sitter::Query::new(&languages.cypherdoc, source)?;
    Ok(CompiledQuery { query, source: source.to_string(), grammar: Grammar::CypherDoc })
}

/// Moves the fields of a `QueryError` into a `QueryProblem`, one for one, its kind to the
/// variant of the same name. Nothing is stated of them: they are tree-sitter's.
#[verifier::external_body]
pub(crate) fn query_problem(e: tree_sitter::QueryError) -> (p: QueryProblem) {
    let kind = match e.kind {
        QueryErrorKind::Syntax => QueryProblemKind::Syntax,
        QueryErrorKind::NodeType => QueryProblemKind::NodeType,
        QueryErrorKind::Field => QueryProblemKind::Field,
        QueryErrorKind::Capture => QueryProblemKind::Capture,
        QueryErrorKind::Predicate => QueryProblemKind::Predicate,
        QueryErrorKind::Structure => QueryProblemKind::Structure,
        QueryErrorKind::Language => QueryProblemKind::Language,
    };
    QueryProblem { row: e.row, column: e.column, offset: e.offset, message: e.message, kind }
}

/// Where a list of query matches comes from: the source text and grammar of the query,
/// and the text and grammar of the tree it ran on.
pub struct MatchOrigin {
    pub query_source: Seq<char>,
    pub query_grammar: Grammar,
    pub text: Seq<char>,
    pub tree_grammar: Grammar,
}

/// The matches of one query on one tree, each as the byte ranges of its captures, with
/// the query's source and grammar and the tree's text and grammar. Only `query_matches`
/// makes one.
pub struct QueryMatches {
    spans: Vec<Vec<(usize, usize)>>,
    query_source: String,
    query_grammar: Grammar,
    text: String,
    tree_grammar: Grammar,
}

/// The record of where a list of matches comes from, and what it holds. Only
/// `QueryMatches::into_parts` makes one.
pub struct MatchTag {
    origin: Ghost<MatchOrigin>,
    spans: Ghost<Seq<Seq<(usize, usize)>>>,
}

impl MatchTag {
    /// Where the matches come from.
    pub closed spec fn origin(&self) -> MatchOrigin {
        self.origin@
    }

    /// The matches.
    pub closed spec fn spans(&self) -> Seq<Seq<(usize, usize)>> {
        self.spans@
    }
}

impl QueryMatches {
    /// Where the matches come from.
    pub closed spec fn origin(&self) -> MatchOrigin {
        MatchOrigin {
            query_source: self.query_source@,
            query_grammar: self.query_grammar,
            text: self.text@,
            tree_grammar: self.tree_grammar,
        }
    }

    /// The matches, each the byte ranges of its captures.
    pub closed spec fn spans(&self) -> Seq<Seq<(usize, usize)>> {
        self.spans@.map_values(|m: Vec<(usize, usize)>| m@)
    }

    /// The matches, and the record of where they come from.
    pub fn into_parts(self) -> (r: (Vec<Vec<(usize, usize)>>, MatchTag))
        ensures
            r.0@.map_values(|m: Vec<(usize, usize)>| m@) == self.spans(),
            r.1.origin() == self.origin(),
            r.1.spans() == self.spans(),
    {
        let tag = MatchTag { origin: Ghost(self.origin()), spans: Ghost(self.spans()) };
        (self.spans, tag)
    }
}

/// Calls `QueryCursor::matches` for `query` on the whole of the tree `parsed`, with the
/// very text it was parsed from, and hands out each match as the byte ranges of its
/// captures, in the order tree-sitter yields them, together with copies of the query's
/// source and grammar and of the tree's text and grammar. Nothing is stated of the matches
/// themselves: they depend on the grammar.
#[verifier::external_body]
pub(crate) fn query_matches(query: &CompiledQuery, parsed: &ParsedTree) -> (m: QueryMatches)
    ensures
        m.origin() == (MatchOrigin {
            query_source: query.source(),
            query_grammar: query.grammar(),
            text: parsed.text(),
            tree_grammar: parsed.grammar(),
        }),
{
    let mut cursor = tree_sitter::QueryCursor::new();
    let mut matches = cursor.matches(&query.query, parsed.tree.root_node(), parsed.text.as_bytes());
    let mut spans = Vec::new();
    while let Some(m) = matches.next() {
        spans.push(m.captures.iter().map(|c| (c.node.start_byte(), c.node.end_byte())).collect());
    }
    let (query_source, query_grammar) = (query.source.clone(), query.grammar);
    QueryMatches { spans, query_source, query_grammar, text: parsed.text.clone(), tree_grammar: parsed.grammar }
}

} // verus!
