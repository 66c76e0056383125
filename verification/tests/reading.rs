use cypher::analysis::{
    check_reading, collect_error_nodes, collect_pairs, diagnostics_from_reading, DocReading, PairReading,
    SourceReading,
};
use cypher::diagnostics::Severity;
use cypher::rules::Rule;
use cypher::syntax::Grammar;
use cypher::tree::{SyntaxNode, SyntaxTree};

fn node(kind: &str, start: usize, end: usize, depth: u32, is_named: bool) -> SyntaxNode {
    SyntaxNode {
        kind: kind.to_string(),
        start,
        end,
        depth,
        is_named,
        is_error: false,
        is_missing: false,
    }
}

fn error_node(start: usize, end: usize, depth: u32) -> SyntaxNode {
    SyntaxNode { is_error: true, ..node("ERROR", start, end, depth, true) }
}

fn missing_node(kind: &str, at: usize, depth: u32) -> SyntaxNode {
    SyntaxNode { is_missing: true, ..node(kind, at, at, depth, true) }
}

// "/** hello */\nMATCH (n) RETURN n"
const SOURCE: &str = "/** hello */\nMATCH (n) RETURN n";

fn source_tree() -> SyntaxTree {
    SyntaxTree {
        grammar: Grammar::Cypher,
        text: SOURCE.to_string(),
        has_error: false,
        nodes: vec![
            node("source_file", 0, 31, 0, true),
            node("doc_comment", 0, 12, 1, true),
            node("statement", 13, 31, 1, true),
            node("match_clause", 13, 22, 2, true),
        ],
    }
}

fn doc_tree(children: Vec<SyntaxNode>) -> SyntaxTree {
    let mut nodes = vec![node("document", 0, 12, 0, true)];
    nodes.extend(children);
    SyntaxTree { grammar: Grammar::CypherDoc, text: "/** hello */".to_string(), has_error: false, nodes }
}

fn reading(doc: SyntaxTree) -> SourceReading {
    SourceReading {
        tree: source_tree(),
        rule_matches: Vec::new(),
        match_tags: Vec::new(),
        pairs: vec![PairReading { doc: Some(DocReading { tree: doc, rule_matches: Vec::new(), match_tags: Vec::new() }), used_matches: Vec::new(), used_tag: None }],
    }
}

#[test]
fn statements_are_paired_with_their_doc_comments() {
    let t = SyntaxTree {
        grammar: Grammar::Cypher,
        text: String::new(),
        has_error: false,
        nodes: vec![
            node("source_file", 0, 60, 0, true),
            node("doc_comment", 0, 10, 1, true),
            node("statement", 11, 20, 1, true),
            node("identifier", 11, 15, 2, true),
            node("statement", 21, 30, 1, true),
            node("doc_comment", 31, 40, 1, true),
            node(";", 40, 41, 1, false),
            node("statement", 42, 60, 1, true),
        ],
    };
    let pairs = collect_pairs(&t);
    assert_eq!(pairs.len(), 3);
    assert_eq!((pairs[0].doc_start_byte, pairs[0].doc_end_byte), (Some(0), Some(10)));
    assert_eq!((pairs[0].statement_start_byte, pairs[0].statement_end_byte), (11, 20));
    assert_eq!((pairs[1].doc_start_byte, pairs[1].doc_end_byte), (None, None));
    assert_eq!((pairs[1].statement_start_byte, pairs[1].statement_end_byte), (21, 30));
    // A doc comment not followed right away by a statement documents nothing.
    assert_eq!((pairs[2].doc_start_byte, pairs[2].doc_end_byte), (None, None));
    assert_eq!((pairs[2].statement_start_byte, pairs[2].statement_end_byte), (42, 60));
}

#[test]
fn error_nodes_inside_error_nodes_are_reported_once() {
    let t = SyntaxTree {
        grammar: Grammar::Cypher,
        text: String::new(),
        has_error: true,
        nodes: vec![
            node("source_file", 0, 40, 0, true),
            error_node(0, 10, 1),
            missing_node(")", 5, 2),
            node("statement", 11, 30, 1, true),
            missing_node(")", 29, 2),
            error_node(31, 40, 1),
        ],
    };
    assert_eq!(collect_error_nodes(&t), vec![(0, 10), (29, 29), (31, 40)]);
}

#[test]
fn no_error_spans_when_the_tree_reports_no_error() {
    let t = SyntaxTree {
        grammar: Grammar::Cypher,
        text: "ab c".to_string(),
        has_error: false,
        nodes: vec![node("source_file", 0, 4, 0, true), error_node(0, 4, 1)],
    };
    assert!(collect_error_nodes(&t).is_empty());
}

#[test]
fn syntax_errors_become_parse_error_diagnostics() {
    let src = "MATCH (n\nRETURN n";
    let rules: Vec<Rule> = Vec::new();
    let r = SourceReading {
        tree: SyntaxTree {
            grammar: Grammar::Cypher,
            text: src.to_string(),
            has_error: true,
            nodes: vec![node("source_file", 0, 17, 0, true), missing_node(")", 8, 1), error_node(9, 17, 1)],
        },
        rule_matches: Vec::new(),
        match_tags: Vec::new(),
        pairs: Vec::new(),
    };
    assert!(check_reading(src, &rules, &r));
    let ds = diagnostics_from_reading(src, &rules, &r);
    assert_eq!(ds.len(), 2);
    assert_eq!(ds[0].severity, Severity::Error);
    assert_eq!(ds[0].rule, "ParseError");
    assert_eq!(ds[0].message, "Syntax error in Cypher query.");
    assert_eq!((ds[0].range.start.line, ds[0].range.start.character), (0, 8));
    assert_eq!((ds[1].range.start.line, ds[1].range.start.character), (1, 0));
    assert_eq!((ds[1].range.end.line, ds[1].range.end.character), (1, 8));
    assert_eq!(ds[0].code, None);
}

#[test]
fn doc_comment_without_tool_name_warns() {
    let rules: Vec<Rule> = Vec::new();
    let r = reading(doc_tree(vec![node("description", 4, 9, 1, true)]));
    assert!(check_reading(SOURCE, &rules, &r));
    let ds = diagnostics_from_reading(SOURCE, &rules, &r);
    assert_eq!(ds.len(), 1);
    assert_eq!(ds[0].severity, Severity::Warning);
    assert_eq!(ds[0].rule, "MissingToolName");
    assert_eq!(ds[0].message, "Cypherdoc comment has no tool name. Add a name as the first line.");
    assert_eq!((ds[0].range.start.line, ds[0].range.start.character), (0, 0));
    assert_eq!((ds[0].range.end.line, ds[0].range.end.character), (0, 0));
}

#[test]
fn empty_tool_name_warns() {
    let rules: Vec<Rule> = Vec::new();
    let r = reading(doc_tree(vec![node("name", 4, 4, 1, true)]));
    let ds = diagnostics_from_reading(SOURCE, &rules, &r);
    assert_eq!(ds.len(), 1);
    assert_eq!(ds[0].rule, "MissingToolName");
}

#[test]
fn doc_comment_with_tool_name_is_clean() {
    let rules: Vec<Rule> = Vec::new();
    let r = reading(doc_tree(vec![node("/**", 0, 3, 1, false), node("name", 4, 9, 1, true)]));
    assert!(check_reading(SOURCE, &rules, &r));
    assert!(diagnostics_from_reading(SOURCE, &rules, &r).is_empty());
}

#[test]
fn empty_doc_comment_raises_nothing() {
    let rules: Vec<Rule> = Vec::new();
    let r = reading(doc_tree(vec![node("/**", 0, 3, 1, false), node("*/", 10, 12, 1, false)]));
    assert!(check_reading(SOURCE, &rules, &r));
    assert!(diagnostics_from_reading(SOURCE, &rules, &r).is_empty());
}

#[test]
fn reading_with_wrong_pair_count_is_refused() {
    let rules: Vec<Rule> = Vec::new();
    let r = SourceReading { tree: source_tree(), rule_matches: Vec::new(), match_tags: Vec::new(), pairs: Vec::new() };
    assert!(!check_reading(SOURCE, &rules, &r));
}

#[test]
fn doc_reading_must_match_doc_comment_presence() {
    let rules: Vec<Rule> = Vec::new();
    let r = SourceReading {
        tree: source_tree(),
        rule_matches: Vec::new(),
        match_tags: Vec::new(),
        pairs: vec![PairReading { doc: None, used_matches: Vec::new(), used_tag: None }],
    };
    assert!(!check_reading(SOURCE, &rules, &r));
}

#[test]
fn doc_span_inside_a_character_is_refused() {
    let src = "/** \u{e9} */\nRETURN 1";
    let rules: Vec<Rule> = Vec::new();
    let r = SourceReading {
        tree: SyntaxTree {
            grammar: Grammar::Cypher,
            text: src.to_string(),
            has_error: false,
            nodes: vec![
                node("source_file", 0, 20, 0, true),
                node("doc_comment", 0, 5, 1, true),
                node("statement", 12, 20, 1, true),
            ],
        },
        rule_matches: Vec::new(),
        match_tags: Vec::new(),
        pairs: vec![PairReading { doc: Some(DocReading { tree: doc_tree(Vec::new()), rule_matches: Vec::new(), match_tags: Vec::new() }), used_matches: Vec::new(), used_tag: None }],
    };
    assert!(!check_reading(src, &rules, &r));
}

#[test]
fn tree_of_another_grammar_or_text_is_refused() {
    let rules: Vec<Rule> = Vec::new();
    let mut r = reading(doc_tree(vec![node("name", 4, 9, 1, true)]));
    assert!(check_reading(SOURCE, &rules, &r));
    r.tree.grammar = Grammar::CypherDoc;
    assert!(!check_reading(SOURCE, &rules, &r));
    let mut r = reading(doc_tree(vec![node("name", 4, 9, 1, true)]));
    r.tree.text = "MATCH (n) RETURN n".to_string();
    assert!(!check_reading(SOURCE, &rules, &r));
}

#[test]
fn doc_tree_must_be_the_comment_parsed_as_a_doc_comment() {
    let rules: Vec<Rule> = Vec::new();
    let mut doc = doc_tree(vec![node("name", 4, 9, 1, true)]);
    doc.grammar = Grammar::Cypher;
    assert!(!check_reading(SOURCE, &rules, &reading(doc)));
    let mut doc = doc_tree(vec![node("name", 4, 9, 1, true)]);
    doc.text = "/** other */".to_string();
    assert!(!check_reading(SOURCE, &rules, &reading(doc)));
}
