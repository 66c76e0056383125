use cypher::diagnostics::Severity;
use cypher::rules::{applies_to_header, describe_query_problem, parse_rule_header, select_rules, AppliesTo, Rule};
use cypher::syntax::{QueryProblem, QueryProblemKind};

const FULL: &str = ";; Rule: UnlabelledNode\n;; Severity: Warning\n;; Applies-to: structural\n;; Message: Node pattern has no label.\n;;\n\n(node_pattern) @n\n(other) @o\n";

#[test]
fn header_fields_and_query_are_read() {
    let h = parse_rule_header(FULL).ok().unwrap();
    assert_eq!(h.name, "UnlabelledNode");
    assert_eq!(h.severity, Severity::Warning);
    assert_eq!(h.applies_to, AppliesTo::Structure);
    assert_eq!(h.message, "Node pattern has no label.");
    assert_eq!(h.code, None);
    assert_eq!(h.query_source, "(node_pattern) @n\n(other) @o");
}

#[test]
fn code_header_is_read() {
    let src = ";; Rule: CartesianProduct\n;; Severity: Warning\n;; Applies-to: structural\n;; Message: m\n;; Code: 03N90\n(x) @x\n";
    let h = parse_rule_header(src).ok().unwrap();
    assert_eq!(h.code, Some("03N90".to_string()));
}

#[test]
fn header_values_are_trimmed() {
    let src = ";; Rule:   Spaced  \n;; Severity: Error \n;; Applies-to: cross-reference\n;; Message:  hi \n(x) @x";
    let h = parse_rule_header(src).ok().unwrap();
    assert_eq!(h.name, "Spaced");
    assert_eq!(h.severity, Severity::Error);
    assert_eq!(h.applies_to, AppliesTo::CrossReference);
    assert_eq!(h.message, "hi");
}

#[test]
fn missing_headers_are_reported_in_order() {
    assert_eq!(parse_rule_header("(x) @x").err().unwrap(), "missing Rule: header");
    assert_eq!(parse_rule_header(";; Rule: R\n(x) @x").err().unwrap(), "missing Severity: header");
    assert_eq!(
        parse_rule_header(";; Rule: R\n;; Severity: Hint\n(x) @x").err().unwrap(),
        "missing Applies-to: header"
    );
    assert_eq!(
        parse_rule_header(";; Rule: R\n;; Severity: Hint\n;; Applies-to: contract\n(x) @x").err().unwrap(),
        "missing Message: header"
    );
}

#[test]
fn unknown_severity_is_reported() {
    let src = ";; Rule: R\n;; Severity: Fatal\n;; Applies-to: structural\n;; Message: m\n(x) @x";
    assert_eq!(parse_rule_header(src).err().unwrap(), "unknown severity: Fatal");
}

#[test]
fn unknown_applies_to_is_reported() {
    let src = ";; Rule: R\n;; Severity: Information\n;; Applies-to: everything\n;; Message: m\n(x) @x";
    assert_eq!(parse_rule_header(src).err().unwrap(), "unknown applies-to: everything");
}

#[test]
fn headers_after_the_query_start_are_query_text() {
    let src = ";; Rule: R\n;; Severity: Hint\n(x) @x\n;; Applies-to: structural\n;; Message: m\n";
    assert_eq!(parse_rule_header(src).err().unwrap(), "missing Applies-to: header");
}

#[test]
fn applies_to_header_defaults_to_structural() {
    assert_eq!(applies_to_header("(x) @x"), "structural");
    assert_eq!(applies_to_header(";; Applies-to:  contract \n(x) @x"), "contract");
    assert_eq!(applies_to_header(";;Applies-to: contract\n"), "structural");
}

#[test]
fn selecting_no_rule_names_keeps_all() {
    let rules: Vec<Rule> = Vec::new();
    let kept = select_rules(rules, &Vec::new()).ok().unwrap();
    assert!(kept.is_empty());
}

#[test]
fn unknown_rule_names_are_reported() {
    let rules: Vec<Rule> = Vec::new();
    let names = vec!["Nope".to_string(), "Other".to_string()];
    let unknown = select_rules(rules, &names).err().unwrap();
    assert_eq!(unknown, names);
}

#[test]
fn query_problems_are_described_as_tree_sitter_does() {
    let p = QueryProblem { row: 0, column: 4, offset: 4, message: "foo".to_string(), kind: QueryProblemKind::NodeType };
    assert_eq!(describe_query_problem(&p), "Query error at 1:5. Invalid node type foo");
    let p = QueryProblem { row: 11, column: 0, offset: 90, message: "(x".to_string(), kind: QueryProblemKind::Syntax };
    assert_eq!(describe_query_problem(&p), "Query error at 12:1. Invalid syntax:\n(x");
    let p = QueryProblem { row: 3, column: 3, offset: 0, message: "bad ABI".to_string(), kind: QueryProblemKind::Language };
    assert_eq!(describe_query_problem(&p), "bad ABI");
}
