use cypher::diagnostics::{Diagnostic, Position, Range, Severity};
use cypher::lint::{LintOptions, SourceResult};
use cypher::report::{exit_code, lint_result, report_code, report_span};
use cypher::session::{
    input_of, named_path_kind, no_files_note, skipped_note, tree_input, walk_entry_kind, FileKind, Input, LintArgs,
    Visited,
};
use cypher::text::push_decimal;

fn args(expression: Option<&str>, paths: &[&str]) -> LintArgs {
    LintArgs {
        expression: expression.map(|e| e.to_string()),
        json: false,
        tree: false,
        strict: false,
        rule: Vec::new(),
        rules_dir: None,
        no_markdown: false,
        paths: paths.iter().map(|p| p.to_string()).collect(),
    }
}

fn diag(severity: Severity, rule: &str, code: Option<&str>) -> Diagnostic {
    let at = Position { line: 0, character: 0 };
    Diagnostic {
        severity,
        rule: rule.to_string(),
        message: "m".to_string(),
        range: Range { start: at, end: at },
        code: code.map(|c| c.to_string()),
    }
}

fn result(path: &str, diags: Vec<Diagnostic>) -> SourceResult {
    SourceResult { path: path.to_string(), source: String::new(), diags }
}

#[test]
fn expression_wins_over_paths_and_stdin() {
    assert_eq!(input_of(&args(Some("RETURN 1"), &["a.cypher"])), Input::Expression);
    assert_eq!(input_of(&args(None, &[])), Input::Stdin);
    assert_eq!(input_of(&args(None, &["a.cypher"])), Input::Paths);
}

#[test]
fn tree_mode_refuses_several_paths() {
    assert_eq!(tree_input(&args(None, &["a", "b"])).err().unwrap(), "error: --tree accepts at most one input");
    assert_eq!(tree_input(&args(None, &["a"])).ok().unwrap(), Input::Paths);
    assert_eq!(tree_input(&args(None, &[])).ok().unwrap(), Input::Stdin);
}

#[test]
fn directory_walk_picks_cypher_and_markdown() {
    let ext = |e: &str| Some(e.to_string());
    assert_eq!(walk_entry_kind(&ext("cypher"), false), Some(FileKind::Cypher));
    assert_eq!(walk_entry_kind(&ext("md"), false), Some(FileKind::Markdown));
    assert_eq!(walk_entry_kind(&ext("md"), true), None);
    assert_eq!(walk_entry_kind(&ext("scm"), false), None);
    assert_eq!(walk_entry_kind(&None, false), None);
}

#[test]
fn named_paths_are_linted_whatever_their_extension() {
    assert_eq!(named_path_kind(&Some("txt".to_string()), false), Some(FileKind::Cypher));
    assert_eq!(named_path_kind(&None, true), Some(FileKind::Cypher));
    assert_eq!(named_path_kind(&Some("md".to_string()), false), Some(FileKind::Markdown));
    assert_eq!(named_path_kind(&Some("md".to_string()), true), None);
}

#[test]
fn notes_name_the_path() {
    assert_eq!(skipped_note("doc/a.md"), "note: doc/a.md: skipped (--no-markdown)");
    assert_eq!(no_files_note("empty", false), "note: no .cypher or .md files found in empty");
    assert_eq!(no_files_note("empty", true), "note: no .cypher files found in empty");
}

#[test]
fn visited_paths_are_linted_once() {
    let mut v = Visited::new();
    assert!(v.insert("/a/x.cypher".to_string()));
    assert!(v.insert("/a/y.cypher".to_string()));
    assert!(!v.insert("/a/x.cypher".to_string()));
    assert!(!v.insert("/a/y.cypher".to_string()));
}

#[test]
fn errors_fail_the_run() {
    let rs = vec![result("a", vec![diag(Severity::Warning, "W", None)]), result("b", vec![diag(Severity::Error, "E", None)])];
    assert_eq!(exit_code(&rs, false), 1);
}

#[test]
fn warnings_alone_pass_unless_strict() {
    let rs = vec![result("a", vec![diag(Severity::Warning, "W", None), diag(Severity::Hint, "H", None)])];
    assert_eq!(exit_code(&rs, false), 0);
    assert_eq!(exit_code(&rs, true), 1);
}

#[test]
fn information_and_hints_pass_even_when_strict() {
    let rs = vec![result("a", vec![diag(Severity::Information, "I", None)]), result("b", Vec::new())];
    assert_eq!(exit_code(&rs, true), 0);
    assert_eq!(exit_code(&Vec::new(), true), 0);
}

#[test]
fn lint_result_has_schema_and_tool() {
    let rs = vec![result("a.cypher", vec![diag(Severity::Error, "E", Some("01N01"))]), result("b.md", Vec::new())];
    let r = lint_result(rs, "0.1.0");
    assert_eq!(r.schema_version, 1);
    assert_eq!(r.tool, "cypher/0.1.0");
    assert_eq!(r.files.len(), 2);
    assert_eq!(r.files[0].path, "a.cypher");
    assert_eq!(r.files[0].diagnostics.len(), 1);
    assert_eq!(r.files[0].diagnostics[0].code, Some("01N01".to_string()));
    assert_eq!(r.files[1].path, "b.md");
    assert!(r.files[1].diagnostics.is_empty());
}

#[test]
fn report_code_joins_rule_and_code() {
    assert_eq!(report_code(&diag(Severity::Warning, "CartesianProduct", Some("03N90"))), "CartesianProduct/03N90");
    assert_eq!(report_code(&diag(Severity::Warning, "UnlabelledNode", None)), "UnlabelledNode");
}

#[test]
fn report_span_is_at_least_one_character() {
    let src = "ab\n\u{1F600}cd";
    let empty = Range { start: Position { line: 1, character: 0 }, end: Position { line: 1, character: 0 } };
    // Byte 3 is character 3; the end moves one byte on, which rounds back to the emoji's
    // start, so the end is pushed to one past the start character.
    assert_eq!(report_span(src, &empty), (3, 4));
    let wide = Range { start: Position { line: 1, character: 2 }, end: Position { line: 1, character: 4 } };
    assert_eq!(report_span(src, &wide), (4, 6));
    let at_end = Range { start: Position { line: 5, character: 0 }, end: Position { line: 5, character: 0 } };
    assert_eq!(report_span(src, &at_end), (6, 7));
}

#[test]
fn decimal_digits() {
    let mut s = String::from("line ");
    push_decimal(&mut s, 0);
    assert_eq!(s, "line 0");
    let mut s = String::new();
    push_decimal(&mut s, 4_294_967_295);
    assert_eq!(s, "4294967295");
    let mut s = String::new();
    push_decimal(&mut s, 1007);
    assert_eq!(s, "1007");
}

#[test]
fn lint_options_hold_strictness() {
    let o = LintOptions { strict: true };
    assert!(o.strict);
}
