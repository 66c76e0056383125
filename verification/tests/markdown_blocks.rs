use cypher::diagnostics::{Diagnostic, Position, Range, Severity};
use cypher::lint::{is_blank, markdown_diagnostics, unclosed_fence_notes};
use cypher::markdown::{extract_cypher_snippets, CypherSnippet};

fn diag(rule: &str, line: u32, character: u32, end_line: u32) -> Diagnostic {
    Diagnostic {
        severity: Severity::Warning,
        rule: rule.to_string(),
        message: "m".to_string(),
        range: Range { start: Position { line, character }, end: Position { line: end_line, character: 9 } },
        code: None,
    }
}

#[test]
fn blank_means_only_whitespace() {
    assert!(is_blank(""));
    assert!(is_blank("  \n\t \r\n"));
    assert!(!is_blank("  x "));
}

#[test]
fn block_diagnostics_move_to_their_block() {
    let src = "# Doc\n\n```cypher\nMATCH (n) RETURN n\n```\n\ntext\n```cypher\n\n  \n```\n```cypher\nMATCH (a)-[*]->(b)\nRETURN a\n```\n";
    let snippets = extract_cypher_snippets(src);
    assert_eq!(snippets.len(), 3);
    assert_eq!(snippets[0].start_line, 3);
    assert_eq!(snippets[2].start_line, 12);
    let per_block = vec![
        vec![diag("UnlabelledNode", 0, 6, 0)],
        // The second block is blank: whatever is given for it is left out.
        vec![diag("Ignored", 0, 0, 0)],
        vec![diag("UnboundedRelationship", 0, 9, 0), diag("UnlabelledNode", 1, 7, 1)],
    ];
    let ds = markdown_diagnostics(&snippets, per_block);
    assert_eq!(ds.len(), 3);
    assert_eq!(ds[0].rule, "UnlabelledNode");
    assert_eq!((ds[0].range.start.line, ds[0].range.start.character), (3, 6));
    assert_eq!(ds[1].rule, "UnboundedRelationship");
    assert_eq!((ds[1].range.start.line, ds[1].range.end.line), (12, 12));
    assert_eq!(ds[2].rule, "UnlabelledNode");
    assert_eq!((ds[2].range.start.line, ds[2].range.start.character), (13, 7));
}

#[test]
fn shifted_lines_wrap_like_u32_addition() {
    let snippets = vec![CypherSnippet { content: "RETURN 1".to_string(), start_line: 10, closed: true }];
    let ds = markdown_diagnostics(&snippets, vec![vec![diag("R", u32::MAX - 2, 0, u32::MAX)]]);
    assert_eq!(ds[0].range.start.line, 7);
    assert_eq!(ds[0].range.end.line, 9);
}

#[test]
fn unclosed_blocks_get_a_note_with_their_line() {
    let src = "```cypher\nA\n```\ntext\n```Cypher\nMATCH (n)\nRETURN n\n";
    let snippets = extract_cypher_snippets(src);
    assert_eq!(snippets.len(), 2);
    let notes = unclosed_fence_notes("docs/q.md", &snippets);
    assert_eq!(notes, vec!["note: docs/q.md: unclosed ```cypher fence at line 5".to_string()]);
}

#[test]
fn closed_blocks_get_no_note() {
    let snippets = extract_cypher_snippets("```cypher\nA\n```\n");
    assert!(unclosed_fence_notes("a.md", &snippets).is_empty());
}

#[test]
fn blank_agrees_with_std_whitespace() {
    for u in 0u32..0x3100 {
        if let Some(c) = char::from_u32(u) {
            assert_eq!(is_blank(&c.to_string()), c.is_whitespace(), "U+{u:04X}");
        }
    }
}
