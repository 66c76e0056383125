use cypher::markdown::extract_cypher_snippets;

#[test]
fn single_snippet() {
    let src = "# Title\n\n```cypher\nMATCH (n) RETURN n\n```\n";
    let snippets = extract_cypher_snippets(src);
    assert_eq!(snippets.len(), 1);
    assert_eq!(snippets[0].content, "MATCH (n) RETURN n");
    assert_eq!(snippets[0].start_line, 3);
    assert!(snippets[0].closed);
}

#[test]
fn multiple_snippets() {
    let src = "```cypher\nA\n```\n\n```cypher\nB\n```\n";
    let snippets = extract_cypher_snippets(src);
    assert_eq!(snippets.len(), 2);
    assert_eq!(snippets[0].content, "A");
    assert_eq!(snippets[0].start_line, 1);
    assert!(snippets[0].closed);
    assert_eq!(snippets[1].content, "B");
    assert_eq!(snippets[1].start_line, 5);
    assert!(snippets[1].closed);
}

#[test]
fn no_snippets() {
    assert!(extract_cypher_snippets("# Just prose\nNo code here.\n").is_empty());
}

#[test]
fn empty_snippet_returned() {
    let src = "```cypher\n```\n";
    let snippets = extract_cypher_snippets(src);
    assert_eq!(snippets.len(), 1);
    assert_eq!(snippets[0].content, "");
    assert_eq!(snippets[0].start_line, 1);
    assert!(snippets[0].closed);
}

#[test]
fn mixed_case_fence() {
    let src = "```Cypher\nMATCH (n) RETURN n\n```\n";
    assert_eq!(extract_cypher_snippets(src).len(), 1);
}

#[test]
fn fence_with_trailing_annotation() {
    let src = "```cypher title=\"example\"\nMATCH (n) RETURN n\n```\n";
    assert_eq!(extract_cypher_snippets(src).len(), 1);
}

#[test]
fn other_language_tags_skipped() {
    let src = "```cql\nSELECT *\n```\n```cypher-shell\n:play\n```\n```cypherdoc\nfoo\n```\n";
    assert!(extract_cypher_snippets(src).is_empty());
}

#[test]
fn unclosed_fence_marked_not_closed() {
    let src = "```cypher\nMATCH (n) RETURN n\n";
    let snippets = extract_cypher_snippets(src);
    assert_eq!(snippets.len(), 1);
    assert_eq!(snippets[0].content, "MATCH (n) RETURN n");
    assert_eq!(snippets[0].start_line, 1);
    assert!(!snippets[0].closed);
}

#[test]
fn start_line_offset_is_correct() {
    // Fence opens at line 6 (0-based), content starts at line 7 (0-based) = start_line 7
    let src = "line0\nline1\nline2\nline3\nline4\nline5\n```cypher\nMATCH (n) RETURN n\n```\n";
    let snippets = extract_cypher_snippets(src);
    assert_eq!(snippets.len(), 1);
    assert_eq!(snippets[0].start_line, 7);
    assert!(snippets[0].closed);
}
