//! Linting a Cypher source or the Cypher blocks of a Markdown document: parsing with
//! tree-sitter, running the rules' queries, and turning what they find into diagnostics.

use vstd::prelude::*;

use crate::analysis::{
    check_reading, collect_pairs, diagnostics_from_reading, first_rule_named, has_cross_reference, pairs_view,
    tree_pairs, PairModel, PairReadingModel, doc_origin, matches_view, origin_for, pair_origins, reading_origins,
    rule_matches_view, tagged, has_content, all_from, lemma_diagnostic_origins, lemma_ranges_ordered, ranges_ordered, lemma_ranges_within, ranges_within, first_named_child, first_rule_named_exec,
    has_cross_reference_exec, reading_ok, source_diagnostics, span_text, span_text_exec, valid_span, valid_span_exec,
    DocReading, PairReading, SourceReading, SourceReadingModel, Span,
};
use crate::diagnostics::{diags_view, Diagnostic, DiagnosticModel, Position, Range};
use crate::markdown::{cypher_snippets, extract_cypher_snippets, CypherSnippet, SnippetModel};
use crate::rules::{rules_view, strings_view, AppliesTo, Languages, Rule, RuleModel};
use crate::syntax::{query_matches, tree_sexp, Grammar, MatchTag, ParsedTree, TreeSexp};
use crate::text::{chars_of, decimal, push_decimal, string_of, trim, trim_range};
use crate::tree::{parse_source, read_tree};

verus! {

/// The diagnostics of one source, with its path and text.
pub struct SourceResult {
    pub path: String,
    pub source: String,
    pub diags: Vec<Diagnostic>,
}

/// Options of `lint_source`.
pub struct LintOptions {
    /// Whether warnings count as failures.
    pub strict: bool,
}

/// `ds` are the diagnostics of `src` for some way its trees may have been read: whatever
/// tree-sitter yields, the diagnostics follow from it as `source_diagnostics` says.
pub open spec fn analysis_outcome(src: Seq<char>, rules: Seq<RuleModel>, ds: Seq<DiagnosticModel>) -> bool {
    exists|m: SourceReadingModel|
        reading_ok(src, rules, m) && reading_origins(src, rules, m) && ds == source_diagnostics(src, rules, m)
}

/// Every diagnostic of an analysis (what `analyze` and `lint_source` return) comes from a
/// syntax error, a doc comment without a tool name, or one of the rules, whose name and
/// severity it carries.
pub proof fn lemma_outcome_origins(src: Seq<char>, rules: Seq<RuleModel>, ds: Seq<DiagnosticModel>)
    requires
        analysis_outcome(src, rules, ds),
    ensures
        all_from(rules, ds),
{
    let m = choose|m: SourceReadingModel|
        reading_ok(src, rules, m) && reading_origins(src, rules, m) && ds == source_diagnostics(src, rules, m);
    lemma_diagnostic_origins(src, rules, m);
}

/// Every diagnostic of an analysis has its range's start no later than its end, when every
/// line and column of the source fits in 32 bits.
pub proof fn lemma_outcome_ranges_ordered(src: Seq<char>, rules: Seq<RuleModel>, ds: Seq<DiagnosticModel>)
    requires
        analysis_outcome(src, rules, ds),
        crate::position::utf16_len(src) <= u32::MAX,
    ensures
        ranges_ordered(ds),
{
    let m = choose|m: SourceReadingModel|
        reading_ok(src, rules, m) && reading_origins(src, rules, m) && ds == source_diagnostics(src, rules, m);
    lemma_ranges_ordered(src, rules, m);
}

/// Both ends of every diagnostic's range of an analysis are the line and UTF-16 column
/// (cut to 32 bits) of a byte offset of the source, between its start and its end.
pub proof fn lemma_outcome_ranges_within(src: Seq<char>, rules: Seq<RuleModel>, ds: Seq<DiagnosticModel>)
    requires
        analysis_outcome(src, rules, ds),
    ensures
        ranges_within(src, ds),
{
    let m = choose|m: SourceReadingModel|
        reading_ok(src, rules, m) && reading_origins(src, rules, m) && ds == source_diagnostics(src, rules, m);
    lemma_ranges_within(src, rules, m);
}

/// The matches of `rule`'s query on the whole of the tree `parsed`, with the record of
/// where they come from.
fn matches_on(rule: &Rule, parsed: &ParsedTree) -> (r: (Vec<Vec<Span>>, MatchTag))
    ensures
        r.1.origin() == origin_for(rule@, parsed.text(), parsed.grammar()),
        r.1.spans() == matches_view(r.0@),
{
    query_matches(&rule.query, parsed).into_parts()
}

/// Reads the doc comment `text`: its tree, parsed with the doc-comment grammar, the
/// contract rules' matches when it has content, and the `UnusedParameter` rule's matches
/// when cross-references are checked.
fn read_doc(text: &str, rules: &Vec<Rule>, languages: &Languages, has_cross: bool, unused_idx: Option<usize>) -> (r: Option<DocReading>)
    requires
        has_cross == has_cross_reference(rules_view(rules@)),
        unused_idx matches Some(i) ==> first_rule_named(rules_view(rules@), "UnusedParameter"@) == Some(i as int),
        unused_idx is None ==> first_rule_named(rules_view(rules@), "UnusedParameter"@) is None,
    ensures
        r matches Some(d) ==> {
            &&& d.rule_matches@.len() == rules@.len()
            &&& d.tree@.grammar == Grammar::CypherDoc
            &&& d.tree@.text == text@
            &&& d@.match_tags.len() == rules@.len()
            &&& forall|i: int|
                0 <= i < rules@.len() ==> tagged(
                    #[trigger] d@.match_tags[i],
                    d@.rule_matches[i],
                    doc_origin(rules_view(rules@), i, text@, d.tree@),
                )
        },
{
    let ghost rv = rules_view(rules@);
    let parsed = match parse_source(languages, Grammar::CypherDoc, text) {
        Some(t) => t,
        None => return None,
    };
    let model = read_tree(&parsed);
    let content = first_named_child(&model).is_some();
    assert(content == has_content(model@));
    let mut rule_matches: Vec<Vec<Vec<Span>>> = Vec::new();
    let mut match_tags: Vec<Option<MatchTag>> = Vec::new();
    let n = rules.len();
    for i in 0..n
        invariant
            n == rules@.len(),
            rv == rules_view(rules@),
            content == has_content(model@),
            has_cross == has_cross_reference(rv),
            unused_idx matches Some(i) ==> first_rule_named(rv, "UnusedParameter"@) == Some(i as int),
            unused_idx is None ==> first_rule_named(rv, "UnusedParameter"@) is None,
            parsed.grammar() == Grammar::CypherDoc,
            parsed.text() == text@,
            rule_matches@.len() == i,
            match_tags@.len() == i,
            forall|j: int|
                0 <= j < i ==> tagged(
                    #[trigger] match_tags@[j],
                    rule_matches_view(rule_matches@)[j],
                    doc_origin(rv, j, text@, model@),
                ),
    {
        let wanted = (content && rules[i].applies_to == AppliesTo::Contract) || (has_cross && unused_idx == Some(i));
        assert(rv[i as int] == rules@[i as int]@);
        assert(wanted == doc_origin(rv, i as int, text@, model@) is Some);
        let ghost before = rule_matches@;
        if wanted {
            let (spans, tag) = matches_on(&rules[i], &parsed);
            rule_matches.push(spans);
            match_tags.push(Some(tag));
        } else {
            rule_matches.push(Vec::new());
            match_tags.push(None);
        }
        assert forall|j: int| 0 <= j < i + 1 implies tagged(
            #[trigger] match_tags@[j],
            rule_matches_view(rule_matches@)[j],
            doc_origin(rv, j, text@, model@),
        ) by {
            if j < i {
                assert(rule_matches@[j] == before[j]);
            }
        }
    }
    Some(DocReading { tree: model, rule_matches, match_tags })
}

/// The text of `v` in the byte range `span`; `None` when the range is not valid.
fn slice_text(v: &Vec<char>, span: Span) -> (r: Option<String>)
    ensures
        r is Some <==> valid_span(v@, span),
        r matches Some(t) ==> t@ == span_text(v@, span),
{
    if !valid_span_exec(v, span) {
        return None;
    }
    let chars = span_text_exec(v, span);
    Some(string_of(chars.as_slice()))
}

/// The trees read for statement `p` of `src`: its doc comment's tree, when it has one, was
/// parsed from the comment's text with the doc-comment grammar.
pub open spec fn pair_trees(src: Seq<char>, p: PairModel, pr: PairReadingModel) -> bool {
    &&& (p.doc is Some <==> pr.doc is Some)
    &&& match (p.doc, pr.doc) {
        (Some(doc), Some(d)) => d.tree.grammar == Grammar::CypherDoc && d.tree.text == span_text(src, doc),
        _ => true,
    }
}

/// Parses `source` and runs the rules' queries as the analysis needs them: the structural
/// rules on the whole tree, and for each statement its doc comment's tree and, when
/// cross-references are checked, the statement's own tree. `None` when a grammar is not
/// accepted or a range to parse again is not a valid range of `source`.
pub fn read_source(source: &str, rules: &Vec<Rule>, languages: &Languages) -> (r: Option<SourceReading>)
    ensures
        r matches Some(rd) ==> {
            &&& rd.tree@.grammar == Grammar::Cypher
            &&& rd.tree@.text == source@
            &&& rd.rule_matches@.len() == rules@.len()
            &&& rd.pairs@.len() == tree_pairs(rd.tree@).len()
            &&& forall|k: int| 0 <= k < rd.pairs@.len() ==> pair_trees(source@, tree_pairs(rd.tree@)[k], (#[trigger] rd.pairs@[k])@)
            &&& reading_origins(source@, rules_view(rules@), rd@)
        },
{
    let ghost rv = rules_view(rules@);
    let parsed = match parse_source(languages, Grammar::Cypher, source) {
        Some(t) => t,
        None => return None,
    };
    let model = read_tree(&parsed);
    let mut rule_matches: Vec<Vec<Vec<Span>>> = Vec::new();
    let mut match_tags: Vec<Option<MatchTag>> = Vec::new();
    let n = rules.len();
    for i in 0..n
        invariant
            n == rules@.len(),
            rv == rules_view(rules@),
            parsed.grammar() == Grammar::Cypher,
            parsed.text() == source@,
            rule_matches@.len() == i,
            match_tags@.len() == i,
            forall|j: int|
                0 <= j < i ==> tagged(
                    #[trigger] match_tags@[j],
                    rule_matches_view(rule_matches@)[j],
                    if rv[j].applies_to == AppliesTo::Structure {
                        Some(origin_for(rv[j], source@, Grammar::Cypher))
                    } else {
                        None
                    },
                ),
    {
        assert(rv[i as int] == rules@[i as int]@);
        let ghost before = rule_matches@;
        if rules[i].applies_to == AppliesTo::Structure {
            let (spans, tag) = matches_on(&rules[i], &parsed);
            rule_matches.push(spans);
            match_tags.push(Some(tag));
        } else {
            rule_matches.push(Vec::new());
            match_tags.push(None);
        }
        assert forall|j: int| 0 <= j < i + 1 implies tagged(
            #[trigger] match_tags@[j],
            rule_matches_view(rule_matches@)[j],
            if rv[j].applies_to == AppliesTo::Structure {
                Some(origin_for(rv[j], source@, Grammar::Cypher))
            } else {
                None
            },
        ) by {
            if j < i {
                assert(rule_matches@[j] == before[j]);
            }
        }
    }
    let v = chars_of(source);
    let has_cross = has_cross_reference_exec(rules);
    let unused_idx = first_rule_named_exec(rules, "UnusedParameter");
    let undoc_idx = first_rule_named_exec(rules, "UndocumentedParameter");
    let pairs = collect_pairs(&model);
    let mut readings: Vec<PairReading> = Vec::new();
    let m = pairs.len();
    for k in 0..m
        invariant
            m == pairs@.len(),
            v@ == source@,
            rv == rules_view(rules@),
            has_cross == has_cross_reference(rv),
            unused_idx matches Some(i) ==> first_rule_named(rv, "UnusedParameter"@) == Some(i as int),
            unused_idx is None ==> first_rule_named(rv, "UnusedParameter"@) is None,
            undoc_idx matches Some(u) ==> u < rules@.len() && first_rule_named(rv, "UndocumentedParameter"@) == Some(u as int),
            undoc_idx is None ==> first_rule_named(rv, "UndocumentedParameter"@) is None,
            pairs_view(pairs@) == tree_pairs(model@),
            readings@.len() == k,
            forall|j: int|
                0 <= j < k ==> pair_trees(source@, pairs@[j]@, (#[trigger] readings@[j])@) && pair_origins(
                    source@,
                    rv,
                    pairs@[j]@,
                    readings@[j]@,
                ),
    {
        let pair = &pairs[k];
        let doc = match (pair.doc_start_byte, pair.doc_end_byte) {
            (Some(ds), Some(de)) => {
                let text = match slice_text(&v, (ds, de)) {
                    Some(t) => t,
                    None => return None,
                };
                match read_doc(text.as_str(), rules, languages, has_cross, unused_idx) {
                    Some(d) => Some(d),
                    None => return None,
                }
            },
            _ => None,
        };
        let mut used_matches: Vec<Vec<Span>> = Vec::new();
        let mut used_tag: Option<MatchTag> = None;
        if has_cross {
            if let Some(u) = undoc_idx {
                let stmt = match slice_text(&v, (pair.statement_start_byte, pair.statement_end_byte)) {
                    Some(t) => t,
                    None => return None,
                };
                let stmt_tree = match parse_source(languages, Grammar::Cypher, stmt.as_str()) {
                    Some(t) => t,
                    None => return None,
                };
                let (spans, tag) = matches_on(&rules[u], &stmt_tree);
                assert(rv[u as int] == rules@[u as int]@);
                used_matches = spans;
                used_tag = Some(tag);
            }
        }
        let reading = PairReading { doc, used_matches, used_tag };
        assert(pair_trees(source@, pair@, reading@));
        assert(pair_origins(source@, rv, pair@, reading@));
        readings.push(reading);
    }
    assert forall|j: int| 0 <= j < m implies pair_trees(source@, tree_pairs(model@)[j], (#[trigger] readings@[j])@)
        && pair_origins(source@, rv, tree_pairs(model@)[j], readings@[j]@) by {
        assert(pairs_view(pairs@)[j] == pairs@[j]@);
    }
    let rd = SourceReading { tree: model, rule_matches, match_tags, pairs: readings };
    assert(rd@.pairs =~= rd.pairs@.map_values(|p: PairReading| p@));
    assert forall|k: int| 0 <= k < rd@.pairs.len() implies pair_origins(source@, rv, tree_pairs(rd@.tree)[k], #[trigger] rd@.pairs[k]) by {
        assert(rd@.pairs[k] == rd.pairs@[k]@);
    }
    Some(rd)
}

/// Lints one Cypher source, named `path`. `None` when tree-sitter cannot parse it with
/// the given grammars, or hands back ranges that are not valid ranges of the text.
pub fn analyze(source: String, path: String, rules: &Vec<Rule>, languages: &Languages) -> (r: Option<SourceResult>)
    ensures
        r matches Some(res) ==> {
            &&& res.path@ == path@
            &&& res.source@ == source@
            &&& analysis_outcome(source@, rules_view(rules@), diags_view(res.diags@))
        },
{
    let reading = match read_source(source.as_str(), rules, languages) {
        Some(r) => r,
        None => return None,
    };
    if !check_reading(source.as_str(), rules, &reading) {
        return None;
    }
    let diags = diagnostics_from_reading(source.as_str(), rules, &reading);
    assert(reading_ok(source@, rules_view(rules@), reading@) && reading_origins(source@, rules_view(rules@), reading@)
        && diags_view(diags@) == source_diagnostics(source@, rules_view(rules@), reading@));
    Some(SourceResult { path, source, diags })
}

/// The diagnostics of one Cypher source, checked against `rules`.
pub fn lint_source(source: &str, _options: &LintOptions, rules: &Vec<Rule>, languages: &Languages) -> (r: Option<Vec<Diagnostic>>)
    ensures
        r matches Some(ds) ==> analysis_outcome(source@, rules_view(rules@), diags_view(ds@)),
{
    match analyze(String::from_str(source), String::from_str("-"), rules, languages) {
        Some(res) => Some(res.diags),
        None => None,
    }
}

/// `line` moved down `by` lines, wrapping past `u32::MAX` as `u32` addition does.
pub open spec fn shift_line(line: u32, by: u32) -> u32 {
    if line + by <= u32::MAX {
        (line + by) as u32
    } else {
        (line + by - 0x1_0000_0000) as u32
    }
}

/// The diagnostic `d` with both ends of its range moved down `by` lines.
pub open spec fn shifted_diag(d: DiagnosticModel, by: u32) -> DiagnosticModel {
    DiagnosticModel {
        severity: d.severity,
        rule: d.rule,
        message: d.message,
        range: Range {
            start: Position { line: shift_line(d.range.start.line, by), character: d.range.start.character },
            end: Position { line: shift_line(d.range.end.line, by), character: d.range.end.character },
        },
        code: d.code,
    }
}

/// Whether `s` holds nothing but whitespace.
pub open spec fn blank(s: Seq<char>) -> bool {
    trim(s).len() == 0
}

/// `ds` are the diagnostics of the Cypher block `s`: none for a blank block, else those of
/// its content linted on its own, moved down to where the block starts.
pub open spec fn snippet_outcome(s: SnippetModel, rules: Seq<RuleModel>, ds: Seq<DiagnosticModel>) -> bool {
    if blank(s.content) {
        ds.len() == 0
    } else {
        exists|base: Seq<DiagnosticModel>|
            #![trigger analysis_outcome(s.content, rules, base)]
            analysis_outcome(s.content, rules, base) && ds == base.map_values(|d: DiagnosticModel| shifted_diag(d, s.start_line))
    }
}

/// The lists of `parts` one after the other.
pub open spec fn concat_all(parts: Seq<Seq<DiagnosticModel>>) -> Seq<DiagnosticModel>
    decreases parts.len(),
{
    if parts.len() == 0 {
        seq![]
    } else {
        concat_all(parts.drop_last()) + parts.last()
    }
}

/// `ds` are the diagnostics of the Markdown document `src`: those of its Cypher blocks,
/// block by block.
pub open spec fn markdown_outcome(src: Seq<char>, rules: Seq<RuleModel>, ds: Seq<DiagnosticModel>) -> bool {
    let snips = cypher_snippets(src);
    exists|parts: Seq<Seq<DiagnosticModel>>|
        #![trigger concat_all(parts)]
        parts.len() == snips.len()
        && (forall|i: int| 0 <= i < snips.len() ==> snippet_outcome(snips[i], rules, #[trigger] parts[i]))
        && ds == concat_all(parts)
}

/// The note for a Cypher block of `path`, starting at line `line`, whose closing fence
/// is missing.
pub open spec fn unclosed_note(path: Seq<char>, line: u32) -> Seq<char> {
    "note: "@ + path + ": unclosed ```cypher fence at line "@ + decimal(line as nat)
}

/// The notes for the blocks of `snips` that are not closed, in order.
pub open spec fn unclosed_notes(path: Seq<char>, snips: Seq<SnippetModel>) -> Seq<Seq<char>>
    decreases snips.len(),
{
    if snips.len() == 0 {
        seq![]
    } else {
        let rest = unclosed_notes(path, snips.drop_last());
        if snips.last().closed {
            rest
        } else {
            rest.push(unclosed_note(path, snips.last().start_line))
        }
    }
}

/// `line` moved down `by` lines.
fn shift_line_exec(line: u32, by: u32) -> (r: u32)
    ensures
        r == shift_line(line, by),
{
    if line <= u32::MAX - by {
        line + by
    } else {
        line - (u32::MAX - by) - 1
    }
}

/// Moves the diagnostics of `ds` down `by` lines and appends them to `out`.
fn push_shifted(out: &mut Vec<Diagnostic>, ds: Vec<Diagnostic>, by: u32)
    ensures
        diags_view(final(out)@) == diags_view(old(out)@) + diags_view(ds@).map_values(|d: DiagnosticModel| shifted_diag(d, by)),
{
    let ghost before = diags_view(out@);
    let ghost base = diags_view(ds@);
    let ghost n = base.len();
    let mut rest = ds;
    while rest.len() > 0
        invariant
            n == base.len(),
            rest@.len() <= n,
            forall|i: int| 0 <= i < rest@.len() ==> #[trigger] rest@[i]@ == base[n - rest@.len() + i],
            diags_view(out@) == before + base.take(n - rest@.len()).map_values(|d: DiagnosticModel| shifted_diag(d, by)),
        decreases rest@.len(),
    {
        let ghost k = n - rest@.len();
        let ghost old_rest = rest@;
        let mut d = rest.remove(0);
        assert(d@ == base[k]);
        assert forall|i: int| 0 <= i < rest@.len() implies #[trigger] rest@[i]@ == base[n - rest@.len() + i] by {
            assert(rest@[i] == old_rest[i + 1]);
        }
        d.range.start.line = shift_line_exec(d.range.start.line, by);
        d.range.end.line = shift_line_exec(d.range.end.line, by);
        assert(d@ == shifted_diag(base[k], by));
        let ghost prev = out@;
        out.push(d);
        assert(diags_view(out@) =~= diags_view(prev).push(d@));
        assert(base.take(k + 1).map_values(|d: DiagnosticModel| shifted_diag(d, by))
            =~= base.take(k).map_values(|d: DiagnosticModel| shifted_diag(d, by)).push(shifted_diag(base[k], by)));
    }
    assert(base.take(n as int) =~= base);
}

/// The values of a list of blocks.
pub open spec fn snippets_view(ss: Seq<CypherSnippet>) -> Seq<SnippetModel> {
    ss.map_values(|s: CypherSnippet| s@)
}

/// The values of a list of diagnostic lists.
pub open spec fn diag_lists_view(dss: Seq<Vec<Diagnostic>>) -> Seq<Seq<DiagnosticModel>> {
    dss.map_values(|v: Vec<Diagnostic>| diags_view(v@))
}

/// What block `s` contributes to its document's diagnostics, given `ds`, those of its
/// content linted on its own: nothing for a blank block, else `ds` moved down to where
/// the block starts.
pub open spec fn block_part(s: SnippetModel, ds: Seq<DiagnosticModel>) -> Seq<DiagnosticModel> {
    if blank(s.content) {
        seq![]
    } else {
        ds.map_values(|d: DiagnosticModel| shifted_diag(d, s.start_line))
    }
}

/// What each of the blocks `snips` contributes, given the diagnostics `dss` of each.
pub open spec fn block_parts(snips: Seq<SnippetModel>, dss: Seq<Seq<DiagnosticModel>>) -> Seq<Seq<DiagnosticModel>> {
    Seq::new(snips.len(), |i: int| block_part(snips[i], dss[i]))
}

/// Whether `s` holds nothing but whitespace.
pub fn is_blank(s: &str) -> (r: bool)
    ensures
        r == blank(s@),
{
    let v = chars_of(s);
    let (a, b) = trim_range(v.as_slice(), 0);
    assert(v@.skip(0) =~= v@);
    a == b
}

/// The notes for the blocks of `snippets`, found in the document `path`, whose closing
/// fence is missing.
pub fn unclosed_fence_notes(path: &str, snippets: &Vec<CypherSnippet>) -> (r: Vec<String>)
    ensures
        strings_view(r@) == unclosed_notes(path@, snippets_view(snippets@)),
{
    let ghost snips = snippets_view(snippets@);
    let mut notes: Vec<String> = Vec::new();
    let n = snippets.len();
    for i in 0..n
        invariant
            n == snippets@.len(),
            snips == snippets_view(snippets@),
            strings_view(notes@) == unclosed_notes(path@, snips.take(i as int)),
    {
        let snippet = &snippets[i];
        assert(snips.take(i + 1).drop_last() =~= snips.take(i as int));
        assert(snips.take(i + 1).last() == snips[i as int]);
        assert(snippet@ == snips[i as int]);
        let ghost notes_before = strings_view(notes@);
        if !snippet.closed {
            let mut note = String::from_str("note: ");
            note.append(path);
            note.append(": unclosed ```cypher fence at line ");
            push_decimal(&mut note, snippet.start_line as u128);
            assert(note@ =~= unclosed_note(path@, snippet.start_line));
            notes.push(note);
            assert(strings_view(notes@) =~= notes_before.push(unclosed_note(path@, snippet.start_line)));
        }
        assert(strings_view(notes@) =~= unclosed_notes(path@, snips.take(i + 1)));
    }
    assert(snips.take(n as int) =~= snips);
    notes
}

/// The diagnostics of a Markdown document with the blocks `snippets`, given
/// `block_diags[i]`, the diagnostics of block `i`'s content linted on its own: block after
/// block, each moved down to where its block starts; blank blocks contribute nothing.
pub fn markdown_diagnostics(snippets: &Vec<CypherSnippet>, block_diags: Vec<Vec<Diagnostic>>) -> (r: Vec<Diagnostic>)
    requires
        snippets@.len() == block_diags@.len(),
    ensures
        diags_view(r@) == concat_all(block_parts(snippets_view(snippets@), diag_lists_view(block_diags@))),
{
    let ghost snips = snippets_view(snippets@);
    let ghost dss = diag_lists_view(block_diags@);
    let ghost parts = block_parts(snips, dss);
    let mut out: Vec<Diagnostic> = Vec::new();
    let mut rest = block_diags;
    let n = snippets.len();
    let mut i: usize = 0;
    while i < n
        invariant
            n == snippets@.len(),
            i <= n,
            rest@.len() == n - i,
            snips == snippets_view(snippets@),
            parts == block_parts(snips, dss),
            dss.len() == n,
            forall|k: int| 0 <= k < rest@.len() ==> #[trigger] diags_view(rest@[k]@) == dss[i + k],
            diags_view(out@) == concat_all(parts.take(i as int)),
        decreases n - i,
    {
        let ghost old_rest = rest@;
        let ds = rest.remove(0);
        assert(diags_view(ds@) == dss[i as int]);
        assert forall|k: int| 0 <= k < rest@.len() implies #[trigger] diags_view(rest@[k]@) == dss[i + 1 + k] by {
            assert(rest@[k] == old_rest[k + 1]);
        }
        let snippet = &snippets[i];
        assert(snippet@ == snips[i as int]);
        assert(parts.take(i + 1).drop_last() =~= parts.take(i as int));
        assert(parts.take(i + 1).last() == parts[i as int]);
        if is_blank(snippet.content.as_str()) {
            assert(parts[i as int] =~= Seq::<DiagnosticModel>::empty());
            assert(concat_all(parts.take(i + 1)) =~= concat_all(parts.take(i as int)));
        } else {
            push_shifted(&mut out, ds, snippet.start_line);
        }
        i = i + 1;
    }
    assert(parts.take(n as int) =~= parts);
    out
}

/// Lints the Cypher blocks of the Markdown document `full_source`, named `path`. Each
/// block that is not blank is linted on its own and its diagnostics moved down to where
/// it starts. The second part of the result holds a note for each block whose closing
/// fence is missing. `None` when linting a block gives `None`; a document whose blocks
/// are all blank (or that has none) is never refused.
pub fn lint_markdown_source(full_source: String, path: String, rules: &Vec<Rule>, languages: &Languages) -> (r: Option<(SourceResult, Vec<String>)>)
    ensures
        r matches Some((res, notes)) ==> {
            &&& res.path@ == path@
            &&& res.source@ == full_source@
            &&& markdown_outcome(full_source@, rules_view(rules@), diags_view(res.diags@))
            &&& strings_view(notes@) == unclosed_notes(path@, cypher_snippets(full_source@))
        },
        (forall|i: int| 0 <= i < cypher_snippets(full_source@).len() ==> blank(#[trigger] cypher_snippets(full_source@)[i].content))
            ==> r is Some,
{
    let snippets = extract_cypher_snippets(full_source.as_str());
    let ghost snips = cypher_snippets(full_source@);
    assert(snippets_view(snippets@) =~= snips);
    let ghost rv = rules_view(rules@);
    let notes = unclosed_fence_notes(path.as_str(), &snippets);
    let mut block_diags: Vec<Vec<Diagnostic>> = Vec::new();
    let n = snippets.len();
    for i in 0..n
        invariant
            n == snippets@.len(),
            snips == snippets_view(snippets@),
            snips == cypher_snippets(full_source@),
            rv == rules_view(rules@),
            block_diags@.len() == i,
            forall|k: int|
                0 <= k < i && !blank(snips[k].content) ==> analysis_outcome(snips[k].content, rv, #[trigger] diag_lists_view(block_diags@)[k]),
    {
        let snippet = &snippets[i];
        assert(snippet@ == snips[i as int]);
        let ghost before = block_diags@;
        let ds = if is_blank(snippet.content.as_str()) {
            Vec::new()
        } else {
            match analyze(snippet.content.clone(), path.clone(), rules, languages) {
                Some(res) => res.diags,
                None => {
                    assert(!blank(cypher_snippets(full_source@)[i as int].content));
                    return None;
                },
            }
        };
        assert(!blank(snips[i as int].content) ==> analysis_outcome(snips[i as int].content, rv, diags_view(ds@)));
        block_diags.push(ds);
        assert(diag_lists_view(block_diags@)[i as int] == diags_view(ds@));
        assert forall|k: int| 0 <= k < i + 1 && !blank(snips[k].content) implies analysis_outcome(snips[k].content, rv, #[trigger] diag_lists_view(block_diags@)[k]) by {
            if k < i {
                assert(block_diags@[k] == before[k]);
                assert(diag_lists_view(block_diags@)[k] == diag_lists_view(before)[k]);
            }
        }
    }
    let ghost dss = diag_lists_view(block_diags@);
    let ghost parts = block_parts(snips, dss);
    let diags = markdown_diagnostics(&snippets, block_diags);
    assert forall|k: int| 0 <= k < snips.len() implies snippet_outcome(snips[k], rv, #[trigger] parts[k]) by {
        if !blank(snips[k].content) {
            assert(analysis_outcome(snips[k].content, rv, dss[k]));
        }
    }
    assert(diags_view(diags@) == concat_all(parts));
    Some((SourceResult { path, source: full_source, diags }, notes))
}

/// The parse tree of `source`, parsed with the Cypher grammar, as an S-expression; `None`
/// when the parser does not accept the grammar.
pub fn tree_text(languages: &Languages, source: &str) -> (r: Option<TreeSexp>)
    ensures
        r matches Some(t) ==> t.text() == source@ && t.grammar() == Grammar::Cypher,
{
    let parsed = match parse_source(languages, Grammar::Cypher, source) {
        Some(t) => t,
        None => return None,
    };
    Some(tree_sexp(&parsed))
}

} // verus!
