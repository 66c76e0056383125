//! Which diagnostics a Cypher source gets from its syntax tree, the rules'
//! query matches, and its doc comments.

use vstd::prelude::*;

use crate::diagnostics::{clone_opt_string, diags_view, Diagnostic, DiagnosticModel, Position, Range, Severity};
use crate::position::{
    byte_len, chars_with_len, chars_within, chars_within_exec, floor_boundary,
    lemma_chars_within_bound, lemma_chars_within_mono, line_col_exec, spec_byte_to_line_col,
};
use crate::rules::{rules_view, AppliesTo, Rule, RuleModel};
use crate::syntax::{Grammar, MatchOrigin, MatchTag};
use crate::tree::{NodeModel, SyntaxNode, SyntaxTree, TreeModel};

verus! {

/// The position of byte offset `byte` of `src`, its line and column cut to 32 bits.
pub open spec fn position_of(src: Seq<char>, byte: int) -> Position {
    let lc = spec_byte_to_line_col(src, byte);
    Position { line: lc.0 as u32, character: lc.1 as u32 }
}

/// The range between two byte offsets of `src`.
pub open spec fn range_of(src: Seq<char>, start: int, end: int) -> Range {
    Range { start: position_of(src, start), end: position_of(src, end) }
}

/// The smaller of two integers.
pub open spec fn min_int(a: int, b: int) -> int {
    if a <= b {
        a
    } else {
        b
    }
}

/// The diagnostic `rule` raises for a node spanning `span`, given relative to a part of
/// `src` that starts at byte `offset`; the range is capped at the end of `src`.
pub open spec fn spec_make_diagnostic(rule: RuleModel, span: (usize, usize), src: Seq<char>, offset: int) -> DiagnosticModel {
    let len = byte_len(src) as int;
    DiagnosticModel {
        severity: rule.severity,
        rule: rule.name,
        message: rule.message,
        range: range_of(src, min_int(span.0 + offset, len), min_int(span.1 + offset, len)),
        code: rule.code,
    }
}

/// The position of byte offset `byte` in the text whose characters are `v`.
pub fn position_at(v: &Vec<char>, byte: usize) -> (p: Position)
    requires
        byte_len(v@) <= usize::MAX,
    ensures
        p == position_of(v@, byte as int),
{
    let (k, _) = chars_within_exec(v, byte);
    proof {
        lemma_chars_within_bound(v@, byte as int);
    }
    let (line, col) = line_col_exec(v, k);
    Position { line: line as u32, character: col as u32 }
}

/// The diagnostic `rule` raises for the node spanning `start..end` of a part of the source
/// `v` that starts at byte `byte_offset`.
pub fn make_diagnostic(rule: &Rule, start: usize, end: usize, v: &Vec<char>, byte_offset: usize) -> (d: Diagnostic)
    requires
        byte_len(v@) <= usize::MAX,
        start + byte_offset <= usize::MAX,
        end + byte_offset <= usize::MAX,
    ensures
        d@ == spec_make_diagnostic(rule@, (start, end), v@, byte_offset as int),
{
    let len = byte_len_exec(v);
    let s = start + byte_offset;
    let e = end + byte_offset;
    let abs_start = if s <= len { s } else { len };
    let abs_end = if e <= len { e } else { len };
    Diagnostic {
        severity: rule.severity,
        rule: rule.name.clone(),
        message: rule.message.clone(),
        range: Range { start: position_at(v, abs_start), end: position_at(v, abs_end) },
        code: clone_opt_string(&rule.code),
    }
}

/// The number of bytes of the text whose characters are `v`.
pub fn byte_len_exec(v: &Vec<char>) -> (n: usize)
    requires
        byte_len(v@) <= usize::MAX,
    ensures
        n == byte_len(v@),
{
    let (k, pos) = chars_within_exec(v, usize::MAX);
    proof {
        lemma_chars_within_all(v@, usize::MAX as int);
        assert(v@.take(v@.len() as int) =~= v@);
    }
    pos
}

/// With a budget of at least the whole text's bytes, every character fits.
proof fn lemma_chars_within_all(s: Seq<char>, budget: int)
    requires
        byte_len(s) <= budget,
    ensures
        chars_within(s, budget) == s.len(),
    decreases s.len(),
{
    if s.len() > 0 {
        lemma_chars_within_all(s.drop_first(), budget - crate::position::utf8_width(s[0]));
    }
}

// ---- the tree ----

/// The children of the root: the nodes of depth one, in order.
pub open spec fn root_children(nodes: Seq<NodeModel>) -> Seq<NodeModel>
    decreases nodes.len(),
{
    if nodes.len() == 0 {
        seq![]
    } else if nodes.last().depth == 1 {
        root_children(nodes.drop_last()).push(nodes.last())
    } else {
        root_children(nodes.drop_last())
    }
}

/// The first named node among `cs`.
pub open spec fn first_named(cs: Seq<NodeModel>) -> Option<NodeModel>
    decreases cs.len(),
{
    if cs.len() == 0 {
        None
    } else if cs[0].is_named {
        Some(cs[0])
    } else {
        first_named(cs.drop_first())
    }
}

/// A doc comment's tree has content when its root has a named child.
pub open spec fn has_content(t: TreeModel) -> bool {
    first_named(root_children(t.nodes)) is Some
}

/// A doc comment lacks a tool name when its root's first named child is not a non-empty
/// `name` node.
pub open spec fn lacks_tool_name(t: TreeModel) -> bool {
    match first_named(root_children(t.nodes)) {
        None => true,
        Some(n) => n.kind != "name"@ || n.start == n.end,
    }
}

/// Where the syntax errors of a tree are: each node that is an error or was inserted by
/// the parser, unless it lies inside another such node, in pre-order. Walking the nodes
/// in pre-order, `skip` is the depth of the error node whose subtree is being passed over.
pub open spec fn error_scan(nodes: Seq<NodeModel>) -> (Seq<(usize, usize)>, Option<u32>)
    decreases nodes.len(),
{
    if nodes.len() == 0 {
        (seq![], None)
    } else {
        let st = error_scan(nodes.drop_last());
        let n = nodes.last();
        if st.1 matches Some(d) && n.depth > d {
            st
        } else if n.is_error || n.is_missing {
            (st.0.push((n.start, n.end)), Some(n.depth))
        } else {
            (st.0, None)
        }
    }
}

/// The spans of a tree's syntax errors; none when the tree reports none.
pub open spec fn error_spans(t: TreeModel) -> Seq<(usize, usize)> {
    if t.has_error {
        error_scan(t.nodes).0
    } else {
        seq![]
    }
}

/// The diagnostic for a syntax error spanning `span`.
pub open spec fn parse_error_diagnostic(src: Seq<char>, span: (usize, usize)) -> DiagnosticModel {
    DiagnosticModel {
        severity: Severity::Error,
        rule: "ParseError"@,
        message: "Syntax error in Cypher query."@,
        range: range_of(src, span.0 as int, span.1 as int),
        code: None,
    }
}

/// The diagnostics for the syntax errors spanning `spans`.
pub open spec fn parse_error_diagnostics(src: Seq<char>, spans: Seq<(usize, usize)>) -> Seq<DiagnosticModel> {
    spans.map_values(|sp: (usize, usize)| parse_error_diagnostic(src, sp))
}

/// The spans of the syntax errors of `t`.
pub fn collect_error_nodes(t: &SyntaxTree) -> (r: Vec<(usize, usize)>)
    ensures
        r@ == error_spans(t@),
{
    let mut spans: Vec<(usize, usize)> = Vec::new();
    if !t.has_error {
        return spans;
    }
    let ghost nodes = t@.nodes;
    let mut skip: Option<u32> = None;
    let n = t.nodes.len();
    for i in 0..n
        invariant
            n == t.nodes@.len(),
            nodes == t@.nodes,
            t.has_error,
            error_scan(nodes.take(i as int)) == (spans@, skip),
    {
        let node = &t.nodes[i];
        proof {
            assert(nodes.take(i + 1).drop_last() =~= nodes.take(i as int));
            assert(nodes.take(i + 1).last() == node@);
        }
        let inside = match skip {
            Some(d) => node.depth > d,
            None => false,
        };
        if !inside {
            if node.is_error || node.is_missing {
                spans.push((node.start, node.end));
                skip = Some(node.depth);
            } else {
                skip = None;
            }
        }
    }
    assert(nodes.take(n as int) =~= nodes);
    spans
}

/// A statement, with the doc comment right before it, if there is one.
pub struct DocStatementPair {
    pub doc_start_byte: Option<usize>,
    pub doc_end_byte: Option<usize>,
    pub statement_start_byte: usize,
    pub statement_end_byte: usize,
}

/// The value of a `DocStatementPair`: the doc comment's span and the statement's.
pub struct PairModel {
    pub doc: Option<(usize, usize)>,
    pub statement: (usize, usize),
}

impl View for DocStatementPair {
    type V = PairModel;

    open spec fn view(&self) -> PairModel {
        PairModel {
            doc: match (self.doc_start_byte, self.doc_end_byte) {
                (Some(s), Some(e)) => Some((s, e)),
                _ => None,
            },
            statement: (self.statement_start_byte, self.statement_end_byte),
        }
    }
}

/// The statements among the root's children, each with the doc comment that stands right
/// before it, if one does.
pub open spec fn pairs_of(cs: Seq<NodeModel>) -> Seq<PairModel>
    decreases cs.len(),
{
    if cs.len() == 0 {
        seq![]
    } else if cs[0].kind == "doc_comment"@ && cs.len() > 1 && cs[1].kind == "statement"@ {
        seq![PairModel { doc: Some((cs[0].start, cs[0].end)), statement: (cs[1].start, cs[1].end) }]
            + pairs_of(cs.skip(2))
    } else if cs[0].kind == "statement"@ {
        seq![PairModel { doc: None, statement: (cs[0].start, cs[0].end) }] + pairs_of(cs.drop_first())
    } else {
        pairs_of(cs.drop_first())
    }
}

/// The statements of a tree, with their doc comments.
pub open spec fn tree_pairs(t: TreeModel) -> Seq<PairModel> {
    pairs_of(root_children(t.nodes))
}

/// The values of a list of pairs.
pub open spec fn pairs_view(ps: Seq<DocStatementPair>) -> Seq<PairModel> {
    ps.map_values(|p: DocStatementPair| p@)
}

/// The children of the root of `t`, in order.
fn root_children_exec(t: &SyntaxTree) -> (r: Vec<&SyntaxNode>)
    ensures
        r@.map_values(|n: &SyntaxNode| n@) == root_children(t@.nodes),
{
    let mut r: Vec<&SyntaxNode> = Vec::new();
    let ghost nodes = t@.nodes;
    let n = t.nodes.len();
    for i in 0..n
        invariant
            n == t.nodes@.len(),
            nodes == t@.nodes,
            r@.map_values(|x: &SyntaxNode| x@) == root_children(nodes.take(i as int)),
    {
        let ghost before = r@;
        proof {
            assert(nodes.take(i + 1).drop_last() =~= nodes.take(i as int));
            assert(nodes.take(i + 1).last() == t.nodes@[i as int]@);
        }
        if t.nodes[i].depth == 1 {
            r.push(&t.nodes[i]);
            assert(r@.map_values(|x: &SyntaxNode| x@) =~= before.map_values(|x: &SyntaxNode| x@).push(t.nodes@[i as int]@));
        }
    }
    assert(nodes.take(n as int) =~= nodes);
    r
}

/// Whether the characters of `s` read `lit`.
pub(crate) fn str_is(s: &String, lit: &str) -> (r: bool)
    ensures
        r == (s@ == lit@),
{
    let a = crate::text::chars_of(s.as_str());
    let b = crate::text::chars_of(lit);
    let n = a.len();
    assert(a@.subrange(0, n as int) =~= a@);
    crate::text::range_eq(a.as_slice(), 0, n, b.as_slice())
}

/// The statements of `t`, each with the doc comment right before it, if one is.
pub fn collect_pairs(t: &SyntaxTree) -> (r: Vec<DocStatementPair>)
    ensures
        pairs_view(r@) == tree_pairs(t@),
{
    let cs = root_children_exec(t);
    let ghost cm = cs@.map_values(|n: &SyntaxNode| n@);
    let mut pairs: Vec<DocStatementPair> = Vec::new();
    let n = cs.len();
    let mut i: usize = 0;
    assert(cm.skip(0) =~= cm);
    while i < n
        invariant
            n == cs@.len(),
            cm == cs@.map_values(|x: &SyntaxNode| x@),
            i <= n,
            tree_pairs(t@) == pairs_view(pairs@) + pairs_of(cm.skip(i as int)),
        decreases n - i,
    {
        let ghost rest = cm.skip(i as int);
        let ghost before = pairs@;
        assert(rest[0] == cs@[i as int]@);
        if str_is(&cs[i].kind, "doc_comment") && i + 1 < n && str_is(&cs[i + 1].kind, "statement") {
            assert(rest[1] == cs@[i + 1]@);
            assert(rest.skip(2) =~= cm.skip(i + 2));
            pairs.push(DocStatementPair {
                doc_start_byte: Some(cs[i].start),
                doc_end_byte: Some(cs[i].end),
                statement_start_byte: cs[i + 1].start,
                statement_end_byte: cs[i + 1].end,
            });
            assert(pairs_view(pairs@) =~= pairs_view(before).push(pairs@.last()@));
            i = i + 2;
        } else if str_is(&cs[i].kind, "statement") {
            assert(rest.drop_first() =~= cm.skip(i + 1));
            pairs.push(DocStatementPair {
                doc_start_byte: None,
                doc_end_byte: None,
                statement_start_byte: cs[i].start,
                statement_end_byte: cs[i].end,
            });
            assert(pairs_view(pairs@) =~= pairs_view(before).push(pairs@.last()@));
            i = i + 1;
        } else {
            assert(rest.drop_first() =~= cm.skip(i + 1));
            i = i + 1;
        }
    }
    assert(cm.skip(n as int) =~= Seq::<NodeModel>::empty());
    assert(pairs_view(pairs@) =~= pairs_view(pairs@) + Seq::<PairModel>::empty());
    pairs
}

// ---- query matches ----

/// A byte range `start..end`.
pub type Span = (usize, usize);

/// The values of a list of query matches, each the spans of its captures.
pub open spec fn matches_view(ms: Seq<Vec<Span>>) -> Seq<Seq<Span>> {
    ms.map_values(|m: Vec<Span>| m@)
}

/// The values of the matches of several rules.
pub open spec fn rule_matches_view(rm: Seq<Vec<Vec<Span>>>) -> Seq<Seq<Seq<Span>>> {
    rm.map_values(|ms: Vec<Vec<Span>>| matches_view(ms@))
}

/// The diagnostics `rule` raises for its matches `ms`, one per match, at the match's first
/// capture.
pub open spec fn match_diagnostics(rule: RuleModel, ms: Seq<Seq<Span>>, src: Seq<char>, offset: int) -> Seq<DiagnosticModel> {
    ms.map_values(|m: Seq<Span>| spec_make_diagnostic(rule, m[0], src, offset))
}

/// The diagnostics the rules of kind `kind` raise for their matches `rm` (`rm[i]` being
/// those of `rules[i]`), rule after rule.
pub open spec fn rules_diagnostics(
    src: Seq<char>,
    rules: Seq<RuleModel>,
    rm: Seq<Seq<Seq<Span>>>,
    kind: AppliesTo,
    offset: int,
) -> Seq<DiagnosticModel>
    decreases rules.len(),
{
    if rules.len() == 0 {
        seq![]
    } else {
        rules_diagnostics(src, rules.drop_last(), rm, kind, offset) + if rules.last().applies_to == kind {
            match_diagnostics(rules.last(), rm[rules.len() - 1], src, offset)
        } else {
            seq![]
        }
    }
}

/// Every match has a capture.
pub open spec fn matches_captured(ms: Seq<Seq<Span>>) -> bool {
    forall|i: int| 0 <= i < ms.len() ==> #[trigger] ms[i].len() > 0
}

/// The first capture of every match starts no later than it ends, and moved by `offset`
/// stays within `usize`.
pub open spec fn first_captures_fit(ms: Seq<Seq<Span>>, offset: int) -> bool {
    forall|i: int|
        0 <= i < ms.len() ==> #[trigger] ms[i][0].0 <= ms[i][0].1 && ms[i][0].0 + offset <= usize::MAX && ms[i][0].1
            + offset <= usize::MAX
}

/// The matches of the rules of kind `kind` can be turned into diagnostics at `offset`.
pub open spec fn rule_matches_usable(rules: Seq<RuleModel>, rm: Seq<Seq<Seq<Span>>>, kind: AppliesTo, offset: int) -> bool {
    &&& rm.len() == rules.len()
    &&& forall|i: int| 0 <= i < rules.len() && #[trigger] rules[i].applies_to == kind ==> {
        &&& matches_captured(rm[i])
        &&& first_captures_fit(rm[i], offset)
    }
}

/// The diagnostics for the matches of rule `rule`.
fn match_diagnostics_exec(rule: &Rule, ms: &Vec<Vec<Span>>, v: &Vec<char>, offset: usize, out: &mut Vec<Diagnostic>)
    requires
        byte_len(v@) <= usize::MAX,
        matches_captured(matches_view(ms@)),
        first_captures_fit(matches_view(ms@), offset as int),
    ensures
        diags_view(final(out)@) == diags_view(old(out)@) + match_diagnostics(rule@, matches_view(ms@), v@, offset as int),
{
    let ghost start = diags_view(out@);
    let n = ms.len();
    for i in 0..n
        invariant
            n == ms@.len(),
            byte_len(v@) <= usize::MAX,
            matches_captured(matches_view(ms@)),
            first_captures_fit(matches_view(ms@), offset as int),
            diags_view(out@) == start + match_diagnostics(rule@, matches_view(ms@).take(i as int), v@, offset as int),
    {
        let ghost before = out@;
        proof {
            assert(matches_view(ms@)[i as int] == ms@[i as int]@);
            assert(matches_view(ms@)[i as int].len() > 0);
        }
        let m = &ms[i];
        let (s, e) = m[0];
        let d = make_diagnostic(rule, s, e, v, offset);
        out.push(d);
        proof {
            assert(matches_view(ms@).take(i + 1) =~= matches_view(ms@).take(i as int).push(matches_view(ms@)[i as int]));
            assert(diags_view(out@) =~= diags_view(before).push(d@));
            assert(match_diagnostics(rule@, matches_view(ms@).take(i + 1), v@, offset as int) =~= match_diagnostics(
                rule@,
                matches_view(ms@).take(i as int),
                v@,
                offset as int,
            ).push(d@));
        }
    }
    assert(matches_view(ms@).take(n as int) =~= matches_view(ms@));
}

/// The diagnostics the rules of kind `kind` raise for their matches `rm`.
fn rules_diagnostics_exec(
    rules: &Vec<Rule>,
    rm: &Vec<Vec<Vec<Span>>>,
    kind: AppliesTo,
    v: &Vec<char>,
    offset: usize,
    out: &mut Vec<Diagnostic>,
)
    requires
        byte_len(v@) <= usize::MAX,
        rule_matches_usable(rules_view(rules@), rule_matches_view(rm@), kind, offset as int),
    ensures
        diags_view(final(out)@) == diags_view(old(out)@) + rules_diagnostics(
            v@,
            rules_view(rules@),
            rule_matches_view(rm@),
            kind,
            offset as int,
        ),
{
    let ghost start = diags_view(out@);
    let ghost rv = rules_view(rules@);
    let ghost rmv = rule_matches_view(rm@);
    let n = rules.len();
    for i in 0..n
        invariant
            n == rules@.len(),
            rv == rules_view(rules@),
            rmv == rule_matches_view(rm@),
            byte_len(v@) <= usize::MAX,
            rule_matches_usable(rv, rmv, kind, offset as int),
            diags_view(out@) == start + rules_diagnostics(v@, rv.take(i as int), rmv, kind, offset as int),
    {
        let ghost before = diags_view(out@);
        proof {
            assert(rv.take(i + 1).drop_last() =~= rv.take(i as int));
            assert(rv.take(i + 1).last() == rules@[i as int]@);
            assert(rmv[i as int] == matches_view(rm@[i as int]@));
        }
        if rules[i].applies_to == kind {
            proof {
                assert(rv[i as int].applies_to == kind);
            }
            match_diagnostics_exec(&rules[i], &rm[i], v, offset, out);
        }
        assert(diags_view(out@) =~= start + rules_diagnostics(v@, rv.take(i + 1), rmv, kind, offset as int));
    }
    assert(rv.take(n as int) =~= rv);
}

/// The diagnostics for the syntax errors spanning `spans`.
fn parse_error_diagnostics_exec(spans: &Vec<Span>, v: &Vec<char>, out: &mut Vec<Diagnostic>)
    requires
        byte_len(v@) <= usize::MAX,
    ensures
        diags_view(final(out)@) == diags_view(old(out)@) + parse_error_diagnostics(v@, spans@),
{
    let ghost start = diags_view(out@);
    let n = spans.len();
    for i in 0..n
        invariant
            n == spans@.len(),
            byte_len(v@) <= usize::MAX,
            diags_view(out@) == start + parse_error_diagnostics(v@, spans@.take(i as int)),
    {
        let ghost before = out@;
        let (s, e) = spans[i];
        let d = Diagnostic {
            severity: Severity::Error,
            rule: String::from_str("ParseError"),
            message: String::from_str("Syntax error in Cypher query."),
            range: Range { start: position_at(v, s), end: position_at(v, e) },
            code: None,
        };
        out.push(d);
        proof {
            assert(spans@.take(i + 1) =~= spans@.take(i as int).push(spans@[i as int]));
            assert(diags_view(out@) =~= diags_view(before).push(d@));
            assert(parse_error_diagnostics(v@, spans@.take(i + 1)) =~= parse_error_diagnostics(v@, spans@.take(i as int)).push(d@));
        }
    }
    assert(spans@.take(n as int) =~= spans@);
}

// ---- parameters of doc comments ----

/// The text of `s` in the byte range `sp` (each end moved down to a character boundary).
pub open spec fn span_text(s: Seq<char>, sp: Span) -> Seq<char> {
    s.subrange(chars_within(s, sp.0 as int) as int, chars_within(s, sp.1 as int) as int)
}

/// `sp` is a byte range of `s` whose ends lie on character boundaries, the start not after
/// the end: a range `&s[sp.0..sp.1]` takes without panicking.
pub open spec fn valid_span(s: Seq<char>, sp: Span) -> bool {
    &&& sp.0 <= sp.1
    &&& floor_boundary(s, sp.0 as int) == sp.0
    &&& floor_boundary(s, sp.1 as int) == sp.1
}

/// All the captures of a list of matches, in order.
pub open spec fn all_captures(ms: Seq<Seq<Span>>) -> Seq<Span>
    decreases ms.len(),
{
    if ms.len() == 0 {
        seq![]
    } else {
        all_captures(ms.drop_last()) + ms.last()
    }
}

/// The texts of `s` in the ranges `spans`.
pub open spec fn capture_texts(s: Seq<char>, spans: Seq<Span>) -> Seq<Seq<char>> {
    spans.map_values(|sp: Span| span_text(s, sp))
}

/// `xs` without repeats, each kept where it first occurs.
pub open spec fn dedup(xs: Seq<Seq<char>>) -> Seq<Seq<char>>
    decreases xs.len(),
{
    if xs.len() == 0 {
        seq![]
    } else if dedup(xs.drop_last()).contains(xs.last()) {
        dedup(xs.drop_last())
    } else {
        dedup(xs.drop_last()).push(xs.last())
    }
}

/// Number of `$` signs at the front of `s`.
pub open spec fn leading_dollars(s: Seq<char>) -> nat
    decreases s.len(),
{
    if s.len() > 0 && s[0] == '$' {
        1 + leading_dollars(s.drop_first())
    } else {
        0
    }
}

/// `s` without its leading `$` signs (`str::trim_start_matches('$')`).
pub open spec fn trim_dollars(s: Seq<char>) -> Seq<char> {
    s.skip(leading_dollars(s) as int)
}

/// The ranges `spans` moved `offset` bytes further.
pub open spec fn shifted(spans: Seq<Span>, offset: int) -> Seq<Span> {
    spans.map_values(|sp: Span| ((sp.0 + offset) as usize, (sp.1 + offset) as usize))
}

/// The parameter names at `spans` of `s`: their texts without leading `$` signs.
pub open spec fn param_names(s: Seq<char>, spans: Seq<Span>) -> Seq<Seq<char>> {
    spans.map_values(|sp: Span| trim_dollars(span_text(s, sp)))
}

/// The names of `xs` that are not among `ys`, in order.
pub open spec fn names_without(xs: Seq<Seq<char>>, ys: Seq<Seq<char>>) -> Seq<Seq<char>>
    decreases xs.len(),
{
    if xs.len() == 0 {
        seq![]
    } else if ys.contains(xs.last()) {
        names_without(xs.drop_last(), ys)
    } else {
        names_without(xs.drop_last(), ys).push(xs.last())
    }
}

/// The characters of each of a list of character vectors.
pub open spec fn seqs_view(v: Seq<Vec<char>>) -> Seq<Seq<char>> {
    v.map_values(|x: Vec<char>| x@)
}

/// Whether `sp` is a valid range of the text whose characters are `v`.
pub(crate) fn valid_span_exec(v: &Vec<char>, sp: Span) -> (r: bool)
    ensures
        r == valid_span(v@, sp),
{
    if sp.0 > sp.1 {
        return false;
    }
    let (_, a) = chars_within_exec(v, sp.0);
    let (_, b) = chars_within_exec(v, sp.1);
    a == sp.0 && b == sp.1
}

/// The characters of `v` in the byte range `sp`.
pub(crate) fn span_text_exec(v: &Vec<char>, sp: Span) -> (r: Vec<char>)
    requires
        sp.0 <= sp.1,
    ensures
        r@ == span_text(v@, sp),
{
    let (a, _) = chars_within_exec(v, sp.0);
    let (b, _) = chars_within_exec(v, sp.1);
    proof {
        lemma_chars_within_mono(v@, sp.0 as int, sp.1 as int);
        lemma_chars_within_bound(v@, sp.1 as int);
    }
    crate::text::copy_range(v, a, b)
}

/// `s` without its leading `$` signs.
fn trim_dollars_exec(s: &Vec<char>) -> (r: Vec<char>)
    ensures
        r@ == trim_dollars(s@),
{
    let n = s.len();
    let mut i: usize = 0;
    assert(s@.skip(0) =~= s@);
    while i < n && s[i] == '$'
        invariant
            n == s@.len(),
            i <= n,
            leading_dollars(s@) == i + leading_dollars(s@.skip(i as int)),
        decreases n - i,
    {
        assert(s@.skip(i as int).drop_first() =~= s@.skip(i + 1));
        i = i + 1;
    }
    proof {
        if i < n {
            assert(s@.skip(i as int)[0] == s@[i as int]);
        } else {
            assert(s@.skip(n as int) =~= Seq::<char>::empty());
        }
    }
    crate::text::copy_range(s, i, n)
}

/// Whether two character vectors hold the same characters.
fn chars_eq(a: &Vec<char>, b: &Vec<char>) -> (r: bool)
    ensures
        r == (a@ == b@),
{
    let n = a.len();
    assert(a@.subrange(0, n as int) =~= a@);
    crate::text::range_eq(a.as_slice(), 0, n, b.as_slice())
}

/// Whether `x` is among `list`.
fn contains_chars(list: &Vec<Vec<char>>, x: &Vec<char>) -> (r: bool)
    ensures
        r == seqs_view(list@).contains(x@),
{
    let n = list.len();
    for i in 0..n
        invariant
            n == list@.len(),
            forall|k: int| 0 <= k < i ==> list@[k]@ != x@,
    {
        if chars_eq(&list[i], x) {
            assert(seqs_view(list@)[i as int] == x@);
            return true;
        }
    }
    proof {
        if seqs_view(list@).contains(x@) {
            let k = choose|k: int| 0 <= k < seqs_view(list@).len() && seqs_view(list@)[k] == x@;
            assert(list@[k]@ == x@);
        }
    }
    false
}

/// All the captures of the matches `ms`, in order.
fn all_captures_exec(ms: &Vec<Vec<Span>>) -> (r: Vec<Span>)
    ensures
        r@ == all_captures(matches_view(ms@)),
{
    let mut r: Vec<Span> = Vec::new();
    let ghost mv = matches_view(ms@);
    let n = ms.len();
    for i in 0..n
        invariant
            n == ms@.len(),
            mv == matches_view(ms@),
            r@ == all_captures(mv.take(i as int)),
    {
        let ghost before = r@;
        let m = &ms[i];
        let k = m.len();
        for j in 0..k
            invariant
                k == m@.len(),
                r@ == before + m@.take(j as int),
        {
            r.push(m[j]);
            assert(m@.take(j + 1) =~= m@.take(j as int).push(m@[j as int]));
        }
        proof {
            assert(m@.take(k as int) =~= m@);
            assert(mv.take(i + 1).drop_last() =~= mv.take(i as int));
            assert(mv.take(i + 1).last() == m@);
        }
    }
    assert(mv.take(n as int) =~= mv);
    r
}

/// The names declared at the captures `caps` of the doc text `doc`, without repeats.
fn declared_params_exec(doc: &Vec<char>, caps: &Vec<Span>) -> (r: Vec<Vec<char>>)
    requires
        forall|i: int| 0 <= i < caps@.len() ==> valid_span(doc@, #[trigger] caps@[i]),
    ensures
        seqs_view(r@) == dedup(capture_texts(doc@, caps@)),
{
    let mut r: Vec<Vec<char>> = Vec::new();
    let ghost texts = capture_texts(doc@, caps@);
    let n = caps.len();
    for i in 0..n
        invariant
            n == caps@.len(),
            texts == capture_texts(doc@, caps@),
            forall|k: int| 0 <= k < caps@.len() ==> valid_span(doc@, #[trigger] caps@[k]),
            seqs_view(r@) == dedup(texts.take(i as int)),
    {
        let ghost before = r@;
        assert(valid_span(doc@, caps@[i as int]));
        let text = span_text_exec(doc, caps[i]);
        proof {
            assert(texts.take(i + 1).drop_last() =~= texts.take(i as int));
            assert(texts.take(i + 1).last() == text@);
        }
        if !contains_chars(&r, &text) {
            r.push(text);
            assert(seqs_view(r@) =~= seqs_view(before).push(r@.last()@));
        }
    }
    assert(texts.take(n as int) =~= texts);
    r
}

/// The parameter names at the captures `caps` of `s`.
fn param_names_exec(s: &Vec<char>, caps: &Vec<Span>) -> (r: Vec<Vec<char>>)
    requires
        forall|i: int| 0 <= i < caps@.len() ==> valid_span(s@, #[trigger] caps@[i]),
    ensures
        seqs_view(r@) == param_names(s@, caps@),
{
    let mut r: Vec<Vec<char>> = Vec::new();
    let n = caps.len();
    for i in 0..n
        invariant
            n == caps@.len(),
            forall|k: int| 0 <= k < caps@.len() ==> valid_span(s@, #[trigger] caps@[k]),
            seqs_view(r@) == param_names(s@, caps@.take(i as int)),
    {
        let ghost before = r@;
        assert(valid_span(s@, caps@[i as int]));
        let text = span_text_exec(s, caps[i]);
        let name = trim_dollars_exec(&text);
        r.push(name);
        proof {
            assert(caps@.take(i + 1) =~= caps@.take(i as int).push(caps@[i as int]));
            assert(seqs_view(r@) =~= seqs_view(before).push(name@));
        }
    }
    assert(caps@.take(n as int) =~= caps@);
    r
}

/// Each of `spans`, moved by `offset`, stays within `usize`.
pub open spec fn spans_fit(spans: Seq<Span>, offset: int) -> bool {
    forall|i: int| 0 <= i < spans.len() ==> #[trigger] spans[i].0 + offset <= usize::MAX && spans[i].1 + offset <= usize::MAX
}

/// The ranges `spans` moved `offset` bytes further.
fn shifted_exec(spans: &Vec<Span>, offset: usize) -> (r: Vec<Span>)
    requires
        spans_fit(spans@, offset as int),
    ensures
        r@ == shifted(spans@, offset as int),
{
    let mut r: Vec<Span> = Vec::new();
    let n = spans.len();
    for i in 0..n
        invariant
            n == spans@.len(),
            spans_fit(spans@, offset as int),
            r@ == shifted(spans@.take(i as int), offset as int),
    {
        let (s, e) = spans[i];
        assert(spans@[i as int].0 + offset <= usize::MAX);
        r.push((s + offset, e + offset));
        assert(spans@.take(i + 1) =~= spans@.take(i as int).push(spans@[i as int]));
        assert(r@ =~= shifted(spans@.take(i + 1), offset as int));
    }
    assert(spans@.take(n as int) =~= spans@);
    r
}

/// The names of `xs` that are not among `ys`.
fn names_without_exec<'a>(xs: &'a Vec<Vec<char>>, ys: &Vec<Vec<char>>) -> (r: Vec<&'a Vec<char>>)
    ensures
        r@.map_values(|x: &Vec<char>| x@) == names_without(seqs_view(xs@), seqs_view(ys@)),
{
    let mut r: Vec<&Vec<char>> = Vec::new();
    let ghost xv = seqs_view(xs@);
    let n = xs.len();
    for i in 0..n
        invariant
            n == xs@.len(),
            xv == seqs_view(xs@),
            r@.map_values(|x: &Vec<char>| x@) == names_without(xv.take(i as int), seqs_view(ys@)),
    {
        let ghost before = r@;
        proof {
            assert(xv.take(i + 1).drop_last() =~= xv.take(i as int));
            assert(xv.take(i + 1).last() == xs@[i as int]@);
        }
        if !contains_chars(ys, &xs[i]) {
            r.push(&xs[i]);
            assert(r@.map_values(|x: &Vec<char>| x@) =~= before.map_values(|x: &Vec<char>| x@).push(xs@[i as int]@));
        }
    }
    assert(xv.take(n as int) =~= xv);
    r
}

/// The message for a declared parameter that the query does not use.
pub open spec fn unused_param_message(name: Seq<char>) -> Seq<char> {
    "@param \""@ + name + "\" is declared but $"@ + name + " never appears in the query."@
}

/// The message for a parameter that the query uses but the doc comment does not declare.
pub open spec fn undocumented_param_message(name: Seq<char>) -> Seq<char> {
    "$"@ + name + " is used in the query but not declared as @param in the doc comment."@
}

/// `d` with its message replaced by `m`.
pub open spec fn with_message(d: DiagnosticModel, m: Seq<char>) -> DiagnosticModel {
    DiagnosticModel { message: m, ..d }
}

/// The diagnostics for the unused parameter `name`: one at each of the captures `caps` of
/// the doc text `doc` (which starts at byte `doc_start` of `src`) whose text is `name`.
pub open spec fn unused_for(
    src: Seq<char>,
    rule: RuleModel,
    doc: Seq<char>,
    doc_start: int,
    caps: Seq<Span>,
    name: Seq<char>,
) -> Seq<DiagnosticModel>
    decreases caps.len(),
{
    if caps.len() == 0 {
        seq![]
    } else {
        unused_for(src, rule, doc, doc_start, caps.drop_last(), name) + if span_text(doc, caps.last()) == name {
            seq![with_message(spec_make_diagnostic(rule, caps.last(), src, doc_start), unused_param_message(name))]
        } else {
            seq![]
        }
    }
}

/// The diagnostics for the unused parameters `names`, name after name.
pub open spec fn unused_diagnostics(
    src: Seq<char>,
    rule: RuleModel,
    doc: Seq<char>,
    doc_start: int,
    caps: Seq<Span>,
    names: Seq<Seq<char>>,
) -> Seq<DiagnosticModel>
    decreases names.len(),
{
    if names.len() == 0 {
        seq![]
    } else {
        unused_diagnostics(src, rule, doc, doc_start, caps, names.drop_last())
            + unused_for(src, rule, doc, doc_start, caps, names.last())
    }
}

/// The diagnostics for the parameters used at `spans` of `src` that are not among
/// `declared`, in order.
pub open spec fn undocumented_diagnostics(
    src: Seq<char>,
    rule: RuleModel,
    spans: Seq<Span>,
    declared: Seq<Seq<char>>,
) -> Seq<DiagnosticModel>
    decreases spans.len(),
{
    if spans.len() == 0 {
        seq![]
    } else {
        let sp = spans.last();
        let name = trim_dollars(span_text(src, sp));
        undocumented_diagnostics(src, rule, spans.drop_last(), declared) + if declared.contains(name) {
            seq![]
        } else {
            seq![
                DiagnosticModel {
                    severity: rule.severity,
                    rule: rule.name,
                    message: undocumented_param_message(name),
                    range: range_of(src, sp.0 as int, sp.1 as int),
                    code: None,
                },
            ]
        }
    }
}

/// A string holding `a`, then the characters `x`, then `b`, then `x` again, then `c`.
fn message_around(a: &str, x: &Vec<char>, b: &str, c: &str, twice: bool) -> (r: String)
    ensures
        r@ == if twice { a@ + x@ + b@ + x@ + c@ } else { a@ + x@ + b@ },
{
    let mut r = String::from_str(a);
    crate::text::push_range(&mut r, x.as_slice(), 0, x.len());
    assert(x@.subrange(0, x@.len() as int) =~= x@);
    r.append(b);
    if twice {
        crate::text::push_range(&mut r, x.as_slice(), 0, x.len());
        r.append(c);
    }
    r
}

/// The diagnostics for the unused parameter `name`.
fn unused_for_exec(
    rule: &Rule,
    v: &Vec<char>,
    doc: &Vec<char>,
    doc_start: usize,
    caps: &Vec<Span>,
    name: &Vec<char>,
    out: &mut Vec<Diagnostic>,
)
    requires
        byte_len(v@) <= usize::MAX,
        forall|i: int| 0 <= i < caps@.len() ==> {
            &&& valid_span(doc@, #[trigger] caps@[i])
            &&& caps@[i].0 + doc_start <= usize::MAX
            &&& caps@[i].1 + doc_start <= usize::MAX
        },
    ensures
        diags_view(final(out)@) == diags_view(old(out)@) + unused_for(v@, rule@, doc@, doc_start as int, caps@, name@),
{
    let ghost start = diags_view(out@);
    let n = caps.len();
    for i in 0..n
        invariant
            n == caps@.len(),
            byte_len(v@) <= usize::MAX,
            forall|k: int| 0 <= k < caps@.len() ==> {
                &&& valid_span(doc@, #[trigger] caps@[k])
                &&& caps@[k].0 + doc_start <= usize::MAX
                &&& caps@[k].1 + doc_start <= usize::MAX
            },
            diags_view(out@) == start + unused_for(v@, rule@, doc@, doc_start as int, caps@.take(i as int), name@),
    {
        let ghost before = diags_view(out@);
        proof {
            assert(caps@.take(i + 1).drop_last() =~= caps@.take(i as int));
            assert(caps@.take(i + 1).last() == caps@[i as int]);
            assert(valid_span(doc@, caps@[i as int]));
        }
        let (s, e) = caps[i];
        let text = span_text_exec(doc, caps[i]);
        if chars_eq(&text, name) {
            let mut d = make_diagnostic(rule, s, e, v, doc_start);
            d.message = message_around("@param \"", name, "\" is declared but $", " never appears in the query.", true);
            out.push(d);
            assert(diags_view(out@) =~= before.push(d@));
        }
        assert(diags_view(out@) =~= start + unused_for(v@, rule@, doc@, doc_start as int, caps@.take(i + 1), name@));
    }
    assert(caps@.take(n as int) =~= caps@);
}

/// The diagnostics for the unused parameters `names`.
fn unused_diagnostics_exec(
    rule: &Rule,
    v: &Vec<char>,
    doc: &Vec<char>,
    doc_start: usize,
    caps: &Vec<Span>,
    names: &Vec<&Vec<char>>,
    out: &mut Vec<Diagnostic>,
)
    requires
        byte_len(v@) <= usize::MAX,
        forall|i: int| 0 <= i < caps@.len() ==> {
            &&& valid_span(doc@, #[trigger] caps@[i])
            &&& caps@[i].0 + doc_start <= usize::MAX
            &&& caps@[i].1 + doc_start <= usize::MAX
        },
    ensures
        diags_view(final(out)@) == diags_view(old(out)@) + unused_diagnostics(
            v@,
            rule@,
            doc@,
            doc_start as int,
            caps@,
            names@.map_values(|x: &Vec<char>| x@),
        ),
{
    let ghost start = diags_view(out@);
    let ghost nv = names@.map_values(|x: &Vec<char>| x@);
    let n = names.len();
    for i in 0..n
        invariant
            n == names@.len(),
            nv == names@.map_values(|x: &Vec<char>| x@),
            byte_len(v@) <= usize::MAX,
            forall|k: int| 0 <= k < caps@.len() ==> {
                &&& valid_span(doc@, #[trigger] caps@[k])
                &&& caps@[k].0 + doc_start <= usize::MAX
                &&& caps@[k].1 + doc_start <= usize::MAX
            },
            diags_view(out@) == start + unused_diagnostics(v@, rule@, doc@, doc_start as int, caps@, nv.take(i as int)),
    {
        proof {
            assert(nv.take(i + 1).drop_last() =~= nv.take(i as int));
            assert(nv.take(i + 1).last() == names@[i as int]@);
        }
        unused_for_exec(rule, v, doc, doc_start, caps, names[i], out);
        assert(diags_view(out@) =~= start + unused_diagnostics(v@, rule@, doc@, doc_start as int, caps@, nv.take(i + 1)));
    }
    assert(nv.take(n as int) =~= nv);
}

/// The diagnostics for the used parameters at `spans` of the source `v` that are not
/// declared.
fn undocumented_diagnostics_exec(
    rule: &Rule,
    v: &Vec<char>,
    spans: &Vec<Span>,
    declared: &Vec<Vec<char>>,
    out: &mut Vec<Diagnostic>,
)
    requires
        byte_len(v@) <= usize::MAX,
        forall|i: int| 0 <= i < spans@.len() ==> valid_span(v@, #[trigger] spans@[i]),
    ensures
        diags_view(final(out)@) == diags_view(old(out)@) + undocumented_diagnostics(
            v@,
            rule@,
            spans@,
            seqs_view(declared@),
        ),
{
    let ghost start = diags_view(out@);
    let n = spans.len();
    for i in 0..n
        invariant
            n == spans@.len(),
            byte_len(v@) <= usize::MAX,
            forall|k: int| 0 <= k < spans@.len() ==> valid_span(v@, #[trigger] spans@[k]),
            diags_view(out@) == start + undocumented_diagnostics(v@, rule@, spans@.take(i as int), seqs_view(declared@)),
    {
        let ghost before = diags_view(out@);
        proof {
            assert(spans@.take(i + 1).drop_last() =~= spans@.take(i as int));
            assert(spans@.take(i + 1).last() == spans@[i as int]);
            assert(valid_span(v@, spans@[i as int]));
        }
        let (s, e) = spans[i];
        let text = span_text_exec(v, spans[i]);
        let name = trim_dollars_exec(&text);
        if !contains_chars(declared, &name) {
            let d = Diagnostic {
                severity: rule.severity,
                rule: rule.name.clone(),
                message: message_around("$", &name, " is used in the query but not declared as @param in the doc comment.", "", false),
                range: Range { start: position_at(v, s), end: position_at(v, e) },
                code: None,
            };
            out.push(d);
            assert(diags_view(out@) =~= before.push(d@));
        }
        assert(diags_view(out@) =~= start + undocumented_diagnostics(v@, rule@, spans@.take(i + 1), seqs_view(declared@)));
    }
    assert(spans@.take(n as int) =~= spans@);
}

// ---- what is read from the trees of a source ----

/// What the analysis reads of a doc comment: its tree, and for each rule the matches of
/// that rule's query on it (the queries not run are given no matches).
pub struct DocReading {
    pub tree: SyntaxTree,
    pub rule_matches: Vec<Vec<Vec<Span>>>,
    /// For each rule, where its matches come from, when its query ran.
    pub match_tags: Vec<Option<MatchTag>>,
}

/// The value of a `DocReading`.
pub struct DocReadingModel {
    pub tree: TreeModel,
    pub rule_matches: Seq<Seq<Seq<Span>>>,
    pub match_tags: Seq<Option<MatchTag>>,
}

impl View for DocReading {
    type V = DocReadingModel;

    open spec fn view(&self) -> DocReadingModel {
        DocReadingModel { tree: self.tree@, rule_matches: rule_matches_view(self.rule_matches@), match_tags: self.match_tags@ }
    }
}

/// What the analysis reads for one statement: its doc comment, if it has one, and the
/// matches of the `UndocumentedParameter` rule's query on the statement's own tree
/// (relative to the statement's start).
pub struct PairReading {
    pub doc: Option<DocReading>,
    pub used_matches: Vec<Vec<Span>>,
    /// Where the used-parameter matches come from, when the query ran.
    pub used_tag: Option<MatchTag>,
}

/// The value of a `PairReading`.
pub struct PairReadingModel {
    pub doc: Option<DocReadingModel>,
    pub used_matches: Seq<Seq<Span>>,
    pub used_tag: Option<MatchTag>,
}

impl View for PairReading {
    type V = PairReadingModel;

    open spec fn view(&self) -> PairReadingModel {
        PairReadingModel {
            doc: match self.doc {
                Some(d) => Some(d@),
                None => None,
            },
            used_matches: matches_view(self.used_matches@),
            used_tag: self.used_tag,
        }
    }
}

/// What the analysis reads of a source: its tree, for each rule the matches of its query
/// on the whole tree, and what is read for each statement.
pub struct SourceReading {
    pub tree: SyntaxTree,
    pub rule_matches: Vec<Vec<Vec<Span>>>,
    /// For each rule, where its matches come from, when its query ran.
    pub match_tags: Vec<Option<MatchTag>>,
    pub pairs: Vec<PairReading>,
}

/// The value of a `SourceReading`.
pub struct SourceReadingModel {
    pub tree: TreeModel,
    pub rule_matches: Seq<Seq<Seq<Span>>>,
    pub match_tags: Seq<Option<MatchTag>>,
    pub pairs: Seq<PairReadingModel>,
}

impl View for SourceReading {
    type V = SourceReadingModel;

    open spec fn view(&self) -> SourceReadingModel {
        SourceReadingModel {
            tree: self.tree@,
            rule_matches: rule_matches_view(self.rule_matches@),
            match_tags: self.match_tags@,
            pairs: self.pairs@.map_values(|p: PairReading| p@),
        }
    }
}

/// Index of the first rule named `name`.
pub open spec fn first_rule_named(rules: Seq<RuleModel>, name: Seq<char>) -> Option<int>
    decreases rules.len(),
{
    if rules.len() == 0 {
        None
    } else if rules[0].name == name {
        Some(0)
    } else {
        match first_rule_named(rules.drop_first(), name) {
            Some(i) => Some(i + 1),
            None => None,
        }
    }
}

/// Whether some rule cross-references doc comments and statements.
pub open spec fn has_cross_reference(rules: Seq<RuleModel>) -> bool {
    exists|i: int| 0 <= i < rules.len() && #[trigger] rules[i].applies_to == AppliesTo::CrossReference
}

/// The diagnostic for a doc comment, starting at byte `doc_start`, that names no tool.
pub open spec fn missing_tool_name_diagnostic(src: Seq<char>, doc_start: int) -> DiagnosticModel {
    DiagnosticModel {
        severity: Severity::Warning,
        rule: "MissingToolName"@,
        message: "Cypherdoc comment has no tool name. Add a name as the first line."@,
        range: range_of(src, doc_start, doc_start),
        code: None,
    }
}

/// The diagnostics about a doc comment's own content: the contract rules' matches and a
/// missing tool name, when the comment has any content.
pub open spec fn contract_part(src: Seq<char>, rules: Seq<RuleModel>, doc: Span, d: DocReadingModel) -> Seq<DiagnosticModel> {
    if has_content(d.tree) {
        rules_diagnostics(src, rules, d.rule_matches, AppliesTo::Contract, doc.0 as int) + if lacks_tool_name(d.tree) {
            seq![missing_tool_name_diagnostic(src, doc.0 as int)]
        } else {
            seq![]
        }
    } else {
        seq![]
    }
}

/// The parameters a doc comment declares: the texts of the `UnusedParameter` rule's
/// captures, without repeats.
pub open spec fn declared_of(src: Seq<char>, rules: Seq<RuleModel>, doc: Span, d: DocReadingModel) -> Seq<Seq<char>> {
    match first_rule_named(rules, "UnusedParameter"@) {
        Some(u) => dedup(capture_texts(span_text(src, doc), all_captures(d.rule_matches[u]))),
        None => seq![],
    }
}

/// Where a statement uses parameters (relative to its start): the captures of the
/// `UndocumentedParameter` rule.
pub open spec fn used_spans_of(rules: Seq<RuleModel>, pr: PairReadingModel) -> Seq<Span> {
    match first_rule_named(rules, "UndocumentedParameter"@) {
        Some(_) => all_captures(pr.used_matches),
        None => seq![],
    }
}

/// The diagnostics that check a doc comment's parameters against its statement's.
pub open spec fn cross_part(
    src: Seq<char>,
    rules: Seq<RuleModel>,
    p: PairModel,
    doc: Span,
    d: DocReadingModel,
    pr: PairReadingModel,
) -> Seq<DiagnosticModel> {
    if !has_cross_reference(rules) {
        seq![]
    } else {
        let declared = declared_of(src, rules, doc, d);
        let used = param_names(span_text(src, p.statement), used_spans_of(rules, pr));
        let unused = match first_rule_named(rules, "UnusedParameter"@) {
            Some(u) => unused_diagnostics(
                src,
                rules[u],
                span_text(src, doc),
                doc.0 as int,
                all_captures(d.rule_matches[u]),
                names_without(declared, used),
            ),
            None => seq![],
        };
        let undocumented = match first_rule_named(rules, "UndocumentedParameter"@) {
            Some(u) => undocumented_diagnostics(
                src,
                rules[u],
                shifted(used_spans_of(rules, pr), p.statement.0 as int),
                declared,
            ),
            None => seq![],
        };
        unused + undocumented
    }
}

/// The diagnostics for one statement and its doc comment; none without a doc comment.
pub open spec fn pair_diagnostics(src: Seq<char>, rules: Seq<RuleModel>, p: PairModel, pr: PairReadingModel) -> Seq<DiagnosticModel> {
    match (p.doc, pr.doc) {
        (Some(doc), Some(d)) => contract_part(src, rules, doc, d) + cross_part(src, rules, p, doc, d, pr),
        _ => seq![],
    }
}

/// The diagnostics for the statements `ps`, statement after statement.
pub open spec fn pairs_diagnostics(
    src: Seq<char>,
    rules: Seq<RuleModel>,
    ps: Seq<PairModel>,
    prs: Seq<PairReadingModel>,
) -> Seq<DiagnosticModel>
    decreases ps.len(),
{
    if ps.len() == 0 {
        seq![]
    } else {
        pairs_diagnostics(src, rules, ps.drop_last(), prs) + pair_diagnostics(src, rules, ps.last(), prs[ps.len() - 1])
    }
}

/// All the diagnostics of a source: its syntax errors, then the structural rules'
/// matches, then what each statement's doc comment gets.
pub open spec fn source_diagnostics(src: Seq<char>, rules: Seq<RuleModel>, r: SourceReadingModel) -> Seq<DiagnosticModel> {
    parse_error_diagnostics(src, error_spans(r.tree))
        + rules_diagnostics(src, rules, r.rule_matches, AppliesTo::Structure, 0)
        + pairs_diagnostics(src, rules, tree_pairs(r.tree), r.pairs)
}

/// The captures `caps` are valid ranges of `text` and stay within `usize` when moved by
/// `offset`.
pub open spec fn captures_ok(text: Seq<char>, caps: Seq<Span>, offset: int) -> bool {
    forall|i: int| 0 <= i < caps.len() ==> {
        &&& valid_span(text, #[trigger] caps[i])
        &&& caps[i].0 + offset <= usize::MAX
        &&& caps[i].1 + offset <= usize::MAX
    }
}

/// All of `spans` are valid ranges of `text`.
pub open spec fn spans_ok(text: Seq<char>, spans: Seq<Span>) -> bool {
    forall|i: int| 0 <= i < spans.len() ==> valid_span(text, #[trigger] spans[i])
}

/// What is read for a statement can be analysed: every range the analysis takes text
/// from is a valid range, and every match it reports at has a capture.
pub open spec fn pair_reading_ok(src: Seq<char>, rules: Seq<RuleModel>, p: PairModel, pr: PairReadingModel) -> bool {
    &&& (p.doc is Some <==> pr.doc is Some)
    &&& has_cross_reference(rules) ==> valid_span(src, p.statement)
    &&& (has_cross_reference(rules) && first_rule_named(rules, "UndocumentedParameter"@) is Some) ==>
        captures_ok(span_text(src, p.statement), all_captures(pr.used_matches), p.statement.0 as int)
    &&& match (p.doc, pr.doc) {
        (Some(doc), Some(d)) => {
            &&& valid_span(src, doc)
            &&& d.tree.grammar == Grammar::CypherDoc
            &&& d.tree.text == span_text(src, doc)
            &&& d.rule_matches.len() == rules.len()
            &&& has_content(d.tree) ==> rule_matches_usable(rules, d.rule_matches, AppliesTo::Contract, doc.0 as int)
            &&& has_cross_reference(rules) ==> {
                &&& first_rule_named(rules, "UnusedParameter"@) matches Some(u) ==>
                    captures_ok(span_text(src, doc), all_captures(d.rule_matches[u]), doc.0 as int)
                &&& first_rule_named(rules, "UndocumentedParameter"@) is Some ==>
                    spans_ok(src, shifted(all_captures(pr.used_matches), p.statement.0 as int))
            }
        },
        _ => true,
    }
}

/// Where the matches of `rule` come from when its query runs on a tree of `grammar` parsed
/// from `text`.
pub open spec fn origin_for(rule: RuleModel, text: Seq<char>, grammar: Grammar) -> MatchOrigin {
    MatchOrigin { query_source: rule.query_source, query_grammar: rule.grammar, text, tree_grammar: grammar }
}

/// The matches `ms` are those recorded by `tag`, which come from `origin`; or, when no
/// query was to run, there is no tag and there are no matches.
pub open spec fn tagged(tag: Option<MatchTag>, ms: Seq<Seq<Span>>, origin: Option<MatchOrigin>) -> bool {
    match origin {
        Some(o) => tag matches Some(t) && t.origin() == o && t.spans() == ms,
        None => tag is None && ms.len() == 0,
    }
}

/// Where the matches of `rules[i]` on a doc comment with text `text` and tree `t` come
/// from: the contract rules run when the comment has content, and the `UnusedParameter`
/// rule when cross-references are checked.
pub open spec fn doc_origin(rules: Seq<RuleModel>, i: int, text: Seq<char>, t: TreeModel) -> Option<MatchOrigin> {
    if (has_content(t) && rules[i].applies_to == AppliesTo::Contract) || (has_cross_reference(rules)
        && first_rule_named(rules, "UnusedParameter"@) == Some(i)) {
        Some(origin_for(rules[i], text, Grammar::CypherDoc))
    } else {
        None
    }
}

/// Where the used-parameter matches of statement `p` come from: the `UndocumentedParameter`
/// rule run on the statement's own text, parsed as Cypher, when cross-references are checked.
pub open spec fn used_origin(src: Seq<char>, rules: Seq<RuleModel>, p: PairModel) -> Option<MatchOrigin> {
    match first_rule_named(rules, "UndocumentedParameter"@) {
        Some(u) => if has_cross_reference(rules) {
            Some(origin_for(rules[u], span_text(src, p.statement), Grammar::Cypher))
        } else {
            None
        },
        None => None,
    }
}

/// Where the matches read for statement `p` come from.
pub open spec fn pair_origins(src: Seq<char>, rules: Seq<RuleModel>, p: PairModel, pr: PairReadingModel) -> bool {
    &&& match (p.doc, pr.doc) {
        (Some(doc), Some(d)) => {
            &&& d.match_tags.len() == rules.len()
            &&& forall|i: int|
                0 <= i < rules.len() ==> tagged(
                    #[trigger] d.match_tags[i],
                    d.rule_matches[i],
                    doc_origin(rules, i, span_text(src, doc), d.tree),
                )
        },
        _ => true,
    }
    &&& tagged(pr.used_tag, pr.used_matches, used_origin(src, rules, p))
}

/// Every list of matches in the reading `r` of `src` is what the right rule's query matched
/// on the right tree: each structural rule's on the whole source parsed as Cypher; each
/// doc comment's contract rules (when it has content) and `UnusedParameter` rule (when
/// cross-references are checked) on the comment's text parsed with the doc-comment
/// grammar; and `UndocumentedParameter` on each statement's text parsed as Cypher. No
/// other query ran.
pub open spec fn reading_origins(src: Seq<char>, rules: Seq<RuleModel>, r: SourceReadingModel) -> bool {
    &&& r.match_tags.len() == rules.len()
    &&& forall|i: int|
        0 <= i < rules.len() ==> tagged(
            #[trigger] r.match_tags[i],
            r.rule_matches[i],
            if rules[i].applies_to == AppliesTo::Structure {
                Some(origin_for(rules[i], src, Grammar::Cypher))
            } else {
                None
            },
        )
    &&& forall|k: int| 0 <= k < r.pairs.len() ==> pair_origins(src, rules, tree_pairs(r.tree)[k], #[trigger] r.pairs[k])
}

/// Every node of `nodes` starts no later than it ends.
pub open spec fn nodes_ordered(nodes: Seq<NodeModel>) -> bool {
    forall|i: int| 0 <= i < nodes.len() ==> (#[trigger] nodes[i]).start <= nodes[i].end
}

/// What is read of a source can be analysed.
pub open spec fn reading_ok(src: Seq<char>, rules: Seq<RuleModel>, r: SourceReadingModel) -> bool {
    &&& r.tree.grammar == Grammar::Cypher
    &&& nodes_ordered(r.tree.nodes)
    &&& r.tree.text == src
    &&& rule_matches_usable(rules, r.rule_matches, AppliesTo::Structure, 0)
    &&& r.pairs.len() == tree_pairs(r.tree).len()
    &&& forall|k: int| 0 <= k < r.pairs.len() ==> pair_reading_ok(src, rules, #[trigger] tree_pairs(r.tree)[k], r.pairs[k])
}

proof fn lemma_first_rule_named_at(rules: Seq<RuleModel>, name: Seq<char>, i: int)
    requires
        0 <= i < rules.len(),
        rules[i].name == name,
        forall|k: int| 0 <= k < i ==> rules[k].name != name,
    ensures
        first_rule_named(rules, name) == Some(i),
    decreases i,
{
    if i > 0 {
        assert forall|k: int| 0 <= k < i - 1 implies rules.drop_first()[k].name != name by {
            assert(rules.drop_first()[k] == rules[k + 1]);
        }
        lemma_first_rule_named_at(rules.drop_first(), name, i - 1);
    }
}

proof fn lemma_first_rule_named_none(rules: Seq<RuleModel>, name: Seq<char>)
    requires
        forall|k: int| 0 <= k < rules.len() ==> rules[k].name != name,
    ensures
        first_rule_named(rules, name) is None,
    decreases rules.len(),
{
    if rules.len() > 0 {
        assert forall|k: int| 0 <= k < rules.len() - 1 implies rules.drop_first()[k].name != name by {
            assert(rules.drop_first()[k] == rules[k + 1]);
        }
        lemma_first_rule_named_none(rules.drop_first(), name);
    }
}

proof fn lemma_first_rule_named_bound(rules: Seq<RuleModel>, name: Seq<char>)
    ensures
        first_rule_named(rules, name) matches Some(i) ==> 0 <= i < rules.len() && rules[i].name == name,
    decreases rules.len(),
{
    if rules.len() > 0 && rules[0].name != name {
        lemma_first_rule_named_bound(rules.drop_first(), name);
    }
}

/// Index of the first rule named `name`.
pub(crate) fn first_rule_named_exec(rules: &Vec<Rule>, name: &str) -> (r: Option<usize>)
    ensures
        r matches Some(i) ==> i < rules@.len() && first_rule_named(rules_view(rules@), name@) == Some(i as int),
        r is None ==> first_rule_named(rules_view(rules@), name@) is None,
{
    let target = String::from_str(name);
    let n = rules.len();
    for i in 0..n
        invariant
            n == rules@.len(),
            target@ == name@,
            forall|k: int| 0 <= k < i ==> rules_view(rules@)[k].name != name@,
    {
        if rules[i].name == target {
            proof {
                lemma_first_rule_named_at(rules_view(rules@), name@, i as int);
            }
            return Some(i);
        }
    }
    proof {
        lemma_first_rule_named_none(rules_view(rules@), name@);
    }
    None
}

/// Whether some rule cross-references doc comments and statements.
pub(crate) fn has_cross_reference_exec(rules: &Vec<Rule>) -> (r: bool)
    ensures
        r == has_cross_reference(rules_view(rules@)),
{
    let n = rules.len();
    for i in 0..n
        invariant
            n == rules@.len(),
            forall|k: int| 0 <= k < i ==> rules_view(rules@)[k].applies_to != AppliesTo::CrossReference,
    {
        if rules[i].applies_to == AppliesTo::CrossReference {
            assert(rules_view(rules@)[i as int].applies_to == AppliesTo::CrossReference);
            return true;
        }
    }
    false
}

/// The first named child of the root of `t`.
pub(crate) fn first_named_child(t: &SyntaxTree) -> (r: Option<&SyntaxNode>)
    ensures
        match first_named(root_children(t@.nodes)) {
            Some(n) => r matches Some(x) && x@ == n,
            None => r is None,
        },
{
    let cs = root_children_exec(t);
    let ghost cm = cs@.map_values(|x: &SyntaxNode| x@);
    let n = cs.len();
    assert(cm.skip(0) =~= cm);
    for i in 0..n
        invariant
            n == cs@.len(),
            cm == cs@.map_values(|x: &SyntaxNode| x@),
            cm == root_children(t@.nodes),
            first_named(cm) == first_named(cm.skip(i as int)),
    {
        assert(cm.skip(i as int)[0] == cs@[i as int]@);
        assert(cm.skip(i as int).drop_first() =~= cm.skip(i + 1));
        if cs[i].is_named {
            return Some(cs[i]);
        }
    }
    assert(cm.skip(n as int) =~= Seq::<NodeModel>::empty());
    None
}

/// The diagnostics about a doc comment's own content.
fn contract_diagnostics_exec(v: &Vec<char>, rules: &Vec<Rule>, ds: usize, de: usize, d: &DocReading, out: &mut Vec<Diagnostic>)
    requires
        byte_len(v@) <= usize::MAX,
        has_content(d@.tree) ==> rule_matches_usable(rules_view(rules@), d@.rule_matches, AppliesTo::Contract, ds as int),
    ensures
        diags_view(final(out)@) == diags_view(old(out)@) + contract_part(v@, rules_view(rules@), (ds, de), d@),
{
    let ghost start = diags_view(out@);
    if let Some(named) = first_named_child(&d.tree) {
        rules_diagnostics_exec(rules, &d.rule_matches, AppliesTo::Contract, v, ds, out);
        let lacks = !str_is(&named.kind, "name") || named.start == named.end;
        if lacks {
            let p = position_at(v, ds);
            let m = Diagnostic {
                severity: Severity::Warning,
                rule: String::from_str("MissingToolName"),
                message: String::from_str("Cypherdoc comment has no tool name. Add a name as the first line."),
                range: Range { start: p, end: p },
                code: None,
            };
            let ghost before = diags_view(out@);
            out.push(m);
            assert(diags_view(out@) =~= before.push(m@));
        }
    }
    assert(diags_view(out@) =~= start + contract_part(v@, rules_view(rules@), (ds, de), d@));
}

/// The parameters the doc comment with text `doc_text` declares.
fn declared_exec(rules: &Vec<Rule>, unused_idx: Option<usize>, doc_text: &Vec<char>, ds: usize, de: usize, d: &DocReading, Ghost(v): Ghost<Seq<char>>) -> (r: Vec<Vec<char>>)
    requires
        doc_text@ == span_text(v, (ds, de)),
        d@.rule_matches.len() == rules@.len(),
        unused_idx matches Some(i) ==> first_rule_named(rules_view(rules@), "UnusedParameter"@) == Some(i as int),
        unused_idx is None ==> first_rule_named(rules_view(rules@), "UnusedParameter"@) is None,
        unused_idx matches Some(u) ==> u < rules@.len() && captures_ok(span_text(v, (ds, de)), all_captures(d@.rule_matches[u as int]), ds as int),
    ensures
        seqs_view(r@) == declared_of(v, rules_view(rules@), (ds, de), d@),
{
    proof {
        lemma_first_rule_named_bound(rules_view(rules@), "UnusedParameter"@);
    }
    match unused_idx {
        Some(u) => {
            let caps = all_captures_exec(&d.rule_matches[u]);
            assert(d@.rule_matches[u as int] == matches_view(d.rule_matches@[u as int]@));
            assert forall|i: int| 0 <= i < caps@.len() implies valid_span(doc_text@, #[trigger] caps@[i]) by {}
            declared_params_exec(doc_text, &caps)
        },
        None => Vec::new(),
    }
}

/// The diagnostics that check a doc comment's parameters against its statement's.
fn cross_diagnostics_exec(
    v: &Vec<char>,
    rules: &Vec<Rule>,
    pair: &DocStatementPair,
    ds: usize,
    de: usize,
    d: &DocReading,
    pr: &PairReading,
    out: &mut Vec<Diagnostic>,
)
    requires
        byte_len(v@) <= usize::MAX,
        pair@.doc == Some((ds, de)),
        pr@.doc == Some(d@),
        pair_reading_ok(v@, rules_view(rules@), pair@, pr@),
    ensures
        diags_view(final(out)@) == diags_view(old(out)@) + cross_part(v@, rules_view(rules@), pair@, (ds, de), d@, pr@),
{
    let ghost rv = rules_view(rules@);
    let ghost start = diags_view(out@);
    if !has_cross_reference_exec(rules) {
        return;
    }
    let doc_text = span_text_exec(v, (ds, de));
    let unused_idx = first_rule_named_exec(rules, "UnusedParameter");
    let undoc_idx = first_rule_named_exec(rules, "UndocumentedParameter");
    proof {
        lemma_first_rule_named_bound(rv, "UnusedParameter"@);
        lemma_first_rule_named_bound(rv, "UndocumentedParameter"@);
        assert(has_cross_reference(rv));
        assert(valid_span(v@, (ds, de)));
        assert(d@.rule_matches.len() == rv.len());
        if let Some(u) = unused_idx {
            assert(first_rule_named(rv, "UnusedParameter"@) == Some(u as int));
            assert(captures_ok(span_text(v@, (ds, de)), all_captures(d@.rule_matches[u as int]), ds as int));
        }
    }
    let declared = declared_exec(rules, unused_idx, &doc_text, ds, de, d, Ghost(v@));
    let used_caps = match undoc_idx {
        Some(_) => all_captures_exec(&pr.used_matches),
        None => Vec::new(),
    };
    assert(used_caps@ =~= used_spans_of(rv, pr@));
    let stmt_text = span_text_exec(v, (pair.statement_start_byte, pair.statement_end_byte));
    assert forall|i: int| 0 <= i < used_caps@.len() implies valid_span(stmt_text@, #[trigger] used_caps@[i]) by {}
    let used = param_names_exec(&stmt_text, &used_caps);
    if let Some(u) = unused_idx {
        let caps = all_captures_exec(&d.rule_matches[u]);
        assert(d@.rule_matches[u as int] == matches_view(d.rule_matches@[u as int]@));
        let names = names_without_exec(&declared, &used);
        unused_diagnostics_exec(&rules[u], v, &doc_text, ds, &caps, &names, out);
    }
    let ghost mid = diags_view(out@);
    if let Some(u) = undoc_idx {
        assert(spans_fit(used_caps@, pair.statement_start_byte as int));
        let spans = shifted_exec(&used_caps, pair.statement_start_byte);
        undocumented_diagnostics_exec(&rules[u], v, &spans, &declared, out);
    }
    assert(diags_view(out@) =~= start + cross_part(v@, rv, pair@, (ds, de), d@, pr@));
}

/// The diagnostics for one statement and its doc comment.
fn pair_diagnostics_exec(v: &Vec<char>, rules: &Vec<Rule>, pair: &DocStatementPair, pr: &PairReading, out: &mut Vec<Diagnostic>)
    requires
        byte_len(v@) <= usize::MAX,
        pair_reading_ok(v@, rules_view(rules@), pair@, pr@),
    ensures
        diags_view(final(out)@) == diags_view(old(out)@) + pair_diagnostics(v@, rules_view(rules@), pair@, pr@),
{
    let ghost start = diags_view(out@);
    match (pair.doc_start_byte, pair.doc_end_byte, &pr.doc) {
        (Some(ds), Some(de), Some(d)) => {
            contract_diagnostics_exec(v, rules, ds, de, d, out);
            cross_diagnostics_exec(v, rules, pair, ds, de, d, pr, out);
            assert(diags_view(out@) =~= start + pair_diagnostics(v@, rules_view(rules@), pair@, pr@));
        },
        _ => {
            assert(diags_view(out@) =~= start + pair_diagnostics(v@, rules_view(rules@), pair@, pr@));
        },
    }
}

/// All the diagnostics of `source`, from what was read of its trees.
pub fn diagnostics_from_reading(source: &str, rules: &Vec<Rule>, reading: &SourceReading) -> (r: Vec<Diagnostic>)
    requires
        reading_ok(source@, rules_view(rules@), reading@),
    ensures
        diags_view(r@) == source_diagnostics(source@, rules_view(rules@), reading@),
{
    let v = chars_with_len(source);
    let ghost rv = rules_view(rules@);
    let mut out: Vec<Diagnostic> = Vec::new();
    let spans = collect_error_nodes(&reading.tree);
    parse_error_diagnostics_exec(&spans, &v, &mut out);
    rules_diagnostics_exec(rules, &reading.rule_matches, AppliesTo::Structure, &v, 0, &mut out);
    let pairs = collect_pairs(&reading.tree);
    let ghost ps = pairs_view(pairs@);
    let ghost prs = reading@.pairs;
    let ghost head = diags_view(out@);
    assert(head == parse_error_diagnostics(v@, error_spans(reading@.tree)) + rules_diagnostics(v@, rv, reading@.rule_matches, AppliesTo::Structure, 0));
    let n = pairs.len();
    for k in 0..n
        invariant
            n == pairs@.len(),
            ps == pairs_view(pairs@),
            ps == tree_pairs(reading@.tree),
            prs == reading@.pairs,
            prs == reading.pairs@.map_values(|p: PairReading| p@),
            rv == rules_view(rules@),
            v@ == source@,
            byte_len(v@) <= usize::MAX,
            reading_ok(source@, rv, reading@),
            diags_view(out@) == head + pairs_diagnostics(v@, rv, ps.take(k as int), prs),
    {
        proof {
            assert(ps[k as int] == pairs@[k as int]@);
            assert(prs[k as int] == reading.pairs@[k as int]@);
            assert(pair_reading_ok(source@, rv, tree_pairs(reading@.tree)[k as int], reading@.pairs[k as int]));
            assert(ps.take(k + 1).drop_last() =~= ps.take(k as int));
            assert(ps.take(k + 1).last() == ps[k as int]);
        }
        pair_diagnostics_exec(&v, rules, &pairs[k], &reading.pairs[k], &mut out);
        assert(diags_view(out@) =~= head + pairs_diagnostics(v@, rv, ps.take(k + 1), prs));
    }
    assert(ps.take(n as int) =~= ps);
    out
}

// ---- checking what was read ----

/// Whether every match has a capture and its first capture, moved by `offset`, stays
/// within `usize`.
fn matches_usable_exec(ms: &Vec<Vec<Span>>, offset: usize) -> (r: bool)
    ensures
        r == (matches_captured(matches_view(ms@)) && first_captures_fit(matches_view(ms@), offset as int)),
{
    let ghost mv = matches_view(ms@);
    let n = ms.len();
    for i in 0..n
        invariant
            n == ms@.len(),
            mv == matches_view(ms@),
            forall|k: int|
                0 <= k < i ==> #[trigger] mv[k].len() > 0 && mv[k][0].0 <= mv[k][0].1 && mv[k][0].0 + offset <= usize::MAX
                    && mv[k][0].1 + offset <= usize::MAX,
    {
        assert(mv[i as int] == ms@[i as int]@);
        if ms[i].len() == 0 {
            assert(!matches_captured(mv));
            return false;
        }
        let (s, e) = ms[i][0];
        assert(mv[i as int][0] == (s, e));
        if s > e || s > usize::MAX - offset || e > usize::MAX - offset {
            assert(!first_captures_fit(mv, offset as int));
            return false;
        }
    }
    assert(matches_captured(mv));
    assert forall|k: int| 0 <= k < mv.len() implies mv[k][0].0 <= mv[k][0].1 && mv[k][0].0 + offset <= usize::MAX
        && mv[k][0].1 + offset <= usize::MAX by {
        assert(mv[k].len() > 0);
    }
    true
}

/// Whether the matches of the rules of kind `kind` can be turned into diagnostics.
fn rule_matches_usable_exec(rules: &Vec<Rule>, rm: &Vec<Vec<Vec<Span>>>, kind: AppliesTo, offset: usize) -> (r: bool)
    ensures
        r == rule_matches_usable(rules_view(rules@), rule_matches_view(rm@), kind, offset as int),
{
    let ghost rv = rules_view(rules@);
    let ghost rmv = rule_matches_view(rm@);
    if rm.len() != rules.len() {
        return false;
    }
    let n = rules.len();
    for i in 0..n
        invariant
            n == rules@.len(),
            rm@.len() == n,
            rv == rules_view(rules@),
            rmv == rule_matches_view(rm@),
            forall|k: int| 0 <= k < i && #[trigger] rv[k].applies_to == kind ==> matches_captured(rmv[k]) && first_captures_fit(rmv[k], offset as int),
    {
        assert(rmv[i as int] == matches_view(rm@[i as int]@));
        if rules[i].applies_to == kind {
            if !matches_usable_exec(&rm[i], offset) {
                assert(rv[i as int].applies_to == kind);
                return false;
            }
        }
    }
    true
}

/// Whether the captures `caps` are valid ranges of `text` that stay within `usize` when
/// moved by `offset`.
fn captures_ok_exec(text: &Vec<char>, caps: &Vec<Span>, offset: usize) -> (r: bool)
    ensures
        r == captures_ok(text@, caps@, offset as int),
{
    let n = caps.len();
    for i in 0..n
        invariant
            n == caps@.len(),
            forall|k: int| 0 <= k < i ==> {
                &&& valid_span(text@, #[trigger] caps@[k])
                &&& caps@[k].0 + offset <= usize::MAX
                &&& caps@[k].1 + offset <= usize::MAX
            },
    {
        let (s, e) = caps[i];
        if !valid_span_exec(text, caps[i]) || s > usize::MAX - offset || e > usize::MAX - offset {
            assert(!captures_ok(text@, caps@, offset as int));
            return false;
        }
    }
    true
}

/// Whether all of `spans` are valid ranges of `text`.
fn spans_ok_exec(text: &Vec<char>, spans: &Vec<Span>) -> (r: bool)
    ensures
        r == spans_ok(text@, spans@),
{
    let n = spans.len();
    for i in 0..n
        invariant
            n == spans@.len(),
            forall|k: int| 0 <= k < i ==> valid_span(text@, #[trigger] spans@[k]),
    {
        if !valid_span_exec(text, spans[i]) {
            assert(!spans_ok(text@, spans@));
            return false;
        }
    }
    true
}

/// Whether what was read for a statement can be analysed.
fn pair_reading_ok_exec(
    v: &Vec<char>,
    rules: &Vec<Rule>,
    pair: &DocStatementPair,
    pr: &PairReading,
    has_cross: bool,
    unused_idx: Option<usize>,
    undoc_idx: Option<usize>,
) -> (r: bool)
    requires
        byte_len(v@) <= usize::MAX,
        has_cross == has_cross_reference(rules_view(rules@)),
        unused_idx matches Some(i) ==> i < rules@.len() && first_rule_named(rules_view(rules@), "UnusedParameter"@) == Some(i as int),
        unused_idx is None ==> first_rule_named(rules_view(rules@), "UnusedParameter"@) is None,
        undoc_idx matches Some(i) ==> first_rule_named(rules_view(rules@), "UndocumentedParameter"@) == Some(i as int),
        undoc_idx is None ==> first_rule_named(rules_view(rules@), "UndocumentedParameter"@) is None,
    ensures
        r == pair_reading_ok(v@, rules_view(rules@), pair@, pr@),
{
    let ghost rv = rules_view(rules@);
    let doc_some = pair.doc_start_byte.is_some() && pair.doc_end_byte.is_some();
    if doc_some != pr.doc.is_some() {
        return false;
    }
    let stmt = (pair.statement_start_byte, pair.statement_end_byte);
    if has_cross && !valid_span_exec(v, stmt) {
        return false;
    }
    if has_cross && undoc_idx.is_some() {
        let stmt_text = span_text_exec(v, stmt);
        let caps = all_captures_exec(&pr.used_matches);
        if !captures_ok_exec(&stmt_text, &caps, stmt.0) {
            return false;
        }
    }
    match (pair.doc_start_byte, pair.doc_end_byte, &pr.doc) {
        (Some(ds), Some(de), Some(d)) => {
            if !valid_span_exec(v, (ds, de)) {
                return false;
            }
            if d.tree.grammar != Grammar::CypherDoc {
                return false;
            }
            let dt = crate::text::chars_of(d.tree.text.as_str());
            let dspan = span_text_exec(v, (ds, de));
            if !chars_eq(&dt, &dspan) {
                return false;
            }
            if d.rule_matches.len() != rules.len() {
                return false;
            }
            if first_named_child(&d.tree).is_some() && !rule_matches_usable_exec(rules, &d.rule_matches, AppliesTo::Contract, ds) {
                return false;
            }
            if has_cross {
                if let Some(u) = unused_idx {
                    let doc_text = span_text_exec(v, (ds, de));
                    let caps = all_captures_exec(&d.rule_matches[u]);
                    assert(d@.rule_matches[u as int] == matches_view(d.rule_matches@[u as int]@));
                    if !captures_ok_exec(&doc_text, &caps, ds) {
                        return false;
                    }
                }
                if undoc_idx.is_some() {
                    let caps = all_captures_exec(&pr.used_matches);
                    assert(spans_fit(caps@, stmt.0 as int));
                    let spans = shifted_exec(&caps, stmt.0);
                    if !spans_ok_exec(v, &spans) {
                        return false;
                    }
                }
            }
            true
        },
        _ => true,
    }
}

/// Whether every node of `t` starts no later than it ends.
fn nodes_ordered_exec(t: &SyntaxTree) -> (r: bool)
    ensures
        r == nodes_ordered(t@.nodes),
{
    let n = t.nodes.len();
    for i in 0..n
        invariant
            n == t.nodes@.len(),
            forall|k: int| 0 <= k < i ==> (#[trigger] t@.nodes[k]).start <= t@.nodes[k].end,
    {
        assert(t@.nodes[i as int] == t.nodes@[i as int]@);
        if t.nodes[i].start > t.nodes[i].end {
            return false;
        }
    }
    true
}

/// Whether what was read of `source` can be analysed: every range the analysis takes
/// text from is a valid range, and every match it reports at has a capture.
pub fn check_reading(source: &str, rules: &Vec<Rule>, reading: &SourceReading) -> (r: bool)
    ensures
        r == reading_ok(source@, rules_view(rules@), reading@),
{
    let v = chars_with_len(source);
    let ghost rv = rules_view(rules@);
    if reading.tree.grammar != Grammar::Cypher {
        return false;
    }
    if !nodes_ordered_exec(&reading.tree) {
        return false;
    }
    let tc = crate::text::chars_of(reading.tree.text.as_str());
    if !chars_eq(&tc, &v) {
        return false;
    }
    if !rule_matches_usable_exec(rules, &reading.rule_matches, AppliesTo::Structure, 0) {
        return false;
    }
    let pairs = collect_pairs(&reading.tree);
    let ghost ps = pairs_view(pairs@);
    if pairs.len() != reading.pairs.len() {
        return false;
    }
    let has_cross = has_cross_reference_exec(rules);
    let unused_idx = first_rule_named_exec(rules, "UnusedParameter");
    let undoc_idx = first_rule_named_exec(rules, "UndocumentedParameter");
    let n = pairs.len();
    for k in 0..n
        invariant
            n == pairs@.len(),
            n == reading.pairs@.len(),
            ps == pairs_view(pairs@),
            ps == tree_pairs(reading@.tree),
            rv == rules_view(rules@),
            v@ == source@,
            byte_len(v@) <= usize::MAX,
            has_cross == has_cross_reference(rv),
            unused_idx matches Some(i) ==> i < rules@.len() && first_rule_named(rv, "UnusedParameter"@) == Some(i as int),
            unused_idx is None ==> first_rule_named(rv, "UnusedParameter"@) is None,
            undoc_idx matches Some(i) ==> first_rule_named(rv, "UndocumentedParameter"@) == Some(i as int),
            undoc_idx is None ==> first_rule_named(rv, "UndocumentedParameter"@) is None,
            forall|j: int| 0 <= j < k ==> pair_reading_ok(source@, rv, #[trigger] tree_pairs(reading@.tree)[j], reading@.pairs[j]),
    {
        proof {
            assert(ps[k as int] == pairs@[k as int]@);
            assert(reading@.pairs[k as int] == reading.pairs@[k as int]@);
        }
        if !pair_reading_ok_exec(&v, rules, &pairs[k], &reading.pairs[k], has_cross, unused_idx, undoc_idx) {
            return false;
        }
    }
    true
}

// ---- laws ----

/// While scanning for syntax errors, passing over the subtree of an error node means one
/// was recorded.
proof fn lemma_error_scan_skip(nodes: Seq<NodeModel>)
    ensures
        error_scan(nodes).1 is Some ==> error_scan(nodes).0.len() > 0,
        error_scan(nodes.drop_last()).0.len() <= error_scan(nodes).0.len() || nodes.len() == 0,
    decreases nodes.len(),
{
    if nodes.len() > 0 {
        lemma_error_scan_skip(nodes.drop_last());
    }
}

/// A tree in which some node is an error or was inserted by the parser yields at least one
/// syntax error span.
proof fn lemma_error_scan_finds(nodes: Seq<NodeModel>, i: int)
    requires
        0 <= i < nodes.len(),
        nodes[i].is_error || nodes[i].is_missing,
    ensures
        error_scan(nodes).0.len() > 0,
    decreases nodes.len(),
{
    lemma_error_scan_skip(nodes);
    lemma_error_scan_skip(nodes.drop_last());
    if i < nodes.len() - 1 {
        assert(nodes.drop_last()[i] == nodes[i]);
        lemma_error_scan_finds(nodes.drop_last(), i);
    }
}

/// A source whose tree reports a syntax error, and has a node that is an error or was
/// inserted by the parser, gets a `ParseError` diagnostic of severity `Error`, so that the
/// run fails.
pub proof fn lemma_syntax_error_reported(src: Seq<char>, rules: Seq<RuleModel>, r: SourceReadingModel, i: int)
    requires
        r.tree.has_error,
        0 <= i < r.tree.nodes.len(),
        r.tree.nodes[i].is_error || r.tree.nodes[i].is_missing,
    ensures
        exists|j: int|
            0 <= j < source_diagnostics(src, rules, r).len()
            && (#[trigger] source_diagnostics(src, rules, r)[j]).severity == Severity::Error
            && source_diagnostics(src, rules, r)[j].rule == "ParseError"@,
{
    lemma_error_scan_finds(r.tree.nodes, i);
    let ds = source_diagnostics(src, rules, r);
    let pe = parse_error_diagnostics(src, error_spans(r.tree));
    assert(ds[0] == pe[0]);
}

/// A doc comment without content (its root has no named child) raises no contract
/// diagnostic and no missing tool name.
pub proof fn lemma_empty_doc_no_contract(src: Seq<char>, rules: Seq<RuleModel>, doc: Span, d: DocReadingModel)
    requires
        !has_content(d.tree),
    ensures
        contract_part(src, rules, doc, d).len() == 0,
{
}

/// The parameters reported unused are exactly the declared ones that are not used.
pub proof fn lemma_unused_names(declared: Seq<Seq<char>>, used: Seq<Seq<char>>)
    ensures
        forall|x: Seq<char>| #[trigger] names_without(declared, used).contains(x) <==> (declared.contains(x) && !used.contains(x)),
    decreases declared.len(),
{
    if declared.len() > 0 {
        let init = declared.drop_last();
        lemma_unused_names(init, used);
        assert forall|x: Seq<char>| #[trigger] names_without(declared, used).contains(x) <==> (declared.contains(x) && !used.contains(x)) by {
            if declared.contains(x) {
                let k = choose|k: int| 0 <= k < declared.len() && declared[k] == x;
                if k < init.len() {
                    assert(init[k] == x);
                }
            }
            if init.contains(x) {
                let k = choose|k: int| 0 <= k < init.len() && init[k] == x;
                assert(declared[k] == x);
            }
            assert(declared.last() == declared[declared.len() - 1]);
            if !used.contains(declared.last()) {
                let w = names_without(init, used).push(declared.last());
                if w.contains(x) {
                    let k = choose|k: int| 0 <= k < w.len() && w[k] == x;
                    if k < w.len() - 1 {
                        assert(names_without(init, used)[k] == x);
                    }
                }
                if names_without(init, used).contains(x) {
                    let k = choose|k: int| 0 <= k < names_without(init, used).len() && names_without(init, used)[k] == x;
                    assert(w[k] == x);
                }
                if x == declared.last() {
                    assert(w[w.len() - 1] == x);
                }
            }
        }
    }
}

/// A statement all of whose used parameters are declared gets no `UndocumentedParameter`
/// diagnostic.
pub proof fn lemma_documented_params_quiet(src: Seq<char>, rule: RuleModel, spans: Seq<Span>, declared: Seq<Seq<char>>)
    requires
        forall|k: int| 0 <= k < spans.len() ==> declared.contains(trim_dollars(span_text(src, #[trigger] spans[k]))),
    ensures
        undocumented_diagnostics(src, rule, spans, declared).len() == 0,
    decreases spans.len(),
{
    if spans.len() > 0 {
        assert(spans.drop_last().len() == spans.len() - 1);
        assert forall|k: int| 0 <= k < spans.drop_last().len() implies declared.contains(trim_dollars(span_text(src, #[trigger] spans.drop_last()[k]))) by {
            assert(spans.drop_last()[k] == spans[k]);
        }
        lemma_documented_params_quiet(src, rule, spans.drop_last(), declared);
        assert(spans.last() == spans[spans.len() - 1]);
    }
}

/// Diagnostic `d` was raised by one of `rules`: it carries that rule's name and severity.
pub open spec fn raised_by(rules: Seq<RuleModel>, d: DiagnosticModel) -> bool {
    exists|x: int| 0 <= x < rules.len() && d.rule == (#[trigger] rules[x]).name && d.severity == rules[x].severity
}

/// Where a diagnostic can come from: a syntax error (`ParseError`, an error with a fixed
/// message and no code), a doc comment without a tool name (`MissingToolName`, a warning
/// with no code), or one of `rules`.
pub open spec fn diagnostic_origin(rules: Seq<RuleModel>, d: DiagnosticModel) -> bool {
    ||| (d.rule == "ParseError"@ && d.severity == Severity::Error && d.message == "Syntax error in Cypher query."@
        && d.code is None)
    ||| (d.rule == "MissingToolName"@ && d.severity == Severity::Warning && d.code is None)
    ||| raised_by(rules, d)
}

/// Every diagnostic of `ds` comes from a syntax error, a missing tool name or a rule.
pub open spec fn all_from(rules: Seq<RuleModel>, ds: Seq<DiagnosticModel>) -> bool {
    forall|j: int| 0 <= j < ds.len() ==> diagnostic_origin(rules, #[trigger] ds[j])
}

proof fn lemma_all_from_concat(rules: Seq<RuleModel>, a: Seq<DiagnosticModel>, b: Seq<DiagnosticModel>)
    requires
        all_from(rules, a),
        all_from(rules, b),
    ensures
        all_from(rules, a + b),
{
    assert forall|j: int| 0 <= j < (a + b).len() implies diagnostic_origin(rules, #[trigger] (a + b)[j]) by {
        if j < a.len() {
            assert((a + b)[j] == a[j]);
        } else {
            assert((a + b)[j] == b[j - a.len()]);
        }
    }
}

/// Every diagnostic of `ds` carries the name and severity of `rules[u]`.
spec fn all_of_rule(rules: Seq<RuleModel>, u: int, ds: Seq<DiagnosticModel>) -> bool {
    forall|j: int| 0 <= j < ds.len() ==> (#[trigger] ds[j]).rule == rules[u].name && ds[j].severity == rules[u].severity
}

proof fn lemma_all_of_rule(rules: Seq<RuleModel>, u: int, ds: Seq<DiagnosticModel>)
    requires
        0 <= u < rules.len(),
        all_of_rule(rules, u, ds),
    ensures
        all_from(rules, ds),
{
    assert forall|j: int| 0 <= j < ds.len() implies diagnostic_origin(rules, #[trigger] ds[j]) by {
        assert(ds[j].rule == rules[u].name);
    }
}

proof fn lemma_rules_diagnostics_origin(src: Seq<char>, rules: Seq<RuleModel>, rm: Seq<Seq<Seq<Span>>>, kind: AppliesTo, offset: int)
    ensures
        forall|j: int|
            0 <= j < rules_diagnostics(src, rules, rm, kind, offset).len() ==> raised_by(
                rules,
                #[trigger] rules_diagnostics(src, rules, rm, kind, offset)[j],
            ),
    decreases rules.len(),
{
    if rules.len() > 0 {
        let init = rules.drop_last();
        lemma_rules_diagnostics_origin(src, init, rm, kind, offset);
        let a = rules_diagnostics(src, init, rm, kind, offset);
        let b = if rules.last().applies_to == kind {
            match_diagnostics(rules.last(), rm[rules.len() - 1], src, offset)
        } else {
            seq![]
        };
        let ds = rules_diagnostics(src, rules, rm, kind, offset);
        assert(ds == a + b);
        assert forall|j: int| 0 <= j < ds.len() implies raised_by(rules, #[trigger] ds[j]) by {
            if j < a.len() {
                assert(ds[j] == a[j]);
                let x = choose|x: int| 0 <= x < init.len() && a[j].rule == (#[trigger] init[x]).name && a[j].severity == init[x].severity;
                assert(rules[x] == init[x]);
            } else {
                assert(ds[j] == b[j - a.len()]);
                assert(rules[rules.len() - 1] == rules.last());
            }
        }
    }
}

proof fn lemma_unused_for_origin(src: Seq<char>, rules: Seq<RuleModel>, u: int, doc: Seq<char>, doc_start: int, caps: Seq<Span>, name: Seq<char>)
    ensures
        all_of_rule(rules, u, unused_for(src, rules[u], doc, doc_start, caps, name)),
    decreases caps.len(),
{
    if caps.len() > 0 {
        lemma_unused_for_origin(src, rules, u, doc, doc_start, caps.drop_last(), name);
        let a = unused_for(src, rules[u], doc, doc_start, caps.drop_last(), name);
        let ds = unused_for(src, rules[u], doc, doc_start, caps, name);
        assert forall|j: int| 0 <= j < ds.len() implies (#[trigger] ds[j]).rule == rules[u].name && ds[j].severity == rules[u].severity by {
            if j < a.len() {
                assert(ds[j] == a[j]);
            }
        }
    }
}

proof fn lemma_unused_diagnostics_origin(src: Seq<char>, rules: Seq<RuleModel>, u: int, doc: Seq<char>, doc_start: int, caps: Seq<Span>, names: Seq<Seq<char>>)
    ensures
        all_of_rule(rules, u, unused_diagnostics(src, rules[u], doc, doc_start, caps, names)),
    decreases names.len(),
{
    if names.len() > 0 {
        lemma_unused_diagnostics_origin(src, rules, u, doc, doc_start, caps, names.drop_last());
        lemma_unused_for_origin(src, rules, u, doc, doc_start, caps, names.last());
        let a = unused_diagnostics(src, rules[u], doc, doc_start, caps, names.drop_last());
        let b = unused_for(src, rules[u], doc, doc_start, caps, names.last());
        let ds = unused_diagnostics(src, rules[u], doc, doc_start, caps, names);
        assert(ds == a + b);
        assert forall|j: int| 0 <= j < ds.len() implies (#[trigger] ds[j]).rule == rules[u].name && ds[j].severity == rules[u].severity by {
            if j < a.len() {
                assert(ds[j] == a[j]);
            } else {
                assert(ds[j] == b[j - a.len()]);
            }
        }
    }
}

proof fn lemma_undocumented_origin(src: Seq<char>, rules: Seq<RuleModel>, u: int, spans: Seq<Span>, declared: Seq<Seq<char>>)
    ensures
        all_of_rule(rules, u, undocumented_diagnostics(src, rules[u], spans, declared)),
    decreases spans.len(),
{
    if spans.len() > 0 {
        lemma_undocumented_origin(src, rules, u, spans.drop_last(), declared);
        let a = undocumented_diagnostics(src, rules[u], spans.drop_last(), declared);
        let ds = undocumented_diagnostics(src, rules[u], spans, declared);
        assert forall|j: int| 0 <= j < ds.len() implies (#[trigger] ds[j]).rule == rules[u].name && ds[j].severity == rules[u].severity by {
            if j < a.len() {
                assert(ds[j] == a[j]);
            }
        }
    }
}

proof fn lemma_rules_all_from(src: Seq<char>, rules: Seq<RuleModel>, rm: Seq<Seq<Seq<Span>>>, kind: AppliesTo, offset: int)
    ensures
        all_from(rules, rules_diagnostics(src, rules, rm, kind, offset)),
{
    lemma_rules_diagnostics_origin(src, rules, rm, kind, offset);
}

proof fn lemma_pair_origin(src: Seq<char>, rules: Seq<RuleModel>, p: PairModel, pr: PairReadingModel)
    ensures
        all_from(rules, pair_diagnostics(src, rules, p, pr)),
{
    match (p.doc, pr.doc) {
        (Some(doc), Some(d)) => {
            let c = contract_part(src, rules, doc, d);
            if has_content(d.tree) {
                lemma_rules_all_from(src, rules, d.rule_matches, AppliesTo::Contract, doc.0 as int);
                let m: Seq<DiagnosticModel> = if lacks_tool_name(d.tree) {
                    seq![missing_tool_name_diagnostic(src, doc.0 as int)]
                } else {
                    seq![]
                };
                assert(all_from(rules, m)) by {
                    assert forall|j: int| 0 <= j < m.len() implies diagnostic_origin(rules, #[trigger] m[j]) by {}
                }
                lemma_all_from_concat(rules, rules_diagnostics(src, rules, d.rule_matches, AppliesTo::Contract, doc.0 as int), m);
            }
            let x = cross_part(src, rules, p, doc, d, pr);
            if has_cross_reference(rules) {
                let declared = declared_of(src, rules, doc, d);
                let used = param_names(span_text(src, p.statement), used_spans_of(rules, pr));
                lemma_first_rule_named_bound(rules, "UnusedParameter"@);
                lemma_first_rule_named_bound(rules, "UndocumentedParameter"@);
                let unused = match first_rule_named(rules, "UnusedParameter"@) {
                    Some(u) => unused_diagnostics(
                        src,
                        rules[u],
                        span_text(src, doc),
                        doc.0 as int,
                        all_captures(d.rule_matches[u]),
                        names_without(declared, used),
                    ),
                    None => seq![],
                };
                let undocumented = match first_rule_named(rules, "UndocumentedParameter"@) {
                    Some(u) => undocumented_diagnostics(src, rules[u], shifted(used_spans_of(rules, pr), p.statement.0 as int), declared),
                    None => seq![],
                };
                match first_rule_named(rules, "UnusedParameter"@) {
                    Some(u) => {
                        lemma_unused_diagnostics_origin(src, rules, u, span_text(src, doc), doc.0 as int, all_captures(d.rule_matches[u]), names_without(declared, used));
                        lemma_all_of_rule(rules, u, unused);
                    },
                    None => {},
                }
                match first_rule_named(rules, "UndocumentedParameter"@) {
                    Some(u) => {
                        lemma_undocumented_origin(src, rules, u, shifted(used_spans_of(rules, pr), p.statement.0 as int), declared);
                        lemma_all_of_rule(rules, u, undocumented);
                    },
                    None => {},
                }
                lemma_all_from_concat(rules, unused, undocumented);
                assert(x == unused + undocumented);
            }
            lemma_all_from_concat(rules, c, x);
        },
        _ => {},
    }
}

proof fn lemma_pairs_origin(src: Seq<char>, rules: Seq<RuleModel>, ps: Seq<PairModel>, prs: Seq<PairReadingModel>)
    ensures
        all_from(rules, pairs_diagnostics(src, rules, ps, prs)),
    decreases ps.len(),
{
    if ps.len() > 0 {
        lemma_pairs_origin(src, rules, ps.drop_last(), prs);
        lemma_pair_origin(src, rules, ps.last(), prs[ps.len() - 1]);
        lemma_all_from_concat(rules, pairs_diagnostics(src, rules, ps.drop_last(), prs), pair_diagnostics(src, rules, ps.last(), prs[ps.len() - 1]));
    }
}

/// Every diagnostic of a source comes from a syntax error (`ParseError`: an error with the
/// message "Syntax error in Cypher query." and no code), from a doc comment without a
/// tool name (`MissingToolName`: a warning with no code), or from one of the rules, whose
/// name and severity it carries.
pub proof fn lemma_diagnostic_origins(src: Seq<char>, rules: Seq<RuleModel>, r: SourceReadingModel)
    ensures
        all_from(rules, source_diagnostics(src, rules, r)),
{
    let pe = parse_error_diagnostics(src, error_spans(r.tree));
    assert forall|j: int| 0 <= j < pe.len() implies diagnostic_origin(rules, #[trigger] pe[j]) by {}
    lemma_rules_all_from(src, rules, r.rule_matches, AppliesTo::Structure, 0);
    lemma_pairs_origin(src, rules, tree_pairs(r.tree), r.pairs);
    let a = rules_diagnostics(src, rules, r.rule_matches, AppliesTo::Structure, 0);
    lemma_all_from_concat(rules, pe, a);
    lemma_all_from_concat(rules, pe + a, pairs_diagnostics(src, rules, tree_pairs(r.tree), r.pairs));
}

/// Position `a` comes no later than position `b`.
pub open spec fn position_before(a: Position, b: Position) -> bool {
    a.line < b.line || (a.line == b.line && a.character <= b.character)
}

/// Every diagnostic of `ds` has a range whose start comes no later than its end.
pub open spec fn ranges_ordered(ds: Seq<DiagnosticModel>) -> bool {
    forall|j: int| 0 <= j < ds.len() ==> position_before((#[trigger] ds[j]).range.start, ds[j].range.end)
}

proof fn lemma_ranges_concat(a: Seq<DiagnosticModel>, b: Seq<DiagnosticModel>)
    requires
        ranges_ordered(a),
        ranges_ordered(b),
    ensures
        ranges_ordered(a + b),
{
    assert forall|j: int| 0 <= j < (a + b).len() implies position_before((#[trigger] (a + b)[j]).range.start, (a + b)[j].range.end) by {
        if j < a.len() {
            assert((a + b)[j] == a[j]);
        } else {
            assert((a + b)[j] == b[j - a.len()]);
        }
    }
}

/// The range between two byte offsets in order has its start first, when every line and
/// column of `src` fits in 32 bits.
proof fn lemma_range_of_ordered(src: Seq<char>, a: int, b: int)
    requires
        a <= b,
        crate::position::utf16_len(src) <= u32::MAX,
    ensures
        position_before(range_of(src, a, b).start, range_of(src, a, b).end),
{
    crate::position::lemma_byte_to_line_col_monotone(src, a, b);
    lemma_chars_within_bound(src, a);
    lemma_chars_within_bound(src, b);
    let ka = chars_within(src, a) as int;
    let kb = chars_within(src, b) as int;
    crate::position::lemma_line_col_bounds(src.take(ka));
    crate::position::lemma_line_col_bounds(src.take(kb));
    crate::position::lemma_utf16_len_take(src, ka);
    crate::position::lemma_utf16_len_take(src, kb);
}

proof fn lemma_make_ordered(rule: RuleModel, span: (usize, usize), src: Seq<char>, offset: int)
    requires
        span.0 <= span.1,
        crate::position::utf16_len(src) <= u32::MAX,
    ensures
        position_before(spec_make_diagnostic(rule, span, src, offset).range.start, spec_make_diagnostic(rule, span, src, offset).range.end),
{
    let len = byte_len(src) as int;
    lemma_range_of_ordered(src, min_int(span.0 + offset, len), min_int(span.1 + offset, len));
}

/// Every node that is an error or was inserted has its start no later than its end.
proof fn lemma_error_scan_ordered(nodes: Seq<NodeModel>)
    requires
        nodes_ordered(nodes),
    ensures
        forall|k: int| 0 <= k < error_scan(nodes).0.len() ==> (#[trigger] error_scan(nodes).0[k]).0 <= error_scan(nodes).0[k].1,
    decreases nodes.len(),
{
    if nodes.len() > 0 {
        let init = nodes.drop_last();
        assert forall|i: int| 0 <= i < init.len() implies (#[trigger] init[i]).start <= init[i].end by {
            assert(init[i] == nodes[i]);
        }
        lemma_error_scan_ordered(init);
        assert(nodes.last() == nodes[nodes.len() - 1]);
        let prev = error_scan(init).0;
        let cur = error_scan(nodes).0;
        assert forall|k: int| 0 <= k < cur.len() implies (#[trigger] cur[k]).0 <= cur[k].1 by {
            if k < prev.len() {
                assert(cur[k] == prev[k]);
            }
        }
    }
}

/// The matches of the rules of kind `kind` all have a first capture in order.
spec fn kind_matches_ordered(rules: Seq<RuleModel>, rm: Seq<Seq<Seq<Span>>>, kind: AppliesTo) -> bool {
    forall|i: int|
        0 <= i < rules.len() && #[trigger] rules[i].applies_to == kind ==> forall|k: int|
            0 <= k < rm[i].len() ==> (#[trigger] rm[i][k]).len() > 0 && rm[i][k][0].0 <= rm[i][k][0].1
}

proof fn lemma_rules_ordered(src: Seq<char>, rules: Seq<RuleModel>, rm: Seq<Seq<Seq<Span>>>, kind: AppliesTo, offset: int)
    requires
        kind_matches_ordered(rules, rm, kind),
        crate::position::utf16_len(src) <= u32::MAX,
    ensures
        ranges_ordered(rules_diagnostics(src, rules, rm, kind, offset)),
    decreases rules.len(),
{
    if rules.len() > 0 {
        let init = rules.drop_last();
        assert forall|i: int| 0 <= i < init.len() && #[trigger] init[i].applies_to == kind implies forall|k: int|
            0 <= k < rm[i].len() ==> (#[trigger] rm[i][k]).len() > 0 && rm[i][k][0].0 <= rm[i][k][0].1 by {
            assert(init[i] == rules[i]);
        }
        lemma_rules_ordered(src, init, rm, kind, offset);
        let last = rules.len() - 1;
        assert(rules.last() == rules[last]);
        let b = if rules.last().applies_to == kind {
            match_diagnostics(rules.last(), rm[last], src, offset)
        } else {
            seq![]
        };
        assert forall|j: int| 0 <= j < b.len() implies position_before((#[trigger] b[j]).range.start, b[j].range.end) by {
            assert(rm[last][j].len() > 0);
            lemma_make_ordered(rules.last(), rm[last][j][0], src, offset);
        }
        lemma_ranges_concat(rules_diagnostics(src, init, rm, kind, offset), b);
    }
}

proof fn lemma_unused_for_ordered(src: Seq<char>, rule: RuleModel, doc: Seq<char>, doc_start: int, caps: Seq<Span>, name: Seq<char>)
    requires
        forall|k: int| 0 <= k < caps.len() ==> (#[trigger] caps[k]).0 <= caps[k].1,
        crate::position::utf16_len(src) <= u32::MAX,
    ensures
        ranges_ordered(unused_for(src, rule, doc, doc_start, caps, name)),
    decreases caps.len(),
{
    if caps.len() > 0 {
        let init = caps.drop_last();
        assert forall|k: int| 0 <= k < init.len() implies (#[trigger] init[k]).0 <= init[k].1 by {
            assert(init[k] == caps[k]);
        }
        lemma_unused_for_ordered(src, rule, doc, doc_start, init, name);
        assert(caps.last() == caps[caps.len() - 1]);
        lemma_make_ordered(rule, caps.last(), src, doc_start);
        let b: Seq<DiagnosticModel> = if span_text(doc, caps.last()) == name {
            seq![with_message(spec_make_diagnostic(rule, caps.last(), src, doc_start), unused_param_message(name))]
        } else {
            seq![]
        };
        assert forall|j: int| 0 <= j < b.len() implies position_before((#[trigger] b[j]).range.start, b[j].range.end) by {}
        lemma_ranges_concat(unused_for(src, rule, doc, doc_start, init, name), b);
    }
}

proof fn lemma_unused_ordered(src: Seq<char>, rule: RuleModel, doc: Seq<char>, doc_start: int, caps: Seq<Span>, names: Seq<Seq<char>>)
    requires
        forall|k: int| 0 <= k < caps.len() ==> (#[trigger] caps[k]).0 <= caps[k].1,
        crate::position::utf16_len(src) <= u32::MAX,
    ensures
        ranges_ordered(unused_diagnostics(src, rule, doc, doc_start, caps, names)),
    decreases names.len(),
{
    if names.len() > 0 {
        lemma_unused_ordered(src, rule, doc, doc_start, caps, names.drop_last());
        lemma_unused_for_ordered(src, rule, doc, doc_start, caps, names.last());
        lemma_ranges_concat(
            unused_diagnostics(src, rule, doc, doc_start, caps, names.drop_last()),
            unused_for(src, rule, doc, doc_start, caps, names.last()),
        );
    }
}

proof fn lemma_undocumented_ordered(src: Seq<char>, rule: RuleModel, spans: Seq<Span>, declared: Seq<Seq<char>>)
    requires
        forall|k: int| 0 <= k < spans.len() ==> (#[trigger] spans[k]).0 <= spans[k].1,
        crate::position::utf16_len(src) <= u32::MAX,
    ensures
        ranges_ordered(undocumented_diagnostics(src, rule, spans, declared)),
    decreases spans.len(),
{
    if spans.len() > 0 {
        let init = spans.drop_last();
        assert forall|k: int| 0 <= k < init.len() implies (#[trigger] init[k]).0 <= init[k].1 by {
            assert(init[k] == spans[k]);
        }
        lemma_undocumented_ordered(src, rule, init, declared);
        let sp = spans.last();
        assert(sp == spans[spans.len() - 1]);
        lemma_range_of_ordered(src, sp.0 as int, sp.1 as int);
        let a = undocumented_diagnostics(src, rule, init, declared);
        let ds = undocumented_diagnostics(src, rule, spans, declared);
        assert forall|j: int| 0 <= j < ds.len() implies position_before((#[trigger] ds[j]).range.start, ds[j].range.end) by {
            if j < a.len() {
                assert(ds[j] == a[j]);
            }
        }
    }
}

proof fn lemma_pair_ordered(src: Seq<char>, rules: Seq<RuleModel>, p: PairModel, pr: PairReadingModel)
    requires
        pair_reading_ok(src, rules, p, pr),
        crate::position::utf16_len(src) <= u32::MAX,
    ensures
        ranges_ordered(pair_diagnostics(src, rules, p, pr)),
{
    match (p.doc, pr.doc) {
        (Some(doc), Some(d)) => {
            let c = contract_part(src, rules, doc, d);
            if has_content(d.tree) {
                assert(kind_matches_ordered(rules, d.rule_matches, AppliesTo::Contract)) by {
                    assert forall|i: int| 0 <= i < rules.len() && #[trigger] rules[i].applies_to == AppliesTo::Contract implies forall|k: int|
                        0 <= k < d.rule_matches[i].len() ==> (#[trigger] d.rule_matches[i][k]).len() > 0 && d.rule_matches[i][k][0].0
                            <= d.rule_matches[i][k][0].1 by {
                        assert(matches_captured(d.rule_matches[i]));
                        assert(first_captures_fit(d.rule_matches[i], doc.0 as int));
                    }
                }
                lemma_rules_ordered(src, rules, d.rule_matches, AppliesTo::Contract, doc.0 as int);
                let m: Seq<DiagnosticModel> = if lacks_tool_name(d.tree) {
                    seq![missing_tool_name_diagnostic(src, doc.0 as int)]
                } else {
                    seq![]
                };
                lemma_range_of_ordered(src, doc.0 as int, doc.0 as int);
                assert forall|j: int| 0 <= j < m.len() implies position_before((#[trigger] m[j]).range.start, m[j].range.end) by {}
                lemma_ranges_concat(rules_diagnostics(src, rules, d.rule_matches, AppliesTo::Contract, doc.0 as int), m);
            }
            let x = cross_part(src, rules, p, doc, d, pr);
            if has_cross_reference(rules) {
                let declared = declared_of(src, rules, doc, d);
                let used = param_names(span_text(src, p.statement), used_spans_of(rules, pr));
                let unused = match first_rule_named(rules, "UnusedParameter"@) {
                    Some(u) => unused_diagnostics(
                        src,
                        rules[u],
                        span_text(src, doc),
                        doc.0 as int,
                        all_captures(d.rule_matches[u]),
                        names_without(declared, used),
                    ),
                    None => seq![],
                };
                let undocumented = match first_rule_named(rules, "UndocumentedParameter"@) {
                    Some(u) => undocumented_diagnostics(src, rules[u], shifted(used_spans_of(rules, pr), p.statement.0 as int), declared),
                    None => seq![],
                };
                match first_rule_named(rules, "UnusedParameter"@) {
                    Some(u) => {
                        let caps = all_captures(d.rule_matches[u]);
                        assert forall|k: int| 0 <= k < caps.len() implies (#[trigger] caps[k]).0 <= caps[k].1 by {
                            assert(valid_span(span_text(src, doc), caps[k]));
                        }
                        lemma_unused_ordered(src, rules[u], span_text(src, doc), doc.0 as int, caps, names_without(declared, used));
                    },
                    None => {},
                }
                match first_rule_named(rules, "UndocumentedParameter"@) {
                    Some(u) => {
                        let spans = shifted(used_spans_of(rules, pr), p.statement.0 as int);
                        assert forall|k: int| 0 <= k < spans.len() implies (#[trigger] spans[k]).0 <= spans[k].1 by {
                            assert(valid_span(src, spans[k]));
                        }
                        lemma_undocumented_ordered(src, rules[u], spans, declared);
                    },
                    None => {},
                }
                lemma_ranges_concat(unused, undocumented);
                assert(x == unused + undocumented);
            }
            lemma_ranges_concat(c, x);
        },
        _ => {},
    }
}

proof fn lemma_pairs_ordered(src: Seq<char>, rules: Seq<RuleModel>, ps: Seq<PairModel>, prs: Seq<PairReadingModel>)
    requires
        ps.len() <= prs.len(),
        forall|k: int| 0 <= k < ps.len() ==> pair_reading_ok(src, rules, #[trigger] ps[k], prs[k]),
        crate::position::utf16_len(src) <= u32::MAX,
    ensures
        ranges_ordered(pairs_diagnostics(src, rules, ps, prs)),
    decreases ps.len(),
{
    if ps.len() > 0 {
        let init = ps.drop_last();
        assert forall|k: int| 0 <= k < init.len() implies pair_reading_ok(src, rules, #[trigger] init[k], prs[k]) by {
            assert(init[k] == ps[k]);
        }
        lemma_pairs_ordered(src, rules, init, prs);
        assert(ps.last() == ps[ps.len() - 1]);
        lemma_pair_ordered(src, rules, ps.last(), prs[ps.len() - 1]);
        lemma_ranges_concat(pairs_diagnostics(src, rules, init, prs), pair_diagnostics(src, rules, ps.last(), prs[ps.len() - 1]));
    }
}

/// In every diagnostic of a source that can be analysed, the range's start comes no later
/// than its end, when every line and column of the source fits in 32 bits (sources whose
/// UTF-16 length passes `u32::MAX` are left out: there lines and columns wrap).
pub proof fn lemma_ranges_ordered(src: Seq<char>, rules: Seq<RuleModel>, r: SourceReadingModel)
    requires
        reading_ok(src, rules, r),
        crate::position::utf16_len(src) <= u32::MAX,
    ensures
        ranges_ordered(source_diagnostics(src, rules, r)),
{
    let pe = parse_error_diagnostics(src, error_spans(r.tree));
    lemma_error_scan_ordered(r.tree.nodes);
    assert forall|j: int| 0 <= j < pe.len() implies position_before((#[trigger] pe[j]).range.start, pe[j].range.end) by {
        let sp = error_spans(r.tree)[j];
        assert(pe[j] == parse_error_diagnostic(src, sp));
        lemma_range_of_ordered(src, sp.0 as int, sp.1 as int);
    }
    assert(kind_matches_ordered(rules, r.rule_matches, AppliesTo::Structure)) by {
        assert forall|i: int| 0 <= i < rules.len() && #[trigger] rules[i].applies_to == AppliesTo::Structure implies forall|k: int|
            0 <= k < r.rule_matches[i].len() ==> (#[trigger] r.rule_matches[i][k]).len() > 0 && r.rule_matches[i][k][0].0
                <= r.rule_matches[i][k][0].1 by {
            assert(matches_captured(r.rule_matches[i]));
            assert(first_captures_fit(r.rule_matches[i], 0));
        }
    }
    lemma_rules_ordered(src, rules, r.rule_matches, AppliesTo::Structure, 0);
    lemma_pairs_ordered(src, rules, tree_pairs(r.tree), r.pairs);
    let a = rules_diagnostics(src, rules, r.rule_matches, AppliesTo::Structure, 0);
    lemma_ranges_concat(pe, a);
    lemma_ranges_concat(pe + a, pairs_diagnostics(src, rules, tree_pairs(r.tree), r.pairs));
}

/// Position `p` is the line and column of some byte offset of `src`, at most its length.
pub open spec fn within_source(src: Seq<char>, p: Position) -> bool {
    exists|b: int| 0 <= b <= byte_len(src) && p == #[trigger] position_of(src, b)
}

/// Both ends of every diagnostic's range of `ds` are positions within `src`.
pub open spec fn ranges_within(src: Seq<char>, ds: Seq<DiagnosticModel>) -> bool {
    forall|j: int| 0 <= j < ds.len() ==> within_source(src, (#[trigger] ds[j]).range.start) && within_source(src, ds[j].range.end)
}

/// The position of any byte offset lies within the source: past the end it is that of the
/// end.
proof fn lemma_position_within(src: Seq<char>, b: int)
    requires
        b >= 0,
    ensures
        within_source(src, position_of(src, b)),
{
    let len = byte_len(src) as int;
    if b > len {
        lemma_chars_within_all(src, b);
        lemma_chars_within_all(src, len);
        assert(position_of(src, b) == position_of(src, len));
    } else {
        assert(position_of(src, b) == position_of(src, b));
    }
}

proof fn lemma_range_within(src: Seq<char>, a: int, b: int)
    requires
        a >= 0,
        b >= 0,
    ensures
        within_source(src, range_of(src, a, b).start),
        within_source(src, range_of(src, a, b).end),
{
    lemma_position_within(src, a);
    lemma_position_within(src, b);
}

proof fn lemma_within_concat(src: Seq<char>, a: Seq<DiagnosticModel>, b: Seq<DiagnosticModel>)
    requires
        ranges_within(src, a),
        ranges_within(src, b),
    ensures
        ranges_within(src, a + b),
{
    assert forall|j: int| 0 <= j < (a + b).len() implies within_source(src, (#[trigger] (a + b)[j]).range.start)
        && within_source(src, (a + b)[j].range.end) by {
        if j < a.len() {
            assert((a + b)[j] == a[j]);
        } else {
            assert((a + b)[j] == b[j - a.len()]);
        }
    }
}

proof fn lemma_make_within(rule: RuleModel, span: (usize, usize), src: Seq<char>, offset: int)
    requires
        offset >= 0,
    ensures
        within_source(src, spec_make_diagnostic(rule, span, src, offset).range.start),
        within_source(src, spec_make_diagnostic(rule, span, src, offset).range.end),
{
    let len = byte_len(src) as int;
    lemma_range_within(src, min_int(span.0 + offset, len), min_int(span.1 + offset, len));
}

proof fn lemma_rules_within(src: Seq<char>, rules: Seq<RuleModel>, rm: Seq<Seq<Seq<Span>>>, kind: AppliesTo, offset: int)
    requires
        offset >= 0,
    ensures
        ranges_within(src, rules_diagnostics(src, rules, rm, kind, offset)),
    decreases rules.len(),
{
    if rules.len() > 0 {
        let init = rules.drop_last();
        lemma_rules_within(src, init, rm, kind, offset);
        let last = rules.len() - 1;
        let b = if rules.last().applies_to == kind {
            match_diagnostics(rules.last(), rm[last], src, offset)
        } else {
            seq![]
        };
        assert forall|j: int| 0 <= j < b.len() implies within_source(src, (#[trigger] b[j]).range.start)
            && within_source(src, b[j].range.end) by {
            lemma_make_within(rules.last(), rm[last][j][0], src, offset);
        }
        lemma_within_concat(src, rules_diagnostics(src, init, rm, kind, offset), b);
    }
}

proof fn lemma_unused_for_within(src: Seq<char>, rule: RuleModel, doc: Seq<char>, doc_start: int, caps: Seq<Span>, name: Seq<char>)
    requires
        doc_start >= 0,
    ensures
        ranges_within(src, unused_for(src, rule, doc, doc_start, caps, name)),
    decreases caps.len(),
{
    if caps.len() > 0 {
        lemma_unused_for_within(src, rule, doc, doc_start, caps.drop_last(), name);
        lemma_make_within(rule, caps.last(), src, doc_start);
        let b: Seq<DiagnosticModel> = if span_text(doc, caps.last()) == name {
            seq![with_message(spec_make_diagnostic(rule, caps.last(), src, doc_start), unused_param_message(name))]
        } else {
            seq![]
        };
        assert forall|j: int| 0 <= j < b.len() implies within_source(src, (#[trigger] b[j]).range.start)
            && within_source(src, b[j].range.end) by {}
        lemma_within_concat(src, unused_for(src, rule, doc, doc_start, caps.drop_last(), name), b);
    }
}

proof fn lemma_unused_within(src: Seq<char>, rule: RuleModel, doc: Seq<char>, doc_start: int, caps: Seq<Span>, names: Seq<Seq<char>>)
    requires
        doc_start >= 0,
    ensures
        ranges_within(src, unused_diagnostics(src, rule, doc, doc_start, caps, names)),
    decreases names.len(),
{
    if names.len() > 0 {
        lemma_unused_within(src, rule, doc, doc_start, caps, names.drop_last());
        lemma_unused_for_within(src, rule, doc, doc_start, caps, names.last());
        lemma_within_concat(
            src,
            unused_diagnostics(src, rule, doc, doc_start, caps, names.drop_last()),
            unused_for(src, rule, doc, doc_start, caps, names.last()),
        );
    }
}

proof fn lemma_undocumented_within(src: Seq<char>, rule: RuleModel, spans: Seq<Span>, declared: Seq<Seq<char>>)
    ensures
        ranges_within(src, undocumented_diagnostics(src, rule, spans, declared)),
    decreases spans.len(),
{
    if spans.len() > 0 {
        lemma_undocumented_within(src, rule, spans.drop_last(), declared);
        let sp = spans.last();
        lemma_range_within(src, sp.0 as int, sp.1 as int);
        let a = undocumented_diagnostics(src, rule, spans.drop_last(), declared);
        let ds = undocumented_diagnostics(src, rule, spans, declared);
        assert forall|j: int| 0 <= j < ds.len() implies within_source(src, (#[trigger] ds[j]).range.start)
            && within_source(src, ds[j].range.end) by {
            if j < a.len() {
                assert(ds[j] == a[j]);
            }
        }
    }
}

proof fn lemma_pair_within(src: Seq<char>, rules: Seq<RuleModel>, p: PairModel, pr: PairReadingModel)
    ensures
        ranges_within(src, pair_diagnostics(src, rules, p, pr)),
{
    match (p.doc, pr.doc) {
        (Some(doc), Some(d)) => {
            let c = contract_part(src, rules, doc, d);
            if has_content(d.tree) {
                lemma_rules_within(src, rules, d.rule_matches, AppliesTo::Contract, doc.0 as int);
                let m: Seq<DiagnosticModel> = if lacks_tool_name(d.tree) {
                    seq![missing_tool_name_diagnostic(src, doc.0 as int)]
                } else {
                    seq![]
                };
                lemma_range_within(src, doc.0 as int, doc.0 as int);
                assert forall|j: int| 0 <= j < m.len() implies within_source(src, (#[trigger] m[j]).range.start)
                    && within_source(src, m[j].range.end) by {}
                lemma_within_concat(src, rules_diagnostics(src, rules, d.rule_matches, AppliesTo::Contract, doc.0 as int), m);
            }
            let x = cross_part(src, rules, p, doc, d, pr);
            if has_cross_reference(rules) {
                let declared = declared_of(src, rules, doc, d);
                let used = param_names(span_text(src, p.statement), used_spans_of(rules, pr));
                let unused = match first_rule_named(rules, "UnusedParameter"@) {
                    Some(u) => unused_diagnostics(
                        src,
                        rules[u],
                        span_text(src, doc),
                        doc.0 as int,
                        all_captures(d.rule_matches[u]),
                        names_without(declared, used),
                    ),
                    None => seq![],
                };
                let undocumented = match first_rule_named(rules, "UndocumentedParameter"@) {
                    Some(u) => undocumented_diagnostics(src, rules[u], shifted(used_spans_of(rules, pr), p.statement.0 as int), declared),
                    None => seq![],
                };
                match first_rule_named(rules, "UnusedParameter"@) {
                    Some(u) => {
                        lemma_unused_within(src, rules[u], span_text(src, doc), doc.0 as int, all_captures(d.rule_matches[u]), names_without(declared, used));
                    },
                    None => {},
                }
                match first_rule_named(rules, "UndocumentedParameter"@) {
                    Some(u) => {
                        lemma_undocumented_within(src, rules[u], shifted(used_spans_of(rules, pr), p.statement.0 as int), declared);
                    },
                    None => {},
                }
                lemma_within_concat(src, unused, undocumented);
                assert(x == unused + undocumented);
            }
            lemma_within_concat(src, c, x);
        },
        _ => {},
    }
}

proof fn lemma_pairs_within(src: Seq<char>, rules: Seq<RuleModel>, ps: Seq<PairModel>, prs: Seq<PairReadingModel>)
    ensures
        ranges_within(src, pairs_diagnostics(src, rules, ps, prs)),
    decreases ps.len(),
{
    if ps.len() > 0 {
        lemma_pairs_within(src, rules, ps.drop_last(), prs);
        lemma_pair_within(src, rules, ps.last(), prs[ps.len() - 1]);
        lemma_within_concat(src, pairs_diagnostics(src, rules, ps.drop_last(), prs), pair_diagnostics(src, rules, ps.last(), prs[ps.len() - 1]));
    }
}

/// Both ends of every diagnostic's range of a source are the line and UTF-16 column of a
/// byte offset of that source, between its start and its end.
pub proof fn lemma_ranges_within(src: Seq<char>, rules: Seq<RuleModel>, r: SourceReadingModel)
    ensures
        ranges_within(src, source_diagnostics(src, rules, r)),
{
    let pe = parse_error_diagnostics(src, error_spans(r.tree));
    assert forall|j: int| 0 <= j < pe.len() implies within_source(src, (#[trigger] pe[j]).range.start)
        && within_source(src, pe[j].range.end) by {
        let sp = error_spans(r.tree)[j];
        assert(pe[j] == parse_error_diagnostic(src, sp));
        lemma_range_within(src, sp.0 as int, sp.1 as int);
    }
    lemma_rules_within(src, rules, r.rule_matches, AppliesTo::Structure, 0);
    lemma_pairs_within(src, rules, tree_pairs(r.tree), r.pairs);
    let a = rules_diagnostics(src, rules, r.rule_matches, AppliesTo::Structure, 0);
    lemma_within_concat(src, pe, a);
    lemma_within_concat(src, pe + a, pairs_diagnostics(src, rules, tree_pairs(r.tree), r.pairs));
}

/// Each match of a rule gives exactly one diagnostic, in match order: the `i`-th carries
/// the rule's name, severity, message and code, and spans the match's first capture (moved
/// by `offset` and capped at the end of `src`).
pub proof fn lemma_one_diagnostic_per_match(rule: RuleModel, ms: Seq<Seq<Span>>, src: Seq<char>, offset: int)
    ensures
        match_diagnostics(rule, ms, src, offset).len() == ms.len(),
        forall|i: int|
            0 <= i < ms.len() ==> {
                let d = #[trigger] match_diagnostics(rule, ms, src, offset)[i];
                &&& d.rule == rule.name
                &&& d.severity == rule.severity
                &&& d.message == rule.message
                &&& d.code == rule.code
                &&& d.range == range_of(
                    src,
                    min_int(ms[i][0].0 + offset, byte_len(src) as int),
                    min_int(ms[i][0].1 + offset, byte_len(src) as int),
                )
            },
{
}

/// The number of matches of the rules of kind `kind` among `rm` (`rm[i]` being those of
/// `rules[i]`).
pub open spec fn matches_of_kind(rules: Seq<RuleModel>, rm: Seq<Seq<Seq<Span>>>, kind: AppliesTo) -> nat
    decreases rules.len(),
{
    if rules.len() == 0 {
        0
    } else {
        matches_of_kind(rules.drop_last(), rm, kind) + if rules.last().applies_to == kind {
            rm[rules.len() - 1].len()
        } else {
            0
        }
    }
}

/// The rules of a kind give one diagnostic for each of their matches: as many diagnostics
/// as matches, and for every match `k` of every rule `i` of that kind, its diagnostic.
pub proof fn lemma_rules_report_every_match(src: Seq<char>, rules: Seq<RuleModel>, rm: Seq<Seq<Seq<Span>>>, kind: AppliesTo, offset: int)
    ensures
        rules_diagnostics(src, rules, rm, kind, offset).len() == matches_of_kind(rules, rm, kind),
        forall|i: int, k: int|
            0 <= i < rules.len() && rules[i].applies_to == kind && 0 <= k < rm[i].len() ==> rules_diagnostics(
                src,
                rules,
                rm,
                kind,
                offset,
            ).contains(#[trigger] spec_make_diagnostic(rules[i], rm[i][k][0], src, offset)),
    decreases rules.len(),
{
    if rules.len() > 0 {
        let init = rules.drop_last();
        let last = rules.len() - 1;
        lemma_rules_report_every_match(src, init, rm, kind, offset);
        lemma_one_diagnostic_per_match(rules.last(), rm[last], src, offset);
        let a = rules_diagnostics(src, init, rm, kind, offset);
        let b = if rules.last().applies_to == kind {
            match_diagnostics(rules.last(), rm[last], src, offset)
        } else {
            seq![]
        };
        let ds = rules_diagnostics(src, rules, rm, kind, offset);
        assert(ds == a + b);
        assert forall|i: int, k: int|
            0 <= i < rules.len() && rules[i].applies_to == kind && 0 <= k < rm[i].len() implies ds.contains(
            #[trigger] spec_make_diagnostic(rules[i], rm[i][k][0], src, offset),
        ) by {
            let d = spec_make_diagnostic(rules[i], rm[i][k][0], src, offset);
            if i < last {
                assert(init[i] == rules[i]);
                assert(a.contains(spec_make_diagnostic(init[i], rm[i][k][0], src, offset)));
                let j = choose|j: int| 0 <= j < a.len() && a[j] == d;
                assert(ds[j] == d);
            } else {
                assert(rules[i] == rules.last());
                assert(b[k] == d);
                assert(ds[a.len() + k] == d);
            }
        }
    }
}

/// Whether the parameter used at a span of `src` has a name not among `declared`.
pub open spec fn undeclared_in(src: Seq<char>, declared: Seq<Seq<char>>) -> spec_fn(Span) -> bool {
    |sp: Span| !declared.contains(trim_dollars(span_text(src, sp)))
}

/// Every used parameter whose name is not declared is reported: for each such span the
/// diagnostics hold one of `rule`, at that span, saying that the parameter is used but not
/// declared; and there are exactly as many diagnostics as such spans.
pub proof fn lemma_undeclared_params_reported(src: Seq<char>, rule: RuleModel, spans: Seq<Span>, declared: Seq<Seq<char>>)
    ensures
        undocumented_diagnostics(src, rule, spans, declared).len() == spans.filter(undeclared_in(src, declared)).len(),
        forall|k: int|
            0 <= k < spans.len() && !declared.contains(trim_dollars(span_text(src, #[trigger] spans[k]))) ==> {
                let name = trim_dollars(span_text(src, spans[k]));
                undocumented_diagnostics(src, rule, spans, declared).contains(
                    DiagnosticModel {
                        severity: rule.severity,
                        rule: rule.name,
                        message: "$"@ + name + " is used in the query but not declared as @param in the doc comment."@,
                        range: range_of(src, spans[k].0 as int, spans[k].1 as int),
                        code: None,
                    },
                )
            },
    decreases spans.len(),
{
    if spans.len() > 0 {
        let init = spans.drop_last();
        lemma_undeclared_params_reported(src, rule, init, declared);
        let a = undocumented_diagnostics(src, rule, init, declared);
        let ds = undocumented_diagnostics(src, rule, spans, declared);
        let sp = spans.last();
        let p = undeclared_in(src, declared);
        reveal(Seq::filter);
        assert(spans.filter(p) == if p(sp) { init.filter(p).push(sp) } else { init.filter(p) });
        assert forall|k: int|
            0 <= k < spans.len() && !declared.contains(trim_dollars(span_text(src, #[trigger] spans[k]))) implies ds.contains(
            DiagnosticModel {
                severity: rule.severity,
                rule: rule.name,
                message: "$"@ + trim_dollars(span_text(src, spans[k])) + " is used in the query but not declared as @param in the doc comment."@,
                range: range_of(src, spans[k].0 as int, spans[k].1 as int),
                code: None,
            },
        ) by {
            let nk = trim_dollars(span_text(src, spans[k]));
            let d = DiagnosticModel {
                severity: rule.severity,
                rule: rule.name,
                message: "$"@ + nk + " is used in the query but not declared as @param in the doc comment."@,
                range: range_of(src, spans[k].0 as int, spans[k].1 as int),
                code: None,
            };
            if k < init.len() {
                assert(init[k] == spans[k]);
                let j = choose|j: int| 0 <= j < a.len() && a[j] == d;
                assert(ds[j] == d);
            } else {
                assert(spans[k] == sp);
                assert(ds[a.len() as int] == d);
            }
        }
    }
}

} // verus!
