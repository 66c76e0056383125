//! Lint rules: their text format, and compiling their queries.
//!
//! A rule file starts with `;; Key: value` header lines (`Rule`, `Severity`,
//! `Applies-to`, `Message`, and optionally `Code`); bare `;;` comments and blank lines may
//! stand among them. The first other line starts the tree-sitter query, which runs to the
//! end of the file.

use vstd::prelude::*;

use crate::diagnostics::{opt_view, Severity};
use crate::syntax::{
    compile_cypher_query, compile_cypherdoc_query, query_problem, CompiledQuery, Grammar, QueryProblem,
    QueryProblemKind,
};
use crate::text::{
    chars_of, decimal, push_decimal, has_prefix, has_prefix_at, join_lines, lines, push_line, range_eq, split_lines,
    string_of_range, trim, trim_range,
};

verus! {

/// Which part of a document a rule's query runs on.
#[derive(Debug, Clone, Copy, PartialEq, Eq, Structural)]
pub enum AppliesTo {
    /// The Cypher syntax tree of the whole source.
    Structure,
    /// The doc comment before a statement.
    Contract,
    /// A doc comment checked against the statement it documents.
    CrossReference,
}

/// A rule's header, with the text of its query.
pub struct RuleHeader {
    pub name: String,
    pub severity: Severity,
    pub applies_to: AppliesTo,
    pub message: String,
    pub code: Option<String>,
    pub query_source: String,
}

/// The value of a `RuleHeader`.
pub struct RuleHeaderModel {
    pub name: Seq<char>,
    pub severity: Severity,
    pub applies_to: AppliesTo,
    pub message: Seq<char>,
    pub code: Option<Seq<char>>,
    pub query_source: Seq<char>,
}

impl View for RuleHeader {
    type V = RuleHeaderModel;

    open spec fn view(&self) -> RuleHeaderModel {
        RuleHeaderModel {
            name: self.name@,
            severity: self.severity,
            applies_to: self.applies_to,
            message: self.message@,
            code: opt_view(self.code),
            query_source: self.query_source@,
        }
    }
}

/// A loaded rule: its header and its compiled query.
pub struct Rule {
    pub name: String,
    pub severity: Severity,
    pub applies_to: AppliesTo,
    pub message: String,
    pub code: Option<String>,
    pub query: CompiledQuery,
}

/// The value of a `Rule`: its header, and the text and grammar its query was compiled
/// from and for.
pub struct RuleModel {
    pub name: Seq<char>,
    pub severity: Severity,
    pub applies_to: AppliesTo,
    pub message: Seq<char>,
    pub code: Option<Seq<char>>,
    pub query_source: Seq<char>,
    pub grammar: Grammar,
}

impl View for Rule {
    type V = RuleModel;

    open spec fn view(&self) -> RuleModel {
        RuleModel {
            name: self.name@,
            severity: self.severity,
            applies_to: self.applies_to,
            message: self.message@,
            code: opt_view(self.code),
            query_source: self.query.source(),
            grammar: self.query.grammar(),
        }
    }
}

/// The values of a list of rules.
pub open spec fn rules_view(rules: Seq<Rule>) -> Seq<RuleModel> {
    rules.map_values(|r: Rule| r@)
}

/// The severity a header value names.
pub open spec fn severity_named(v: Seq<char>) -> Option<Severity> {
    if v == "Error"@ {
        Some(Severity::Error)
    } else if v == "Warning"@ {
        Some(Severity::Warning)
    } else if v == "Information"@ {
        Some(Severity::Information)
    } else if v == "Hint"@ {
        Some(Severity::Hint)
    } else {
        None
    }
}

/// The target an `Applies-to` header value names.
pub open spec fn applies_to_named(v: Seq<char>) -> Option<AppliesTo> {
    if v == "structural"@ {
        Some(AppliesTo::Structure)
    } else if v == "contract"@ {
        Some(AppliesTo::Contract)
    } else if v == "cross-reference"@ {
        Some(AppliesTo::CrossReference)
    } else {
        None
    }
}

/// Where the reading of a rule file stands after some of its lines.
pub struct HeaderScan {
    pub name: Option<Seq<char>>,
    pub severity: Option<Severity>,
    pub applies_to: Option<AppliesTo>,
    pub message: Option<Seq<char>>,
    pub code: Option<Seq<char>>,
    /// Whether the query has started.
    pub in_query: bool,
    /// The query lines so far.
    pub query: Seq<Seq<char>>,
    /// The error that stopped the reading, if any.
    pub error: Option<Seq<char>>,
}

/// Nothing read yet.
pub open spec fn header_start() -> HeaderScan {
    HeaderScan {
        name: None,
        severity: None,
        applies_to: None,
        message: None,
        code: None,
        in_query: false,
        query: seq![],
        error: None,
    }
}

/// The reading after a header line whose text after `;; ` is `rest`.
pub open spec fn header_field(st: HeaderScan, rest: Seq<char>) -> HeaderScan {
    if has_prefix(rest, "Rule: "@) {
        HeaderScan { name: Some(trim(rest.skip("Rule: "@.len() as int))), ..st }
    } else if has_prefix(rest, "Severity: "@) {
        let v = trim(rest.skip("Severity: "@.len() as int));
        match severity_named(v) {
            Some(s) => HeaderScan { severity: Some(s), ..st },
            None => HeaderScan { error: Some("unknown severity: "@ + v), ..st },
        }
    } else if has_prefix(rest, "Applies-to: "@) {
        let v = trim(rest.skip("Applies-to: "@.len() as int));
        match applies_to_named(v) {
            Some(a) => HeaderScan { applies_to: Some(a), ..st },
            None => HeaderScan { error: Some("unknown applies-to: "@ + v), ..st },
        }
    } else if has_prefix(rest, "Message: "@) {
        HeaderScan { message: Some(trim(rest.skip("Message: "@.len() as int))), ..st }
    } else if has_prefix(rest, "Code: "@) {
        HeaderScan { code: Some(trim(rest.skip("Code: "@.len() as int))), ..st }
    } else {
        st
    }
}

/// The reading after one more line.
pub open spec fn header_step(st: HeaderScan, line: Seq<char>) -> HeaderScan {
    if st.error is Some {
        st
    } else if st.in_query {
        HeaderScan { query: st.query.push(line), ..st }
    } else if has_prefix(line, ";; "@) {
        header_field(st, line.skip(";; "@.len() as int))
    } else if has_prefix(line, ";;"@) || trim(line).len() == 0 {
        st
    } else {
        HeaderScan { in_query: true, query: st.query.push(line), ..st }
    }
}

/// The reading after the given lines.
pub open spec fn header_scan(ls: Seq<Seq<char>>) -> HeaderScan
    decreases ls.len(),
{
    if ls.len() == 0 {
        header_start()
    } else {
        header_step(header_scan(ls.drop_last()), ls.last())
    }
}

/// What a rule file holds: its header and query text, or why it is not a rule. An
/// unknown `Severity` or `Applies-to` value is reported as soon as it is read; after the
/// whole file, a missing `Rule`, `Severity`, `Applies-to` or `Message` header is
/// reported, the first missing one in that order.
pub open spec fn spec_rule_header(src: Seq<char>) -> Result<RuleHeaderModel, Seq<char>> {
    let st = header_scan(lines(src));
    if st.error is Some {
        Err(st.error->0)
    } else if st.name is None {
        Err("missing Rule: header"@)
    } else if st.severity is None {
        Err("missing Severity: header"@)
    } else if st.applies_to is None {
        Err("missing Applies-to: header"@)
    } else if st.message is None {
        Err("missing Message: header"@)
    } else {
        Ok(
            RuleHeaderModel {
                name: st.name->0,
                severity: st.severity->0,
                applies_to: st.applies_to->0,
                message: st.message->0,
                code: st.code,
                query_source: join_lines(st.query),
            },
        )
    }
}


/// Once an error stops the reading, later lines leave it as it is.
proof fn lemma_header_error_stays(ls: Seq<Seq<char>>, k: int)
    requires
        0 <= k <= ls.len(),
        header_scan(ls.take(k)).error is Some,
    ensures
        header_scan(ls) == header_scan(ls.take(k)),
    decreases ls.len() - k,
{
    if k < ls.len() {
        assert(ls.take(k + 1).drop_last() =~= ls.take(k));
        lemma_header_error_stays(ls, k + 1);
    } else {
        assert(ls.take(k) =~= ls);
    }
}

/// A string holding `lit` followed by `s[lo..hi]`.
fn message_with(lit: &str, s: &[char], lo: usize, hi: usize) -> (r: String)
    requires
        lo <= hi <= s@.len(),
    ensures
        r@ == lit@ + s@.subrange(lo as int, hi as int),
{
    let mut r = String::from_str(lit);
    crate::text::push_range(&mut r, s, lo, hi);
    r
}

/// The header values read so far.
struct HeaderFields {
    name: Option<String>,
    severity: Option<Severity>,
    applies_to: Option<AppliesTo>,
    message: Option<String>,
    code: Option<String>,
}

impl HeaderFields {
    /// Whether these values are those of the reading `st`.
    spec fn matches(&self, st: HeaderScan) -> bool {
        &&& st.name == opt_view(self.name)
        &&& st.severity == self.severity
        &&& st.applies_to == self.applies_to
        &&& st.message == opt_view(self.message)
        &&& st.code == opt_view(self.code)
    }
}

/// Reads the value of a `Severity` header, `s[a..b]`.
fn read_severity(s: &[char], a: usize, b: usize) -> (r: Option<Severity>)
    requires
        a <= b <= s@.len(),
    ensures
        r == severity_named(s@.subrange(a as int, b as int)),
{
    if range_eq(s, a, b, chars_of("Error").as_slice()) {
        Some(Severity::Error)
    } else if range_eq(s, a, b, chars_of("Warning").as_slice()) {
        Some(Severity::Warning)
    } else if range_eq(s, a, b, chars_of("Information").as_slice()) {
        Some(Severity::Information)
    } else if range_eq(s, a, b, chars_of("Hint").as_slice()) {
        Some(Severity::Hint)
    } else {
        None
    }
}

/// Reads the value of an `Applies-to` header, `s[a..b]`.
fn read_applies_to(s: &[char], a: usize, b: usize) -> (r: Option<AppliesTo>)
    requires
        a <= b <= s@.len(),
    ensures
        r == applies_to_named(s@.subrange(a as int, b as int)),
{
    if range_eq(s, a, b, chars_of("structural").as_slice()) {
        Some(AppliesTo::Structure)
    } else if range_eq(s, a, b, chars_of("contract").as_slice()) {
        Some(AppliesTo::Contract)
    } else if range_eq(s, a, b, chars_of("cross-reference").as_slice()) {
        Some(AppliesTo::CrossReference)
    } else {
        None
    }
}

/// The bounds of the trimmed value after `key` in `line[rest..]`, when that text starts
/// with `key`.
fn header_value(line: &[char], rest: usize, key: &str) -> (r: Option<(usize, usize)>)
    requires
        rest <= line@.len(),
    ensures
        has_prefix(line@.skip(rest as int), key@) <==> r is Some,
        r matches Some((a, b)) ==> a <= b <= line@.len()
            && line@.subrange(a as int, b as int) == trim(line@.skip(rest as int).skip(key@.len() as int)),
{
    let k = chars_of(key);
    let line_len = line.len();
    if has_prefix_at(line, rest, k.as_slice()) {
        assert(rest + k@.len() <= line_len);
        let start = rest + k.len();
        assert(line@.skip(rest as int).skip(key@.len() as int) =~= line@.skip(start as int));
        Some(trim_range(line, start))
    } else {
        None
    }
}

/// Takes in a header line whose text after `;; ` starts at `rest`; the error, if the line
/// holds an unknown value.
fn read_header_field(f: &mut HeaderFields, line: &[char], rest: usize, Ghost(st): Ghost<HeaderScan>) -> (r: Option<String>)
    requires
        rest <= line@.len(),
        old(f).matches(st),
        st.error is None,
    ensures
        ({
            let next = header_field(st, line@.skip(rest as int));
            match next.error {
                Some(e) => r matches Some(x) && x@ == e,
                None => r is None && final(f).matches(next),
            }
        }),
{
    if let Some((a, b)) = header_value(line, rest, "Rule: ") {
        f.name = Some(string_of_range(line, a, b));
        None
    } else if let Some((a, b)) = header_value(line, rest, "Severity: ") {
        match read_severity(line, a, b) {
            Some(s) => {
                f.severity = Some(s);
                None
            },
            None => Some(message_with("unknown severity: ", line, a, b)),
        }
    } else if let Some((a, b)) = header_value(line, rest, "Applies-to: ") {
        match read_applies_to(line, a, b) {
            Some(x) => {
                f.applies_to = Some(x);
                None
            },
            None => Some(message_with("unknown applies-to: ", line, a, b)),
        }
    } else if let Some((a, b)) = header_value(line, rest, "Message: ") {
        f.message = Some(string_of_range(line, a, b));
        None
    } else if let Some((a, b)) = header_value(line, rest, "Code: ") {
        f.code = Some(string_of_range(line, a, b));
        None
    } else {
        None
    }
}

/// Reads the header of a rule file and the text of its query.
pub fn parse_rule_header(src: &str) -> (r: Result<RuleHeader, String>)
    ensures
        match spec_rule_header(src@) {
            Ok(h) => r matches Ok(x) && x@ == h,
            Err(e) => r matches Err(x) && x@ == e,
        },
{
    let ls = split_lines(src);
    let ghost all = lines(src@);
    let p_comment_space = chars_of(";; ");
    let p_comment = chars_of(";;");
    let mut f = HeaderFields { name: None, severity: None, applies_to: None, message: None, code: None };
    let mut in_query = false;
    let mut query = String::new();
    let mut query_count: usize = 0;
    let ghost mut query_lines: Seq<Seq<char>> = seq![];
    let n = ls.len();
    for i in 0..n
        invariant
            all == lines(src@),
            n == all.len(),
            ls@.len() == all.len(),
            forall|k: int| 0 <= k < all.len() ==> #[trigger] ls@[k]@ == all[k],
            p_comment_space@ == ";; "@,
            p_comment@ == ";;"@,
            header_scan(all.take(i as int)).error is None,
            f.matches(header_scan(all.take(i as int))),
            header_scan(all.take(i as int)).in_query == in_query,
            header_scan(all.take(i as int)).query == query_lines,
            query@ == join_lines(query_lines),
            query_count == query_lines.len(),
            query_count <= i,
    {
        let line = ls[i].as_slice();
        let ghost st = header_scan(all.take(i as int));
        proof {
            assert(all.take(i + 1).drop_last() =~= all.take(i as int));
            assert(line@ == all[i as int]);
        }
        if in_query {
            push_line(&mut query, query_count, &ls[i], Ghost(query_lines));
            query_count = query_count + 1;
            proof {
                query_lines = query_lines.push(line@);
            }
        } else if has_prefix_at(line, 0, p_comment_space.as_slice()) {
            assert(line@.skip(0) =~= line@);
            let rest: usize = p_comment_space.len();
            if let Some(e) = read_header_field(&mut f, line, rest, Ghost(st)) {
                proof {
                    lemma_header_error_stays(all, i + 1);
                }
                return Err(e);
            }
        } else {
            assert(line@.skip(0) =~= line@);
            let (a, b) = trim_range(line, 0);
            if has_prefix_at(line, 0, p_comment.as_slice()) || a == b {
            } else {
                in_query = true;
                push_line(&mut query, query_count, &ls[i], Ghost(query_lines));
                query_count = query_count + 1;
                proof {
                    query_lines = query_lines.push(line@);
                }
            }
        }
    }
    assert(all.take(n as int) =~= all);
    match f {
        HeaderFields { name: None, .. } => Err(String::from_str("missing Rule: header")),
        HeaderFields { severity: None, .. } => Err(String::from_str("missing Severity: header")),
        HeaderFields { applies_to: None, .. } => Err(String::from_str("missing Applies-to: header")),
        HeaderFields { message: None, .. } => Err(String::from_str("missing Message: header")),
        HeaderFields {
            name: Some(name),
            severity: Some(severity),
            applies_to: Some(applies_to),
            message: Some(message),
            code,
        } => Ok(RuleHeader { name, severity, applies_to, message, code, query_source: query }),
    }
}

/// The rule a header describes, once its query has compiled for `grammar`.
pub open spec fn header_rule(h: RuleHeaderModel, grammar: Grammar) -> RuleModel {
    RuleModel {
        name: h.name,
        severity: h.severity,
        applies_to: h.applies_to,
        message: h.message,
        code: h.code,
        query_source: h.query_source,
        grammar,
    }
}

/// The value of a `QueryProblem`.
pub struct QueryProblemModel {
    pub row: usize,
    pub column: usize,
    pub message: Seq<char>,
    pub kind: QueryProblemKind,
}

impl View for QueryProblem {
    type V = QueryProblemModel;

    open spec fn view(&self) -> QueryProblemModel {
        QueryProblemModel { row: self.row, column: self.column, message: self.message@, kind: self.kind }
    }
}

/// The words tree-sitter puts before its message for each kind of query mistake.
pub open spec fn problem_kind_words(k: QueryProblemKind) -> Seq<char> {
    match k {
        QueryProblemKind::Field => "Invalid field name "@,
        QueryProblemKind::NodeType => "Invalid node type "@,
        QueryProblemKind::Capture => "Invalid capture name "@,
        QueryProblemKind::Predicate => "Invalid predicate: "@,
        QueryProblemKind::Structure => "Impossible pattern:\n"@,
        QueryProblemKind::Syntax => "Invalid syntax:\n"@,
        QueryProblemKind::Language => ""@,
    }
}

/// How tree-sitter describes a query problem (`QueryError`'s `Display`): the message alone
/// for a grammar mistake, else its one-based row and column, the kind's words and the
/// message.
pub open spec fn problem_text(p: QueryProblemModel) -> Seq<char> {
    if p.kind == QueryProblemKind::Language {
        p.message
    } else {
        "Query error at "@ + decimal((p.row + 1) as nat) + ":"@ + decimal((p.column + 1) as nat) + ". "@
            + problem_kind_words(p.kind) + p.message
    }
}

/// The words tree-sitter puts before its message for a kind of query mistake.
fn problem_kind_text(k: QueryProblemKind) -> (r: &'static str)
    ensures
        r@ == problem_kind_words(k),
{
    match k {
        QueryProblemKind::Field => "Invalid field name ",
        QueryProblemKind::NodeType => "Invalid node type ",
        QueryProblemKind::Capture => "Invalid capture name ",
        QueryProblemKind::Predicate => "Invalid predicate: ",
        QueryProblemKind::Structure => "Impossible pattern:\n",
        QueryProblemKind::Syntax => "Invalid syntax:\n",
        QueryProblemKind::Language => "",
    }
}

/// Describes a query problem as tree-sitter does.
pub fn describe_query_problem(p: &QueryProblem) -> (r: String)
    ensures
        r@ == problem_text(p@),
{
    if p.kind == QueryProblemKind::Language {
        return p.message.clone();
    }
    let mut r = String::from_str("Query error at ");
    push_decimal(&mut r, p.row as u128 + 1);
    r.append(":");
    push_decimal(&mut r, p.column as u128 + 1);
    r.append(". ");
    r.append(problem_kind_text(p.kind));
    r.append(p.message.as_str());
    r
}

/// The error reported when the query of rule `name` does not compile, with tree-sitter's
/// description `detail` of what is wrong.
pub open spec fn query_error_message(name: Seq<char>, detail: Seq<char>) -> Seq<char> {
    "query compile error in rule '"@ + name + "': "@ + detail
}

/// What `parse_rule_file` may return for `src` and `grammar`: the header's error when the
/// header is not valid; otherwise the rule the header describes, its query compiled from
/// the header's query text for `grammar`, or a query compile error that describes some
/// query problem.
pub open spec fn rule_file_outcome(src: Seq<char>, grammar: Grammar, r: Result<RuleModel, Seq<char>>) -> bool {
    match spec_rule_header(src) {
        Err(e) => r == Err::<RuleModel, Seq<char>>(e),
        Ok(h) => match r {
            Ok(rule) => rule == header_rule(h, grammar),
            Err(x) => exists|p: QueryProblemModel| x == query_error_message(h.name, #[trigger] problem_text(p)),
        },
    }
}

/// The value of a loading result.
pub open spec fn result_view(r: Result<Rule, String>) -> Result<RuleModel, Seq<char>> {
    match r {
        Ok(rule) => Ok(rule@),
        Err(e) => Err(e@),
    }
}

/// Loads a rule from the text of a rule file, compiling its query for the grammar
/// `grammar` of `languages`.
pub fn parse_rule_file(src: &str, languages: &Languages, grammar: Grammar) -> (r: Result<Rule, String>)
    ensures
        rule_file_outcome(src@, grammar, result_view(r)),
{
    let header = match parse_rule_header(src) {
        Ok(h) => h,
        Err(e) => return Err(e),
    };
    let compiled = match grammar {
        Grammar::Cypher => compile_cypher_query(languages, header.query_source.as_str()),
        Grammar::CypherDoc => compile_cypherdoc_query(languages, header.query_source.as_str()),
    };
    match compiled {
        Ok(query) => Ok(
            Rule {
                name: header.name,
                severity: header.severity,
                applies_to: header.applies_to,
                message: header.message,
                code: header.code,
                query,
            },
        ),
        Err(e) => {
            let problem = query_problem(e);
            let detail = describe_query_problem(&problem);
            let mut m = String::from_str("query compile error in rule '");
            m.append(header.name.as_str());
            m.append("': ");
            m.append(detail.as_str());
            assert(m@ == query_error_message(header.name@, problem_text(problem@)));
            Err(m)
        },
    }
}

/// The value of the first `;; Applies-to: ` header among `ls`, trimmed, or `structural`
/// when there is none.
pub open spec fn applies_to_value(ls: Seq<Seq<char>>) -> Seq<char>
    decreases ls.len(),
{
    if ls.len() == 0 {
        "structural"@
    } else if has_prefix(ls[0], ";; "@) && has_prefix(ls[0].skip(";; "@.len() as int), "Applies-to: "@) {
        trim(ls[0].skip(";; "@.len() as int).skip("Applies-to: "@.len() as int))
    } else {
        applies_to_value(ls.drop_first())
    }
}

/// The value of a rule file's `Applies-to` header, trimmed; `structural` when it has none.
/// Every line is looked at, the query's too.
pub fn applies_to_header(src: &str) -> (r: String)
    ensures
        r@ == applies_to_value(lines(src@)),
{
    let ls = split_lines(src);
    let ghost all = lines(src@);
    let p = chars_of(";; ");
    let n = ls.len();
    assert(all.skip(0) =~= all);
    for i in 0..n
        invariant
            all == lines(src@),
            n == all.len(),
            ls@.len() == all.len(),
            forall|k: int| 0 <= k < all.len() ==> #[trigger] ls@[k]@ == all[k],
            p@ == ";; "@,
            applies_to_value(all) == applies_to_value(all.skip(i as int)),
    {
        let line = ls[i].as_slice();
        proof {
            assert(line@ == all[i as int]);
            assert(all.skip(i as int)[0] == all[i as int]);
            assert(all.skip(i as int).drop_first() =~= all.skip(i + 1));
        }
        if has_prefix_at(line, 0, p.as_slice()) {
            assert(line@.skip(0) =~= line@);
            if let Some((a, b)) = header_value(line, p.len(), "Applies-to: ") {
                return string_of_range(line, a, b);
            }
        } else {
            assert(line@.skip(0) =~= line@);
        }
    }
    assert(all.skip(n as int) =~= Seq::<Seq<char>>::empty());
    String::from_str("structural")
}

/// The grammars rules are compiled for: Cypher, and the doc-comment language.
pub struct Languages {
    pub cypher: tree_sitter::Language,
    pub cypherdoc: tree_sitter::Language,
}

/// The grammar a rule file is compiled for: the doc-comment grammar when its
/// `Applies-to` header says `contract`, Cypher otherwise.
pub open spec fn rule_grammar(src: Seq<char>) -> Grammar {
    if applies_to_value(lines(src)) == "contract"@ {
        Grammar::CypherDoc
    } else {
        Grammar::Cypher
    }
}

/// Loads a rule from its text, for the grammar its `Applies-to` header names.
pub fn load_rule_source(src: &str, languages: &Languages) -> (r: Result<Rule, String>)
    ensures
        rule_file_outcome(src@, rule_grammar(src@), result_view(r)),
        r matches Ok(rule) ==> (applies_to_value(lines(src@)) == "contract"@ ==> rule@.grammar == Grammar::CypherDoc),
        r matches Ok(rule) ==> (applies_to_value(lines(src@)) != "contract"@ ==> rule@.grammar == Grammar::Cypher),
{
    let target = applies_to_header(src);
    let contract = chars_of("contract");
    let t = chars_of(target.as_str());
    let n = t.len();
    assert(t@.subrange(0, n as int) =~= t@);
    let grammar = if range_eq(t.as_slice(), 0, n, contract.as_slice()) {
        Grammar::CypherDoc
    } else {
        Grammar::Cypher
    };
    parse_rule_file(src, languages, grammar)
}

/// The rules among loading results, in order.
pub open spec fn loaded_rules(outs: Seq<Result<RuleModel, Seq<char>>>) -> Seq<RuleModel>
    decreases outs.len(),
{
    if outs.len() == 0 {
        seq![]
    } else {
        match outs.last() {
            Ok(r) => loaded_rules(outs.drop_last()).push(r),
            Err(_) => loaded_rules(outs.drop_last()),
        }
    }
}

/// The warnings for the loading errors among `outs`, in order, for rules of kind `label`.
pub open spec fn load_warnings(outs: Seq<Result<RuleModel, Seq<char>>>, label: Seq<char>) -> Seq<Seq<char>>
    decreases outs.len(),
{
    if outs.len() == 0 {
        seq![]
    } else {
        match outs.last() {
            Ok(_) => load_warnings(outs.drop_last(), label),
            Err(e) => load_warnings(outs.drop_last(), label).push(
                "warning: failed to load "@ + label + " rule: "@ + e,
            ),
        }
    }
}

/// `outs` are possible results of loading the rule files `srcs` for `grammar`, one for
/// each.
pub open spec fn load_outcomes(srcs: Seq<String>, grammar: Grammar, outs: Seq<Result<RuleModel, Seq<char>>>) -> bool {
    &&& outs.len() == srcs.len()
    &&& forall|i: int| 0 <= i < srcs.len() ==> rule_file_outcome(#[trigger] srcs[i]@, grammar, outs[i])
}

/// Loads each of `srcs` for the grammar `grammar`: the rules that load, and a warning for
/// each that does not.
fn load_group(srcs: &Vec<String>, languages: &Languages, grammar: Grammar, label: &str) -> (r: (Vec<Rule>, Vec<String>, Ghost<Seq<Result<RuleModel, Seq<char>>>>))
    ensures
        load_outcomes(srcs@, grammar, r.2@),
        rules_view(r.0@) == loaded_rules(r.2@),
        r.1@.map_values(|w: String| w@) == load_warnings(r.2@, label@),
{
    let mut rules: Vec<Rule> = Vec::new();
    let mut warnings: Vec<String> = Vec::new();
    let ghost mut outs: Seq<Result<RuleModel, Seq<char>>> = seq![];
    let n = srcs.len();
    for i in 0..n
        invariant
            n == srcs@.len(),
            outs.len() == i,
            forall|k: int| 0 <= k < i ==> rule_file_outcome(#[trigger] srcs@[k]@, grammar, outs[k]),
            rules_view(rules@) == loaded_rules(outs),
            warnings@.map_values(|w: String| w@) == load_warnings(outs, label@),
    {
        let r = parse_rule_file(srcs[i].as_str(), languages, grammar);
        let ghost o = result_view(r);
        proof {
            assert(outs.push(o).drop_last() =~= outs);
        }
        let ghost rules_before = rules@;
        let ghost warnings_before = warnings@;
        match r {
            Ok(rule) => {
                rules.push(rule);
                assert(rules_view(rules@) =~= rules_view(rules_before).push(rules@.last()@));
            },
            Err(e) => {
                let mut w = String::from_str("warning: failed to load ");
                w.append(label);
                w.append(" rule: ");
                w.append(e.as_str());
                warnings.push(w);
                assert(warnings@.map_values(|w: String| w@) =~= warnings_before.map_values(|w: String| w@).push(warnings@.last()@));
            },
        }
        proof {
            outs = outs.push(o);
        }
    }
    (rules, warnings, Ghost(outs))
}

/// The sources of the rules built into the linter, by where their queries run.
pub struct BuiltinRuleSources {
    /// Compiled for Cypher, run on the whole source.
    pub structural: Vec<String>,
    /// Compiled for the doc-comment language, run on doc comments.
    pub contract: Vec<String>,
    /// Cross-reference rules compiled for Cypher (they run on statements).
    pub cross_reference_cypher: Vec<String>,
    /// Cross-reference rules compiled for the doc-comment language.
    pub cross_reference_cypherdoc: Vec<String>,
}

/// Loads the built-in rules, group after group (structural, contract, cross-reference for
/// Cypher, cross-reference for doc comments), keeping the order within each group; a rule
/// that does not load is left out, with a warning that says why.
pub fn builtin_rules(languages: &Languages, sources: &BuiltinRuleSources) -> (r: (Vec<Rule>, Vec<String>))
    ensures
        exists|o1: Seq<Result<RuleModel, Seq<char>>>,
               o2: Seq<Result<RuleModel, Seq<char>>>,
               o3: Seq<Result<RuleModel, Seq<char>>>,
               o4: Seq<Result<RuleModel, Seq<char>>>|
        {
            &&& load_outcomes(sources.structural@, Grammar::Cypher, o1)
            &&& load_outcomes(sources.contract@, Grammar::CypherDoc, o2)
            &&& load_outcomes(sources.cross_reference_cypher@, Grammar::Cypher, o3)
            &&& load_outcomes(sources.cross_reference_cypherdoc@, Grammar::CypherDoc, o4)
            &&& rules_view(r.0@) == loaded_rules(o1) + loaded_rules(o2) + loaded_rules(o3) + loaded_rules(o4)
            &&& r.1@.map_values(|w: String| w@) == load_warnings(o1, "structural"@)
                + load_warnings(o2, "contract"@) + load_warnings(o3, "cross-reference"@)
                + load_warnings(o4, "cross-reference"@)
        },
{
    let (mut rules, mut warnings, Ghost(o1)) = load_group(&sources.structural, languages, Grammar::Cypher, "structural");
    let (r2, w2, Ghost(o2)) = load_group(&sources.contract, languages, Grammar::CypherDoc, "contract");
    let (r3, w3, Ghost(o3)) = load_group(&sources.cross_reference_cypher, languages, Grammar::Cypher, "cross-reference");
    let (r4, w4, Ghost(o4)) = load_group(&sources.cross_reference_cypherdoc, languages, Grammar::CypherDoc, "cross-reference");
    let ghost (rv1, wv1) = (rules_view(rules@), warnings@.map_values(|w: String| w@));
    let mut r2 = r2;
    let mut w2 = w2;
    let mut r3 = r3;
    let mut w3 = w3;
    let mut r4 = r4;
    let mut w4 = w4;
    rules.append(&mut r2);
    rules.append(&mut r3);
    rules.append(&mut r4);
    warnings.append(&mut w2);
    warnings.append(&mut w3);
    warnings.append(&mut w4);
    proof {
        assert(rules_view(rules@) =~= loaded_rules(o1) + loaded_rules(o2) + loaded_rules(o3) + loaded_rules(o4));
        assert(warnings@.map_values(|w: String| w@) =~= load_warnings(o1, "structural"@)
            + load_warnings(o2, "contract"@) + load_warnings(o3, "cross-reference"@)
            + load_warnings(o4, "cross-reference"@));
    }
    (rules, warnings)
}

/// Whether some rule of `rules` is named `name`.
pub open spec fn has_rule_named(rules: Seq<RuleModel>, name: Seq<char>) -> bool {
    exists|i: int| 0 <= i < rules.len() && #[trigger] rules[i].name == name
}

/// Whether `name` is among `names`.
pub open spec fn name_listed(names: Seq<Seq<char>>, name: Seq<char>) -> bool {
    exists|i: int| 0 <= i < names.len() && #[trigger] names[i] == name
}

/// The requested names that no rule has, in request order.
pub open spec fn unknown_rule_names(rules: Seq<RuleModel>, requested: Seq<Seq<char>>) -> Seq<Seq<char>>
    decreases requested.len(),
{
    if requested.len() == 0 {
        seq![]
    } else if has_rule_named(rules, requested.last()) {
        unknown_rule_names(rules, requested.drop_last())
    } else {
        unknown_rule_names(rules, requested.drop_last()).push(requested.last())
    }
}

/// The rules whose name was requested, in their own order.
pub open spec fn requested_rules(rules: Seq<RuleModel>, requested: Seq<Seq<char>>) -> Seq<RuleModel>
    decreases rules.len(),
{
    if rules.len() == 0 {
        seq![]
    } else if name_listed(requested, rules.last().name) {
        requested_rules(rules.drop_last(), requested).push(rules.last())
    } else {
        requested_rules(rules.drop_last(), requested)
    }
}

/// The characters of each string.
pub open spec fn strings_view(v: Seq<String>) -> Seq<Seq<char>> {
    v.map_values(|s: String| s@)
}

/// Whether some string of `names` equals `name`.
fn name_in(names: &Vec<String>, name: &String) -> (r: bool)
    ensures
        r == name_listed(strings_view(names@), name@),
{
    let n = names.len();
    for i in 0..n
        invariant
            n == names@.len(),
            forall|k: int| 0 <= k < i ==> names@[k]@ != name@,
    {
        if names[i] == *name {
            assert(strings_view(names@)[i as int] == name@);
            return true;
        }
    }
    proof {
        if name_listed(strings_view(names@), name@) {
            let k = choose|k: int| 0 <= k < names@.len() && #[trigger] strings_view(names@)[k] == name@;
            assert(names@[k]@ == name@);
        }
    }
    false
}

/// Whether some rule of `rules` is named `name`.
fn rule_named(rules: &Vec<Rule>, name: &String) -> (r: bool)
    ensures
        r == has_rule_named(rules_view(rules@), name@),
{
    let n = rules.len();
    for i in 0..n
        invariant
            n == rules@.len(),
            forall|k: int| 0 <= k < i ==> rules@[k].name@ != name@,
    {
        if rules[i].name == *name {
            assert(rules_view(rules@)[i as int].name == name@);
            return true;
        }
    }
    proof {
        if has_rule_named(rules_view(rules@), name@) {
            let k = choose|k: int| 0 <= k < rules@.len() && #[trigger] rules_view(rules@)[k].name == name@;
            assert(rules@[k].name@ == name@);
        }
    }
    false
}

/// Keeps the rules named in `requested` (all of them when `requested` is empty); fails with
/// the requested names that no rule has, if there are any.
pub fn select_rules(rules: Vec<Rule>, requested: &Vec<String>) -> (r: Result<Vec<Rule>, Vec<String>>)
    ensures
        requested@.len() == 0 ==> (r matches Ok(kept) && rules_view(kept@) == rules_view(rules@)),
        requested@.len() > 0 ==> {
            let unknown = unknown_rule_names(rules_view(rules@), strings_view(requested@));
            if unknown.len() > 0 {
                r matches Err(names) && strings_view(names@) == unknown
            } else {
                r matches Ok(kept) && rules_view(kept@) == requested_rules(rules_view(rules@), strings_view(requested@))
            }
        },
{
    if requested.len() == 0 {
        return Ok(rules);
    }
    let mut unknown: Vec<String> = Vec::new();
    let m = requested.len();
    for j in 0..m
        invariant
            m == requested@.len(),
            strings_view(unknown@) == unknown_rule_names(rules_view(rules@), strings_view(requested@).take(j as int)),
    {
        let ghost before = unknown@;
        proof {
            assert(strings_view(requested@).take(j + 1).drop_last() =~= strings_view(requested@).take(j as int));
            assert(strings_view(requested@).take(j + 1).last() == requested@[j as int]@);
        }
        if !rule_named(&rules, &requested[j]) {
            unknown.push(requested[j].clone());
            assert(strings_view(unknown@) =~= strings_view(before).push(requested@[j as int]@));
        }
    }
    assert(strings_view(requested@).take(m as int) =~= strings_view(requested@));
    if unknown.len() > 0 {
        return Err(unknown);
    }
    let ghost all = rules_view(rules@);
    let mut rest = rules;
    let mut kept: Vec<Rule> = Vec::new();
    let ghost mut taken: int = 0;
    while rest.len() > 0
        invariant
            0 <= taken <= all.len(),
            rules_view(rest@) == all.skip(taken),
            rules_view(kept@) == requested_rules(all.take(taken), strings_view(requested@)),
        decreases rest@.len(),
    {
        let ghost rest_before = rest@;
        let ghost kept_before = kept@;
        let r = rest.remove(0);
        proof {
            assert(rules_view(rest_before).len() == rest_before.len());
            assert(taken < all.len());
            assert(rules_view(rest_before)[0] == r@);
            assert(all.skip(taken)[0] == all[taken]);
            assert(all.take(taken + 1).drop_last() =~= all.take(taken));
            assert(all.take(taken + 1).last() == all[taken]);
            assert(rest@ =~= rest_before.subrange(1, rest_before.len() as int));
            assert forall|k: int| 0 <= k < rest@.len() implies #[trigger] rules_view(rest@)[k] == all.skip(taken + 1)[k] by {
                assert(rules_view(rest_before)[k + 1] == rest_before[k + 1]@);
            }
            assert(rules_view(rest@) =~= all.skip(taken + 1));
        }
        if name_in(requested, &r.name) {
            kept.push(r);
            assert(rules_view(kept@) =~= rules_view(kept_before).push(kept@.last()@));
        }
        proof {
            taken = taken + 1;
        }
    }
    assert(all.take(taken) =~= all);
    Ok(kept)
}

/// Whether a rule's name is among `requested`.
pub open spec fn name_requested(requested: Seq<Seq<char>>) -> spec_fn(RuleModel) -> bool {
    |r: RuleModel| requested.contains(r.name)
}

/// Running only the requested rules keeps exactly the rules whose name is requested: every
/// kept rule is one of `rules` and its name is requested, every rule of `rules` whose name
/// is requested is kept; they are `rules` filtered by whether the name is requested, so they
/// keep their order.
pub proof fn lemma_requested_rules_exact(rules: Seq<RuleModel>, requested: Seq<Seq<char>>)
    ensures
        forall|k: int|
            0 <= k < requested_rules(rules, requested).len() ==> requested.contains(
                (#[trigger] requested_rules(rules, requested)[k]).name,
            ) && rules.contains(requested_rules(rules, requested)[k]),
        forall|i: int| 0 <= i < rules.len() && requested.contains((#[trigger] rules[i]).name) ==> requested_rules(rules, requested).contains(rules[i]),
        requested_rules(rules, requested) == rules.filter(name_requested(requested)),
    decreases rules.len(),
{
    if rules.len() > 0 {
        let init = rules.drop_last();
        lemma_requested_rules_exact(init, requested);
        let last = rules.last();
        let kept = requested_rules(rules, requested);
        let prev = requested_rules(init, requested);
        assert(name_listed(requested, last.name) == requested.contains(last.name));
        reveal(Seq::filter);
        assert(rules.filter(name_requested(requested)) == if name_requested(requested)(last) {
            init.filter(name_requested(requested)).push(last)
        } else {
            init.filter(name_requested(requested))
        });
        assert forall|k: int| 0 <= k < kept.len() implies requested.contains((#[trigger] kept[k]).name) && rules.contains(kept[k]) by {
            if k < prev.len() {
                assert(kept[k] == prev[k]);
                let j = choose|j: int| 0 <= j < init.len() && init[j] == prev[k];
                assert(rules[j] == init[j]);
            } else {
                assert(kept[k] == last);
                assert(rules[rules.len() - 1] == last);
            }
        }
        assert forall|i: int| 0 <= i < rules.len() && requested.contains((#[trigger] rules[i]).name) implies kept.contains(rules[i]) by {
            if i < init.len() {
                assert(init[i] == rules[i]);
                let j = choose|j: int| 0 <= j < prev.len() && prev[j] == rules[i];
                assert(kept[j] == prev[j]);
            } else {
                assert(rules[i] == last);
                assert(kept[kept.len() - 1] == last);
            }
        }
    }
}

} // verus!
