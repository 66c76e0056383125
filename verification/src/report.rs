//! What a run reports: its exit status, the machine-readable result, and where and under
//! which code a printed report shows each diagnostic.

use vstd::prelude::*;

use crate::diagnostics::{diags_view, opt_view, Diagnostic, FileResult, LintResult, Range, Severity};
use crate::lint::SourceResult;
use crate::position::{byte_to_char, chars_within, line_col_to_byte, spec_line_col_to_byte};

verus! {

/// Some diagnostic of some result has severity `sev`.
pub open spec fn any_severity(results: Seq<SourceResult>, sev: Severity) -> bool {
    exists|i: int, j: int|
        0 <= i < results.len() && 0 <= j < results[i].diags@.len() && #[trigger] results[i].diags@[j].severity == sev
}

/// The exit status of a run: 1 when some diagnostic is an error, or, with `strict`, a
/// warning; 0 otherwise.
pub open spec fn spec_exit_code(results: Seq<SourceResult>, strict: bool) -> i32 {
    if any_severity(results, Severity::Error) || (strict && any_severity(results, Severity::Warning)) {
        1
    } else {
        0
    }
}

/// A run fails when some diagnostic is an error; with `strict` it fails on a warning too;
/// otherwise, warnings, information and hints alone let it pass.
pub proof fn lemma_exit_code_cases(results: Seq<SourceResult>, strict: bool)
    ensures
        forall|i: int, j: int|
            0 <= i < results.len() && 0 <= j < results[i].diags@.len()
                && #[trigger] results[i].diags@[j].severity == Severity::Error ==> spec_exit_code(results, strict) == 1,
        forall|i: int, j: int|
            strict && 0 <= i < results.len() && 0 <= j < results[i].diags@.len()
                && #[trigger] results[i].diags@[j].severity == Severity::Warning ==> spec_exit_code(results, strict) == 1,
        !any_severity(results, Severity::Error) && !strict ==> spec_exit_code(results, strict) == 0,
{
}

/// Whether some diagnostic of `results` has severity `sev`.
fn has_severity(results: &Vec<SourceResult>, sev: Severity) -> (r: bool)
    ensures
        r == any_severity(results@, sev),
{
    let n = results.len();
    for i in 0..n
        invariant
            n == results@.len(),
            forall|a: int, b: int|
                0 <= a < i && 0 <= b < results@[a].diags@.len() ==> #[trigger] results@[a].diags@[b].severity != sev,
    {
        let m = results[i].diags.len();
        for j in 0..m
            invariant
                n == results@.len(),
                i < n,
                m == results@[i as int].diags@.len(),
                forall|a: int, b: int|
                    0 <= a < i && 0 <= b < results@[a].diags@.len() ==> #[trigger] results@[a].diags@[b].severity != sev,
                forall|b: int| 0 <= b < j ==> #[trigger] results@[i as int].diags@[b].severity != sev,
        {
            if results[i].diags[j].severity == sev {
                return true;
            }
        }
    }
    false
}

/// The exit status of a run that produced `results`.
pub fn exit_code(results: &Vec<SourceResult>, strict: bool) -> (c: i32)
    ensures
        c == spec_exit_code(results@, strict),
{
    if has_severity(results, Severity::Error) || (strict && has_severity(results, Severity::Warning)) {
        1
    } else {
        0
    }
}

/// The machine-readable report of `results`, made by the tool at version `version`.
pub fn lint_result(results: Vec<SourceResult>, version: &str) -> (r: LintResult)
    ensures
        r.schema_version == 1,
        r.tool@ == "cypher/"@ + version@,
        r.files@.len() == results@.len(),
        forall|i: int|
            0 <= i < results@.len() ==> {
                &&& (#[trigger] r.files@[i]).path@ == results@[i].path@
                &&& diags_view(r.files@[i].diagnostics@) == diags_view(results@[i].diags@)
            },
{
    let mut tool = String::from_str("cypher/");
    tool.append(version);
    let mut files: Vec<FileResult> = Vec::new();
    let mut rest = results;
    let ghost all = rest@;
    let ghost n = all.len();
    while rest.len() > 0
        invariant
            rest@.len() <= n,
            n == all.len(),
            files@.len() + rest@.len() == n,
            forall|k: int| 0 <= k < rest@.len() ==> #[trigger] rest@[k] == all[files@.len() + k],
            forall|i: int|
                0 <= i < files@.len() ==> {
                    &&& (#[trigger] files@[i]).path@ == all[i].path@
                    &&& diags_view(files@[i].diagnostics@) == diags_view(all[i].diags@)
                },
        decreases rest@.len(),
    {
        let ghost old_rest = rest@;
        let ghost k = files@.len();
        let res = rest.remove(0);
        assert(res == all[k as int]);
        assert forall|j: int| 0 <= j < rest@.len() implies #[trigger] rest@[j] == all[files@.len() + 1 + j] by {
            assert(rest@[j] == old_rest[j + 1]);
        }
        files.push(FileResult { path: res.path, diagnostics: res.diags });
    }
    LintResult { schema_version: 1, tool, files }
}

/// The larger of two integers.
pub open spec fn max_int(a: int, b: int) -> int {
    if a >= b {
        a
    } else {
        b
    }
}

/// `n + 1`, kept at `usize::MAX`.
pub open spec fn succ_capped(n: int) -> int {
    if n < usize::MAX {
        n + 1
    } else {
        n
    }
}

/// The character range a report underlines for `range` in `src`: its ends turned into
/// byte offsets and then into character counts, each end at least one past the start.
pub open spec fn spec_report_span(src: Seq<char>, range: Range) -> (int, int) {
    let sb = spec_line_col_to_byte(src, range.start.line as nat, range.start.character as nat) as int;
    let eb = max_int(spec_line_col_to_byte(src, range.end.line as nat, range.end.character as nat) as int, succ_capped(sb));
    let sc = chars_within(src, sb) as int;
    let ec = max_int(chars_within(src, eb) as int, succ_capped(sc));
    (sc, ec)
}

/// `n + 1`, kept at `usize::MAX`.
fn succ_capped_exec(n: usize) -> (r: usize)
    ensures
        r == succ_capped(n as int),
{
    if n < usize::MAX {
        n + 1
    } else {
        n
    }
}

/// The character range a report of a diagnostic over `range` of `source` underlines.
pub fn report_span(source: &str, range: &Range) -> (r: (usize, usize))
    ensures
        r.0 == spec_report_span(source@, *range).0,
        r.1 == spec_report_span(source@, *range).1,
{
    let start_byte = line_col_to_byte(source, range.start.line as usize, range.start.character as usize);
    let end_byte = line_col_to_byte(source, range.end.line as usize, range.end.character as usize);
    let floor = succ_capped_exec(start_byte);
    let end_byte = if end_byte >= floor { end_byte } else { floor };
    let start_char = byte_to_char(source, start_byte);
    let end_char = byte_to_char(source, end_byte);
    let floor = succ_capped_exec(start_char);
    let end_char = if end_char >= floor { end_char } else { floor };
    (start_char, end_char)
}

/// The code a report shows for a diagnostic: its rule's name, followed by a slash and the
/// diagnostic's code when it has one.
pub open spec fn spec_report_code(rule: Seq<char>, code: Option<Seq<char>>) -> Seq<char> {
    match code {
        Some(c) => rule + "/"@ + c,
        None => rule,
    }
}

/// The code a report shows for `d`.
pub fn report_code(d: &Diagnostic) -> (r: String)
    ensures
        r@ == spec_report_code(d.rule@, opt_view(d.code)),
{
    let mut r = d.rule.clone();
    match &d.code {
        Some(c) => {
            r.append("/");
            r.append(c.as_str());
        },
        None => {},
    }
    r
}

} // verus!
