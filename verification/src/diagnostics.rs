//! Diagnostics in the shape of the Language Server Protocol: a severity, the rule that
//! raised it, a message and the range of text it is about.

use vstd::prelude::*;

verus! {

/// How serious a diagnostic is.
#[derive(Debug, Clone, Copy, PartialEq, Eq, Structural)]
pub enum Severity {
    Error,
    Warning,
    Information,
    Hint,
}

/// A zero-based line and a UTF-16 code-unit column.
#[derive(Debug, Clone, Copy, PartialEq, Eq, Structural)]
pub struct Position {
    pub line: u32,
    pub character: u32,
}

/// The span of text between two positions.
#[derive(Debug, Clone, Copy, PartialEq, Eq, Structural)]
pub struct Range {
    pub start: Position,
    pub end: Position,
}

/// One finding of the linter.
#[derive(Debug)]
pub struct Diagnostic {
    pub severity: Severity,
    /// The name of the rule that raised it.
    pub rule: String,
    pub message: String,
    pub range: Range,
    /// An optional code that classifies the finding.
    pub code: Option<String>,
}

/// The value of a `Diagnostic`.
pub struct DiagnosticModel {
    pub severity: Severity,
    pub rule: Seq<char>,
    pub message: Seq<char>,
    pub range: Range,
    pub code: Option<Seq<char>>,
}

/// The characters of an optional string.
pub open spec fn opt_view(o: Option<String>) -> Option<Seq<char>> {
    match o {
        Some(s) => Some(s@),
        None => None,
    }
}

impl View for Diagnostic {
    type V = DiagnosticModel;

    open spec fn view(&self) -> DiagnosticModel {
        DiagnosticModel {
            severity: self.severity,
            rule: self.rule@,
            message: self.message@,
            range: self.range,
            code: opt_view(self.code),
        }
    }
}

/// The values of a list of diagnostics.
pub open spec fn diags_view(ds: Seq<Diagnostic>) -> Seq<DiagnosticModel> {
    ds.map_values(|d: Diagnostic| d@)
}

/// The diagnostics of one file.
#[derive(Debug)]
pub struct FileResult {
    pub path: String,
    pub diagnostics: Vec<Diagnostic>,
}

/// Everything the linter found, in its machine-readable form.
#[derive(Debug)]
pub struct LintResult {
    pub schema_version: u32,
    pub tool: String,
    pub files: Vec<FileResult>,
}

/// A copy of an optional string.
pub fn clone_opt_string(o: &Option<String>) -> (r: Option<String>)
    ensures
        opt_view(r) == opt_view(*o),
{
    match o {
        Some(s) => Some(s.clone()),
        None => None,
    }
}

} // verus!
