//! Diagnostics: what is wrong, or suspicious, in a program.
use crate::dsl::ast::{PolydatFile, Span, StatementV};
use crate::dsl::compile;
use crate::dsl::compiler::{Compiler, CompilerV, Toolbox};
use crate::dsl::template;
use vstd::prelude::*;

verus! {

/// How bad a finding is.
#[derive(Clone, Copy, Debug, PartialEq, Eq, Structural)]
pub enum Severity {
    /// The program cannot be lowered.
    Error,
    /// The program can be lowered, but may not be what was meant.
    Warning,
}

/// A finding.
#[derive(Debug, PartialEq)]
pub struct Diagnostic {
    pub severity: Severity,
    pub span: Span,
    pub message: String,
    /// What may help.
    pub hint: Option<String>,
}

/// The content of a finding.
#[verifier::ext_equal]
pub struct DiagnosticV {
    pub severity: Severity,
    pub span: Span,
    pub message: Seq<char>,
    pub hint: Option<Seq<char>>,
}

impl View for Diagnostic {
    type V = DiagnosticV;

    open spec fn view(&self) -> DiagnosticV {
        DiagnosticV {
            severity: self.severity,
            span: self.span,
            message: self.message@,
            hint: template::maybe(self.hint),
        }
    }
}

/// The contents of a run of findings.
pub open spec fn diagnostic_views(s: Seq<Diagnostic>) -> Seq<DiagnosticV> {
    Seq::new(s.len(), |i: int| s[i]@)
}

/// The findings on a program, in order.
#[derive(Debug, PartialEq)]
pub struct DiagnosticReport {
    pub source: String,
    pub findings: Vec<Diagnostic>,
}

/// Whether a run of findings holds an error.
pub open spec fn faulty(s: Seq<DiagnosticV>) -> bool {
    exists|i: int| 0 <= i < s.len() && (#[trigger] s[i]).severity == Severity::Error
}

/// An error at a place.
pub open spec fn error_at(span: Span, message: Seq<char>) -> DiagnosticV {
    DiagnosticV { severity: Severity::Error, span, message, hint: None }
}

/// The first character of a program.
pub open spec fn start() -> Span {
    Span { line: 1, col: 1 }
}

impl DiagnosticReport {
    /// The findings.
    pub open spec fn all(self) -> Seq<DiagnosticV> {
        diagnostic_views(self.findings@)
    }

    /// A report without findings.
    pub fn new(source: &str) -> (r: DiagnosticReport)
        ensures
            r.source@ == source@,
            r.all() == Seq::<DiagnosticV>::empty(),
    {
        let r: DiagnosticReport = DiagnosticReport {
            source: source.to_owned(),
            findings: Vec::new(),
        };
        assert(r.all() =~= Seq::<DiagnosticV>::empty());
        r
    }

    /// Adds an error.
    pub fn error(&mut self, span: Span, message: String)
        ensures
            final(self).source@ == old(self).source@,
            final(self).all() == old(self).all().push(error_at(span, message@)),
    {
        let ghost before = self.all();
        let ghost shown = error_at(span, message@);
        self.findings.push(
            Diagnostic { severity: Severity::Error, span, message, hint: None },
        );
        assert(self.all() =~= before.push(shown));
    }

    /// Whether there is an error.
    pub fn has_errors(&self) -> (r: bool)
        ensures
            r == faulty(self.all()),
    {
        let mut i: usize = 0;
        while i < self.findings.len()
            invariant
                i <= self.findings@.len(),
                forall|k: int|
                    0 <= k < i ==> (#[trigger] self.findings@[k]).severity != Severity::Error,
            decreases self.findings.len() - i,
        {
            if self.findings[i].severity == Severity::Error {
                assert(self.all()[i as int].severity == Severity::Error);
                return true;
            }
            i = i + 1;
        }
        assert forall|k: int| 0 <= k < self.all().len() implies self.all()[k].severity
            != Severity::Error by {
            assert(self.findings@[k].severity != Severity::Error);
        }
        false
    }

    /// The findings of a severity, in order.
    fn of_severity(&self, severity: Severity) -> (r: Vec<&Diagnostic>)
        ensures
            Seq::new(r@.len(), |i: int| r@[i]@) == self.all().filter(
                |d: DiagnosticV| d.severity == severity,
            ),
    {
        let ghost all = self.all();
        let ghost keep = |d: DiagnosticV| d.severity == severity;
        let mut out: Vec<&Diagnostic> = Vec::new();
        let mut i: usize = 0;
        proof {
            reveal(Seq::filter);
            assert(Seq::new(out@.len(), |k: int| out@[k]@) =~= all.take(0).filter(keep));
        }
        while i < self.findings.len()
            invariant
                i <= self.findings@.len(),
                all == self.all(),
                keep == |d: DiagnosticV| d.severity == severity,
                Seq::new(out@.len(), |k: int| out@[k]@) == all.take(i as int).filter(keep),
            decreases self.findings.len() - i,
        {
            let ghost before = Seq::new(out@.len(), |k: int| out@[k]@);
            proof {
                reveal(Seq::filter);
                assert(all.take(i + 1).drop_last() =~= all.take(i as int));
                assert(all.take(i + 1).last() == self.findings@[i as int]@);
            }
            if self.findings[i].severity == severity {
                out.push(&self.findings[i]);
                assert(Seq::new(out@.len(), |k: int| out@[k]@) =~= before.push(all[i as int]));
            }
            i = i + 1;
        }
        assert(all.take(i as int) =~= all);
        out
    }

    /// The errors, in order.
    pub fn errors(&self) -> (r: Vec<&Diagnostic>)
        ensures
            Seq::new(r@.len(), |i: int| r@[i]@) == self.all().filter(
                |d: DiagnosticV| d.severity == Severity::Error,
            ),
    {
        self.of_severity(Severity::Error)
    }

    /// The warnings, in order.
    pub fn warnings(&self) -> (r: Vec<&Diagnostic>)
        ensures
            Seq::new(r@.len(), |i: int| r@[i]@) == self.all().filter(
                |d: DiagnosticV| d.severity == Severity::Warning,
            ),
    {
        self.of_severity(Severity::Warning)
    }
}

/// What lowering with diagnostics comes to: the state where the program
/// could be lowered, and every finding.
pub open spec fn checked<T: Toolbox>(
    t: T,
    parsed: Result<Seq<StatementV>, Seq<char>>,
    findings: Seq<DiagnosticV>,
) -> (Option<CompilerV>, Seq<DiagnosticV>) {
    match parsed {
        Err(e) => (None, seq![error_at(start(), e)]),
        Ok(stmts) => if faulty(findings) {
            (None, findings)
        } else {
            match compile::outcome(compile::compiled(t, compile::fresh(false), stmts)) {
                Ok(c) => (Some(c), findings),
                Err(e) => (None, findings.push(error_at(start(), e))),
            }
        },
    }
}

/// Lowers a program with diagnostics. `parsed` is what the source was read
/// to, or why it could not be; `findings` is what a look at the program
/// brought up. A program with an error among them is not lowered.
pub fn compile_polydat_checked<T: Toolbox>(
    tools: &T,
    source: &str,
    parsed: Result<PolydatFile, String>,
    findings: Vec<Diagnostic>,
) -> (r: (Result<Compiler, ()>, DiagnosticReport))
    requires
        compile::readable(parsed),
    ensures
        r.1.source@ == source@,
        (
            match r.0 {
                Ok(c) => Some(c@),
                Err(_) => None,
            },
            r.1.all(),
        ) == checked(
            *tools,
            match parsed {
                Ok(f) => Ok(f@),
                Err(e) => Err(e@),
            },
            diagnostic_views(findings@),
        ),
{
    let mut report: DiagnosticReport = DiagnosticReport::new(source);
    let file: PolydatFile = match parsed {
        Err(e) => {
            report.error(Span { line: 1, col: 1 }, e);
            assert(report.all() =~= seq![error_at(start(), e@)]);
            return (Err(()), report);
        },
        Ok(f) => f,
    };
    report.findings = findings;
    if report.has_errors() {
        return (Err(()), report);
    }
    match compile::compile_ast(tools, &file) {
        Ok(c) => (Ok(c), report),
        Err(e) => {
            report.error(Span { line: 1, col: 1 }, e);
            (Err(()), report)
        },
    }
}

} // verus!
