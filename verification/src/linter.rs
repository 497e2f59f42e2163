//! The per-file report: the checker's diagnostics aggregated with a
//! pass/fail verdict.  A file passes exactly when no diagnostic carries
//! severity `Error`; every other severity, `Off` included, never blocks.
use vstd::prelude::*;
use crate::config;
use crate::config::{Config, Severity};
use crate::rules;
use crate::rules::{Diag, LintResult, RuleChecker};
use crate::text;

verus! {

/// The unit handed to every downstream consumer: one file's diagnostics
/// in rule order and the aggregate verdict.
#[derive(Debug)]
pub struct LintReport {
    pub file: String,
    pub results: Vec<LintResult>,
    pub passed: bool,
}

/// A report reduced to its messages, for validation output.
#[derive(Debug)]
pub struct ValidationResult {
    pub file: String,
    pub valid: bool,
    pub errors: Vec<String>,
    pub warnings: Vec<String>,
}

pub open spec fn any_error(ds: Seq<Diag>) -> bool {
    exists|i: int| 0 <= i < ds.len() && (#[trigger] ds[i]).severity == Severity::Error
}

pub open spec fn error_messages(ds: Seq<Diag>) -> Seq<Seq<char>>
    decreases ds.len(),
{
    if ds.len() == 0 {
        Seq::empty()
    } else {
        error_messages(ds.drop_last()) + (if ds.last().severity == Severity::Error {
            seq![ds.last().message]
        } else {
            Seq::empty()
        })
    }
}

pub open spec fn warning_messages(ds: Seq<Diag>) -> Seq<Seq<char>>
    decreases ds.len(),
{
    if ds.len() == 0 {
        Seq::empty()
    } else {
        warning_messages(ds.drop_last()) + (if ds.last().severity == Severity::Warning {
            seq![ds.last().message]
        } else {
            Seq::empty()
        })
    }
}

fn has_error(results: &Vec<LintResult>) -> (r: bool)
    ensures
        r == any_error(rules::abs_seq(results@)),
{
    let ghost ds = rules::abs_seq(results@);
    let mut i: usize = 0;
    while i < results.len()
        invariant
            0 <= i <= results@.len(),
            ds == rules::abs_seq(results@),
            ds.len() == results@.len(),
            forall|j: int| 0 <= j < i ==> (#[trigger] ds[j]).severity != Severity::Error,
        decreases results@.len() - i,
    {
        if results[i].is_error() {
            proof {
                assert(ds[i as int].severity == Severity::Error);
            }
            return true;
        }
        i += 1;
    }
    proof {
        if any_error(ds) {
            let w = choose|w: int|
                0 <= w < ds.len() && (#[trigger] ds[w]).severity == Severity::Error;
        }
    }
    false
}

/// Reduces a report to its verdict and its error and warning messages,
/// in diagnostic order.
pub fn validate_report(report: &LintReport) -> (v: ValidationResult)
    ensures
        v.file@ == report.file@,
        v.valid == report.passed,
        config::str_views(v.errors@) == error_messages(rules::abs_seq(report.results@)),
        config::str_views(v.warnings@) == warning_messages(rules::abs_seq(report.results@)),
{
    let ghost ds = rules::abs_seq(report.results@);
    let mut errors: Vec<String> = Vec::new();
    let mut warnings: Vec<String> = Vec::new();
    let mut i: usize = 0;
    proof {
        assert(config::str_views(errors@) =~= error_messages(ds.take(0)));
        assert(config::str_views(warnings@) =~= warning_messages(ds.take(0)));
    }
    while i < report.results.len()
        invariant
            0 <= i <= report.results@.len(),
            ds == rules::abs_seq(report.results@),
            ds.len() == report.results@.len(),
            config::str_views(errors@) == error_messages(ds.take(i as int)),
            config::str_views(warnings@) == warning_messages(ds.take(i as int)),
        decreases report.results@.len() - i,
    {
        proof {
            assert(ds.take(i + 1).drop_last() =~= ds.take(i as int));
            assert(ds.take(i + 1).last() == ds[i as int]);
            assert(ds[i as int] == report.results@[i as int].abs());
        }
        let r = &report.results[i];
        if r.is_error() {
            errors.push(r.message.clone());
            proof {
                assert(config::str_views(errors@) =~= error_messages(ds.take(i + 1)));
                assert(config::str_views(warnings@) =~= warning_messages(ds.take(i + 1)));
            }
        } else if r.is_warning() {
            warnings.push(r.message.clone());
            proof {
                assert(config::str_views(errors@) =~= error_messages(ds.take(i + 1)));
                assert(config::str_views(warnings@) =~= warning_messages(ds.take(i + 1)));
            }
        } else {
            proof {
                assert(config::str_views(errors@) =~= error_messages(ds.take(i + 1)));
                assert(config::str_views(warnings@) =~= warning_messages(ds.take(i + 1)));
            }
        }
        i += 1;
    }
    proof {
        assert(ds.take(ds.len() as int) =~= ds);
    }
    ValidationResult {
        file: report.file.clone(),
        valid: report.passed,
        errors,
        warnings,
    }
}

/// The linter: a rule checker plus the aggregation into reports.
pub struct YamlLinter {
    pub checker: RuleChecker,
}

impl YamlLinter {
    pub fn new(config: Config) -> (r: YamlLinter)
        ensures
            r.checker.config == config,
    {
        YamlLinter { checker: RuleChecker::new(config) }
    }

    /// Checks one document and aggregates the outcome: the report passes
    /// exactly when no diagnostic is an error.
    pub fn lint_content(&self, content: &str, path: &str) -> (rep: LintReport)
        requires
            self.checker.config.wf(),
        ensures
            rep.file@ == path@,
            rules::check_outcome(
                self.checker.config,
                content@,
                path@,
                rules::abs_seq(rep.results@),
            ),
            rep.passed == !any_error(rules::abs_seq(rep.results@)),
    {
        let results = self.checker.check_file(content, path);
        let passed = !has_error(&results);
        LintReport { file: String::from_str(path), results, passed }
    }

    /// Checks one document and reduces the report to a validation
    /// result: the verdict plus the error and warning messages.
    pub fn validate_file(&self, content: &str, path: &str) -> (v: ValidationResult)
        requires
            self.checker.config.wf(),
        ensures
            v.file@ == path@,
            exists|ds: Seq<Diag>|
                {
                    &&& #[trigger] rules::check_outcome(self.checker.config, content@, path@, ds)
                    &&& v.valid == !any_error(ds)
                    &&& config::str_views(v.errors@) == error_messages(ds)
                    &&& config::str_views(v.warnings@) == warning_messages(ds)
                },
    {
        let report = self.lint_content(content, path);
        let v = validate_report(&report);
        proof {
            let ds = rules::abs_seq(report.results@);
            assert(rules::check_outcome(self.checker.config, content@, path@, ds));
        }
        v
    }
}

} // verus!
