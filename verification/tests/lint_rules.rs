use yamllint::config::{Config, Severity};
use yamllint::linter::YamlLinter;
use yamllint::rules::RuleChecker;

fn checker() -> RuleChecker {
    RuleChecker::new(Config::default())
}

#[test]
fn syntax_error_yields_single_diagnostic() {
    let c = checker();
    // two plain scalar lines cannot form a document in the block subset
    let results = c.check_file("hello\nworld\n", "a.yaml");
    assert_eq!(results.len(), 1);
    assert_eq!(results[0].rule, "syntax");
    assert!(matches!(results[0].severity, Severity::Error));
    assert_eq!(results[0].line, 1);
    assert_eq!(results[0].column, 1);
    assert_eq!(results[0].snippet, "hello");
    assert!(results[0].message.starts_with("Syntax error: "));
}

#[test]
fn syntax_error_on_tab_indentation() {
    let c = checker();
    let results = c.check_file("key:\n\tvalue: 1\n", "a.yaml");
    assert_eq!(results.len(), 1);
    assert_eq!(results[0].rule, "syntax");
    assert!(results[0].message.contains("tab character in indentation"));
    assert!(results[0].message.contains("at line 2"));
}

#[test]
fn valid_document_has_no_syntax_diagnostic() {
    let c = checker();
    let results = c.check_file("key: value\n", "a.yaml");
    assert!(results.iter().all(|r| r.rule != "syntax"));
    assert!(results.is_empty());
}

#[test]
fn indentation_flags_odd_indent() {
    let c = checker();
    let results = c.check_indentation("key:\n   bad: 1\n", "a.yaml");
    assert_eq!(results.len(), 1);
    assert_eq!(results[0].rule, "indentation");
    assert!(matches!(results[0].severity, Severity::Error));
    assert_eq!(results[0].line, 2);
    assert_eq!(results[0].column, 1);
    assert_eq!(results[0].message, "Indentation should be multiples of 2 spaces");
    assert_eq!(results[0].snippet, "   bad: 1");
}

#[test]
fn indentation_accepts_multiples_and_skips_tabs() {
    let c = checker();
    // two-space indent passes; a tab-opened line is not evaluated
    let results = c.check_indentation("key:\n  ok: 1\n\tweird\n", "a.yaml");
    assert!(results.is_empty());
}

#[test]
fn indentation_unit_one_never_flags() {
    let mut cfg = Config::default();
    cfg.rules.indentation.spaces = 1;
    let c = RuleChecker::new(cfg);
    let results = c.check_indentation(" a\n   b\n     c\n", "a.yaml");
    assert!(results.is_empty());
}

#[test]
fn trailing_spaces_flagged_with_severity() {
    let c = checker();
    let results = c.check_trailing_spaces("clean\ndirty \ntabbed\t\n", "a.yaml");
    assert_eq!(results.len(), 2);
    assert_eq!(results[0].line, 2);
    assert_eq!(results[0].column, 6);
    assert!(matches!(results[0].severity, Severity::Error));
    assert_eq!(results[0].rule, "trailing-spaces");
    assert_eq!(results[0].message, "Trailing spaces are not allowed");
    assert_eq!(results[1].line, 3);
}

#[test]
fn trailing_detection_independent_of_severity() {
    let mut cfg = Config::default();
    cfg.rules.trailing_spaces.level = Severity::Off;
    let c = RuleChecker::new(cfg);
    let results = c.check_trailing_spaces("dirty \n", "a.yaml");
    assert_eq!(results.len(), 1);
    assert!(matches!(results[0].severity, Severity::Off));
}

#[test]
fn line_length_boundary_at_120() {
    let c = checker();
    let exact: String = "x".repeat(120);
    let over: String = "x".repeat(121);
    assert!(c.check_line_length(&exact, "a.yaml").is_empty());
    let results = c.check_line_length(&over, "a.yaml");
    assert_eq!(results.len(), 1);
    assert_eq!(results[0].rule, "line-length");
    assert!(matches!(results[0].severity, Severity::Warning));
    assert_eq!(results[0].column, 121);
    assert_eq!(results[0].message, "Line too long (121 > 120)");
}

#[test]
fn line_length_boundary_at_zero_and_one() {
    let mut cfg = Config::default();
    cfg.rules.line_length.max = 0;
    let c = RuleChecker::new(cfg);
    assert!(c.check_line_length("", "a.yaml").is_empty());
    assert_eq!(c.check_line_length("x", "a.yaml").len(), 1);
    let mut cfg1 = Config::default();
    cfg1.rules.line_length.max = 1;
    let c1 = RuleChecker::new(cfg1);
    assert!(c1.check_line_length("x", "a.yaml").is_empty());
    assert_eq!(c1.check_line_length("xy", "a.yaml").len(), 1);
}

#[test]
fn line_length_counts_bytes_not_characters() {
    // five characters but six bytes: the byte count decides
    let mut cfg = Config::default();
    cfg.rules.line_length.max = 5;
    let c = RuleChecker::new(cfg);
    let results = c.check_line_length("ab: \u{e9}", "a.yaml");
    assert_eq!(results.len(), 1);
    assert_eq!(results[0].message, "Line too long (6 > 5)");
    assert!(c.check_line_length("ab: e", "a.yaml").is_empty());
}

#[test]
fn trailing_column_counts_bytes() {
    let c = checker();
    // four characters, five bytes: the column is the byte length
    let results = c.check_trailing_spaces("\u{e9}x: \n", "a.yaml");
    assert_eq!(results.len(), 1);
    assert_eq!(results[0].column, 5);
}

#[test]
fn empty_lines_start_flagged_exactly_once() {
    let c = checker();
    // default max_start is 0: two leading blanks flag once
    let results = c.check_empty_lines("\n\nkey: 1\n", "a.yaml");
    let start: Vec<_> = results
        .iter()
        .filter(|r| r.message.contains("start of file"))
        .collect();
    assert_eq!(start.len(), 1);
    assert_eq!(start[0].line, 1);
    assert_eq!(start[0].column, 1);
    assert_eq!(start[0].message, "Too many empty lines at start of file (2)");
}

#[test]
fn empty_lines_start_not_flagged_within_threshold() {
    let mut cfg = Config::default();
    cfg.rules.empty_lines.max_start = 2;
    let c = RuleChecker::new(cfg);
    let results = c.check_empty_lines("\n\nkey: 1\n", "a.yaml");
    assert!(results.iter().all(|r| !r.message.contains("start of file")));
}

#[test]
fn empty_lines_one_diagnostic_per_excess_line() {
    let c = checker();
    // a run of four blanks with max_consecutive 2 flags lines 4 and 5
    let results = c.check_empty_lines("a: 1\n\n\n\n\nb: 2\n", "a.yaml");
    let interior: Vec<_> = results
        .iter()
        .filter(|r| r.message.contains("consecutive"))
        .collect();
    assert_eq!(interior.len(), 2);
    assert_eq!(interior[0].line, 4);
    assert_eq!(interior[0].message, "Too many consecutive empty lines (3)");
    assert_eq!(interior[1].line, 5);
    assert_eq!(interior[1].message, "Too many consecutive empty lines (4)");
}

#[test]
fn duplicates_flag_second_occurrence_only() {
    let c = checker();
    let results = c.check_file("a: 1\nb: 2\na: 3\n", "a.yaml");
    let dups: Vec<_> = results.iter().filter(|r| r.rule == "duplicates").collect();
    assert_eq!(dups.len(), 1);
    assert_eq!(dups[0].message, "Duplicate key: 'a'");
    assert_eq!(dups[0].snippet, "a");
    assert_eq!(dups[0].line, 1);
    assert_eq!(dups[0].column, 1);
    assert!(matches!(dups[0].severity, Severity::Error));
}

#[test]
fn duplicates_none_for_distinct_keys() {
    let c = checker();
    let results = c.check_file("a: 1\nb: 2\nc: 3\n", "a.yaml");
    assert!(results.iter().all(|r| r.rule != "duplicates"));
}

#[test]
fn duplicates_checked_at_root_only() {
    let c = checker();
    let content = "top:\n  x: 1\n  x: 2\n";
    let results = c.check_file(content, "a.yaml");
    assert!(results.iter().all(|r| r.rule != "duplicates"));
}

#[test]
fn required_fields_report_first_missing_segment() {
    let mut cfg = Config::default();
    cfg.rules.required_fields.paths = vec![(
        String::from("**/k8s/**"),
        vec![String::from("metadata.name")],
    )];
    let c = RuleChecker::new(cfg);
    // metadata present without name: the inner segment is reported
    let with_meta = "apiVersion: v1\nkind: Pod\nmetadata:\n  labels: x\n";
    let results = c.check_file(with_meta, "deploy/k8s/app.yaml");
    let req: Vec<_> = results.iter().filter(|r| r.rule == "required-fields").collect();
    assert_eq!(req.len(), 1);
    assert_eq!(req[0].message, "Missing required field: name");
    // metadata absent entirely: the outer segment is reported
    let without = "apiVersion: v1\nkind: Pod\n";
    let results2 = c.check_file(without, "deploy/k8s/app.yaml");
    let req2: Vec<_> = results2.iter().filter(|r| r.rule == "required-fields").collect();
    assert_eq!(req2.len(), 1);
    assert_eq!(req2[0].message, "Missing required field: metadata");
}

#[test]
fn required_fields_only_for_matching_paths() {
    let c = checker();
    let results = c.check_file("some: thing\n", "ordinary/config.yaml");
    assert!(results.iter().all(|r| r.rule != "required-fields"));
}

#[test]
fn required_fields_pattern_is_substring_containment() {
    let mut cfg = Config::default();
    cfg.rules.required_fields.paths = vec![(
        String::from("**/k8s/**"),
        vec![String::from("kind")],
    )];
    let c = RuleChecker::new(cfg);
    let results = c.check_file("other: 1\n", "anywhere/k8s/deep/x.yml");
    let req: Vec<_> = results.iter().filter(|r| r.rule == "required-fields").collect();
    assert_eq!(req.len(), 1);
    assert_eq!(req[0].message, "Missing required field: kind");
}

#[test]
fn value_types_flags_boolean_like_strings() {
    let c = checker();
    let results = c.check_file("flag: True\n", "a.yaml");
    let vt: Vec<_> = results.iter().filter(|r| r.rule == "value-types").collect();
    assert_eq!(vt.len(), 1);
    assert_eq!(vt[0].message, "Boolean-like string: 'True'. Consider using boolean type.");
    assert_eq!(vt[0].snippet, "True");
}

#[test]
fn value_types_flags_number_like_strings() {
    let c = checker();
    let results = c.check_file("port: \"8080\"\n", "a.yaml");
    let vt: Vec<_> = results.iter().filter(|r| r.rule == "value-types").collect();
    assert_eq!(vt.len(), 1);
    assert_eq!(vt[0].message, "Number-like string: '8080'. Consider using number type.");
}

#[test]
fn value_types_ignore_real_numbers_and_booleans() {
    let c = checker();
    let results = c.check_file("port: 8080\nflag: true\nratio: 1.5\n", "a.yaml");
    assert!(results.iter().all(|r| r.rule != "value-types"));
}

#[test]
fn value_types_both_rules_can_fire_and_toggles_work() {
    let mut cfg = Config::default();
    cfg.rules.value_types.check_bool_values = false;
    let c = RuleChecker::new(cfg);
    let results = c.check_file("x: \"yes\"\n", "a.yaml");
    assert!(results.iter().all(|r| r.rule != "value-types"));
    let c2 = checker();
    let results2 = c2.check_file("x: \"yes\"\n", "a.yaml");
    let vt: Vec<_> = results2.iter().filter(|r| r.rule == "value-types").collect();
    assert_eq!(vt.len(), 1);
}

#[test]
fn value_types_visits_nested_values() {
    let c = checker();
    let content = "outer:\n  inner: \"42\"\nitems:\n  - \"no\"\n";
    let results = c.check_file(content, "a.yaml");
    let vt: Vec<_> = results.iter().filter(|r| r.rule == "value-types").collect();
    assert_eq!(vt.len(), 2);
}

#[test]
fn severity_off_never_blocks() {
    let mut cfg = Config::default();
    cfg.rules.trailing_spaces.level = Severity::Off;
    let linter = YamlLinter::new(cfg);
    let rep = linter.lint_content("key: 1 \n", "a.yaml");
    assert_eq!(rep.results.len(), 1);
    assert!(rep.passed);
}
