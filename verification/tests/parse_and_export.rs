use yamllint::config::Config;
use yamllint::export::{Exporter, YamlConverter};
use yamllint::linter::YamlLinter;
use yamllint::yaml::{parse, Node};

#[test]
fn parse_empty_document_is_null() {
    assert!(matches!(parse(""), Ok(Node::Null)));
    assert!(matches!(parse("\n\n# only a comment\n"), Ok(Node::Null)));
}

#[test]
fn parse_flat_mapping_preserves_duplicates() {
    let doc = parse("a: 1\nb: 2\na: 3\n").unwrap();
    match doc {
        Node::Mapping(entries) => {
            let keys: Vec<&str> = entries.iter().map(|e| e.0.as_str()).collect();
            assert_eq!(keys, vec!["a", "b", "a"]);
        }
        _ => panic!("expected a mapping"),
    }
}

#[test]
fn parse_scalar_classification() {
    let doc = parse("i: 42\nf: -3.5\ne: 1e3\nn: null\nt: true\ns: hello\nq: \"7\"\n").unwrap();
    match doc {
        Node::Mapping(entries) => {
            assert!(matches!(entries[0].1, Node::Num(_)));
            assert!(matches!(entries[1].1, Node::Num(_)));
            assert!(matches!(entries[2].1, Node::Num(_)));
            assert!(matches!(entries[3].1, Node::Null));
            assert!(matches!(entries[4].1, Node::Bool(true)));
            match &entries[5].1 {
                Node::Str(s) => assert_eq!(s, "hello"),
                _ => panic!("expected a string"),
            }
            match &entries[6].1 {
                Node::Str(s) => assert_eq!(s, "7"),
                _ => panic!("quoted scalars stay strings"),
            }
        }
        _ => panic!("expected a mapping"),
    }
}

#[test]
fn parse_nested_blocks_and_sequences() {
    let doc = parse("top:\n  child: 1\nitems:\n  - one\n  - two\nflush:\n- x\n").unwrap();
    match doc {
        Node::Mapping(entries) => {
            assert_eq!(entries.len(), 3);
            match &entries[0].1 {
                Node::Mapping(inner) => {
                    assert_eq!(inner[0].0, "child");
                }
                _ => panic!("expected nested mapping"),
            }
            match &entries[1].1 {
                Node::Sequence(items) => assert_eq!(items.len(), 2),
                _ => panic!("expected a sequence"),
            }
            match &entries[2].1 {
                Node::Sequence(items) => assert_eq!(items.len(), 1),
                _ => panic!("sequence items may sit at the key's indent"),
            }
        }
        _ => panic!("expected a mapping"),
    }
}

#[test]
fn parse_inline_entry_in_sequence_item() {
    let doc = parse("containers:\n  - name: app\n    image: img\n  - name: side\n").unwrap();
    match doc {
        Node::Mapping(entries) => match &entries[0].1 {
            Node::Sequence(items) => {
                assert_eq!(items.len(), 2);
                match &items[0] {
                    Node::Mapping(m) => {
                        assert_eq!(m.len(), 2);
                        assert_eq!(m[0].0, "name");
                        assert_eq!(m[1].0, "image");
                    }
                    _ => panic!("expected an inline mapping item"),
                }
            }
            _ => panic!("expected a sequence"),
        },
        _ => panic!("expected a mapping"),
    }
}

#[test]
fn number_grammar_edges() {
    let c = yamllint::rules::RuleChecker::new(Config::default());
    // everything integer or float parsing accepts is number-like,
    // including signs, bare dots on one side, exponents and the special
    // words; words outside the grammar are not
    for s in ["+5", "-0.25", "1.", ".5", "2e10", "1E-3", "nan", "INF", "infinity"] {
        let content = format!("x: \"{}\"\n", s);
        let results = c.check_file(&content, "a.yaml");
        let vt: Vec<_> = results.iter().filter(|r| r.rule == "value-types").collect();
        assert_eq!(vt.len(), 1, "expected a number-like warning for {}", s);
    }
    for s in ["x5", "1.2.3", "e5", ".", "+", "1e", "in"] {
        let content = format!("x: \"{}\"\n", s);
        let results = c.check_file(&content, "a.yaml");
        assert!(
            results.iter().all(|r| r.rule != "value-types"),
            "no warning expected for {}",
            s
        );
    }
}

#[test]
fn comments_are_ignored_by_the_parser() {
    let doc = parse("# heading\na: 1 \n  # indented comment\nb: 2\n").unwrap();
    match doc {
        Node::Mapping(entries) => {
            assert_eq!(entries.len(), 2);
        }
        _ => panic!("expected a mapping"),
    }
}

#[test]
fn parse_errors_carry_the_line() {
    let e = parse("a: 1\nbroken\n").unwrap_err();
    assert_eq!(e.line, 2);
    let e2 = parse("\ta: 1\n").unwrap_err();
    assert_eq!(e2.line, 1);
}

#[test]
fn validate_file_collects_messages() {
    let linter = YamlLinter::new(Config::default());
    // an odd indent is an error; a long line is a warning
    let long_tail = "y".repeat(130);
    let content = format!("key:\n   odd: 1\nlong: {}\n", long_tail);
    let v = linter.validate_file(&content, "a.yaml");
    assert!(!v.valid);
    assert_eq!(v.errors.len(), 1);
    assert!(v.errors[0].contains("Indentation"));
    assert_eq!(v.warnings.len(), 1);
    assert!(v.warnings[0].contains("Line too long"));
}

#[test]
fn validate_file_passes_clean_content() {
    let linter = YamlLinter::new(Config::default());
    let v = linter.validate_file("key: value\n", "a.yaml");
    assert!(v.valid);
    assert!(v.errors.is_empty());
    assert!(v.warnings.is_empty());
    assert_eq!(v.file, "a.yaml");
}

#[test]
fn should_exclude_uses_substring_containment() {
    let cfg = Config::default();
    assert!(cfg.should_exclude("work/node_modules/pkg/a.yaml"));
    assert!(cfg.should_exclude("repo/.git/config.yml"));
    assert!(!cfg.should_exclude("src/app.yaml"));
}

#[test]
fn escape_xml_escapes_all_five() {
    assert_eq!(
        Exporter::escape_xml("a&b<c>d\"e'f"),
        "a&amp;b&lt;c&gt;d&quot;e&apos;f"
    );
    assert_eq!(Exporter::escape_xml("plain"), "plain");
}

#[test]
fn yaml_file_recognition() {
    assert!(YamlConverter::is_yaml_file("dir/app.yaml"));
    assert!(YamlConverter::is_yaml_file("UP.YML"));
    assert!(!YamlConverter::is_yaml_file("conf.toml"));
    assert!(!YamlConverter::is_yaml_file(".yml"));
    assert!(!YamlConverter::is_yaml_file("noextension"));
    assert!(!YamlConverter::is_yaml_file("dir.yaml/file"));
}

#[test]
fn lint_content_sets_passed_flag() {
    let linter = YamlLinter::new(Config::default());
    let good = linter.lint_content("a: 1\n", "g.yaml");
    assert!(good.passed);
    assert!(good.results.is_empty());
    let bad = linter.lint_content("a: 1\na: 2\n", "b.yaml");
    assert!(!bad.passed);
    assert_eq!(bad.file, "b.yaml");
}

#[test]
fn end_to_end_check_orders_diagnostics_by_rule() {
    let c = yamllint::rules::RuleChecker::new(Config::default());
    // one trailing space, one duplicate: text rules come before tree rules
    let results = c.check_file("a: 1 \na: 2\n", "a.yaml");
    assert_eq!(results.len(), 2);
    assert_eq!(results[0].rule, "trailing-spaces");
    assert_eq!(results[1].rule, "duplicates");
}
