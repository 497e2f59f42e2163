use yamllint::config::Config;
use yamllint::formatter;
use yamllint::linter::YamlLinter;

fn lines_of(parts: &[&str]) -> Vec<Vec<char>> {
    parts.iter().map(|s| s.chars().collect()).collect()
}

fn strings_of(lines: &Vec<Vec<char>>) -> Vec<String> {
    lines.iter().map(|l| l.iter().collect()).collect()
}

#[test]
fn rewrite_end_to_end() {
    // a two-space indent floors to zero under a four-space unit, trailing
    // spaces go, the trailing blank run collapses, one final blank line
    // is appended, and exactly one newline ends the text
    let mut cfg = Config::default();
    cfg.rules.indentation.spaces = 4;
    let out = formatter::fix_content("  key:   value   \n\n\n\n", &cfg);
    assert_eq!(out, "key:   value\n\n");
}

#[test]
fn rewrite_is_a_fixed_point() {
    let cfg = Config::default();
    let samples = [
        "  key:   value   \n\n\n\n",
        "\n\n\na: 1\n\n\n\n\nb: 2\n",
        "key: 'simple'\n",
        "   odd: indent\n",
        "",
        "\n\n\n",
    ];
    for s in samples.iter() {
        let once = formatter::fix_content(s, &cfg);
        let twice = formatter::fix_content(&once, &cfg);
        assert_eq!(once, twice);
    }
}

#[test]
fn rewrite_is_a_fixed_point_with_double_quotes() {
    let mut cfg = Config::default();
    cfg.rules.quotes.prefer_double = true;
    let samples = ["key: 'it''s'\n", "a: 'x'\nb: \"y\"\n", "plain: text\n"];
    for s in samples.iter() {
        let once = formatter::fix_content(s, &cfg);
        let twice = formatter::fix_content(&once, &cfg);
        assert_eq!(once, twice);
    }
}

#[test]
fn indentation_pass_floors_to_unit() {
    let cfg = Config::default();
    let mut lines = lines_of(&["key:", "   three: 1", "    four: 2", "  ", "\tkeep: me"]);
    formatter::fix_indentation(&mut lines, &cfg);
    let out = strings_of(&lines);
    // three spaces floor to two; four stay; blank and tab lines untouched
    assert_eq!(out, vec!["key:", "  three: 1", "    four: 2", "  ", "\tkeep: me"]);
}

#[test]
fn trailing_pass_strips_spaces_and_tabs() {
    let mut lines = lines_of(&["a ", "b\t", "c", "  "]);
    formatter::fix_trailing_spaces(&mut lines);
    assert_eq!(strings_of(&lines), vec!["a", "b", "c", ""]);
}

#[test]
fn empty_lines_pass_strips_edges_and_caps_runs() {
    let cfg = Config::default();
    let mut lines = lines_of(&["", "", "a", "", "", "", "b", ""]);
    formatter::fix_empty_lines(&mut lines, &cfg);
    // leading blanks gone, the interior run capped at two, trailing
    // blanks gone, one blank appended because max_end is positive
    assert_eq!(strings_of(&lines), vec!["a", "", "", "b", ""]);
}

#[test]
fn empty_lines_pass_without_final_blank() {
    let mut cfg = Config::default();
    cfg.rules.empty_lines.max_end = 0;
    cfg.rules.empty_lines.max_consecutive = 1;
    let mut lines = lines_of(&["a", "", "", "b"]);
    formatter::fix_empty_lines(&mut lines, &cfg);
    assert_eq!(strings_of(&lines), vec!["a", "", "b"]);
}

#[test]
fn quote_pass_strips_simple_spans() {
    let cfg = Config::default();
    let mut lines = lines_of(&["a: 'simple'", "b: \"note: here\"", "c: ''", "d: plain"]);
    formatter::fix_quotes(&mut lines, &cfg);
    // a simple span loses its quotes; one with a colon keeps them; an
    // empty one keeps them
    assert_eq!(
        strings_of(&lines),
        vec!["a: simple", "b: \"note: here\"", "c: ''", "d: plain"]
    );
}

#[test]
fn quote_pass_strips_only_the_first_pair() {
    let cfg = Config::default();
    let mut lines = lines_of(&["x: 'v' # was 'v'"]);
    formatter::fix_quotes(&mut lines, &cfg);
    // only the first span's pair goes; the later span stays
    assert_eq!(strings_of(&lines), vec!["x: v # was 'v'"]);
}

#[test]
fn quote_pass_prefer_double_is_blind() {
    let mut cfg = Config::default();
    cfg.rules.quotes.prefer_double = true;
    let mut lines = lines_of(&["say: 'don't'"]);
    formatter::fix_quotes(&mut lines, &cfg);
    assert_eq!(strings_of(&lines), vec!["say: \"don\"t\""]);
}

#[test]
fn fix_content_appends_exactly_one_newline() {
    let mut cfg = Config::default();
    cfg.rules.empty_lines.max_end = 0;
    let out = formatter::fix_content("a: 1", &cfg);
    assert_eq!(out, "a: 1\n");
}

#[test]
fn fix_content_on_blank_document() {
    let mut cfg = Config::default();
    cfg.rules.empty_lines.max_end = 0;
    assert_eq!(formatter::fix_content("\n\n\n", &cfg), "\n");
}

#[test]
fn quote_stripping_edge_case_reapplies() {
    // a second span becomes first after one strip: reapplying the
    // rewrite keeps stripping, so such inputs are no fixed point
    let cfg = Config::default();
    let once = formatter::fix_content("say: 'a' then 'b'\n", &cfg);
    assert_eq!(once, "say: a then 'b'\n\n");
    let twice = formatter::fix_content(&once, &cfg);
    assert_eq!(twice, "say: a then b\n\n");
}

#[test]
fn auto_fix_selects_files_with_findings() {
    let linter = YamlLinter::new(Config::default());
    let clean = linter.lint_content("a: 1\n", "clean.yaml");
    let dirty = linter.lint_content("a: 1 \n", "dirty.yaml");
    let reports = vec![clean, dirty];
    let files = formatter::auto_fix_files(&reports);
    assert_eq!(files, vec![String::from("dirty.yaml")]);
}
