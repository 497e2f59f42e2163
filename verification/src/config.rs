//! The configuration model: per-rule tunables and severity levels.
//! A configuration is built once (defaults here, or loaded by a caller)
//! and then only read; the rule checker and the rewriter both work from
//! the same instance.
use vstd::prelude::*;
use crate::text;

verus! {

/// Blocking classification of a diagnostic; only `Error` marks a file failed.
#[derive(Debug, Clone, Copy, PartialEq, Eq, Structural)]
pub enum Severity {
    Error,
    Warning,
    Info,
    Off,
}

#[derive(Debug, Clone)]
pub struct IndentationRule {
    pub spaces: usize,
    pub check_multi_line_strings: bool,
}

#[derive(Debug, Clone)]
pub struct LineLengthRule {
    pub max: usize,
    pub allow_non_breakable_words: bool,
}

#[derive(Debug, Clone)]
pub struct EmptyLinesRule {
    pub max_start: usize,
    pub max_end: usize,
    pub max_consecutive: usize,
}

/// Maps a file-path pattern to the dotted field paths that files matching
/// the pattern must contain.
#[derive(Debug, Clone)]
pub struct RequiredFieldsRule {
    pub paths: Vec<(String, Vec<String>)>,
}

#[derive(Debug, Clone)]
pub struct ValueTypesRule {
    pub strict_numbers: bool,
    pub check_bool_values: bool,
}

#[derive(Debug, Clone)]
pub struct QuotesRule {
    pub prefer_double: bool,
}

#[derive(Debug, Clone)]
pub struct FormatConfig {
    pub auto_fix: bool,
    pub backup_files: bool,
    pub indent_sequence: bool,
}

#[derive(Debug, Clone)]
pub struct SeverityRule {
    pub level: Severity,
}

#[derive(Debug, Clone)]
pub struct RuleConfig {
    pub indentation: IndentationRule,
    pub line_length: LineLengthRule,
    pub trailing_spaces: SeverityRule,
    pub empty_lines: EmptyLinesRule,
    pub required_fields: RequiredFieldsRule,
    pub value_types: ValueTypesRule,
    pub duplicates: SeverityRule,
    pub quotes: QuotesRule,
}

#[derive(Debug, Clone)]
pub struct Config {
    pub rules: RuleConfig,
    pub format: FormatConfig,
    pub exclude: Vec<String>,
}

/// The views of a sequence of owned strings.
pub open spec fn str_views(v: Seq<String>) -> Seq<Seq<char>> {
    v.map_values(|s: String| s@)
}

/// A path is excluded when it contains, as a literal substring, the core
/// of one of the exclusion patterns (the pattern with its leading and
/// trailing `*` and `/` characters stripped).
pub open spec fn excluded_spec(path: Seq<char>, pats: Seq<Seq<char>>) -> bool {
    exists|i: int|
        0 <= i < pats.len() && text::contains_seq(path, text::trim_glob(#[trigger] pats[i]))
}

impl Config {
    /// Bounds under which every check is meaningful: an indentation unit of
    /// zero would make "a multiple of the unit" undefined, and the
    /// line-length rule reports a column one past the maximum.
    pub open spec fn wf(&self) -> bool {
        &&& self.rules.indentation.spaces >= 1
        &&& self.rules.line_length.max < usize::MAX
    }

    pub fn should_exclude(&self, path: &str) -> (r: bool)
        ensures
            r == excluded_spec(path@, str_views(self.exclude@)),
    {
        let p = text::str_to_chars(path);
        let ghost pats = str_views(self.exclude@);
        let mut i: usize = 0;
        while i < self.exclude.len()
            invariant
                0 <= i <= self.exclude@.len(),
                p@ == path@,
                pats == str_views(self.exclude@),
                pats.len() == self.exclude@.len(),
                forall|j: int|
                    0 <= j < i ==> !text::contains_seq(path@, text::trim_glob(#[trigger] pats[j])),
            decreases self.exclude@.len() - i,
        {
            let pat = text::str_to_chars(self.exclude[i].as_str());
            let core = text::trim_glob_exec(&pat);
            proof {
                assert(pats[i as int] == self.exclude@[i as int]@);
            }
            if text::seq_contains(&p, &core) {
                return true;
            }
            i += 1;
        }
        proof {
            if excluded_spec(path@, pats) {
                let w = choose|w: int|
                    0 <= w < pats.len() && text::contains_seq(
                        path@,
                        text::trim_glob(#[trigger] pats[w]),
                    );
            }
        }
        false
    }
}

impl Default for Config {
    /// The documented default thresholds: 2-space indentation, 120-column
    /// lines, no leading blank lines, one trailing blank line, at most two
    /// consecutive blank lines, error-level trailing-space and duplicate
    /// checks, single quotes preferred, backups enabled.
    fn default() -> (r: Config)
        ensures
            r.rules.indentation.spaces == 2,
            r.rules.indentation.check_multi_line_strings == true,
            r.rules.line_length.max == 120,
            r.rules.line_length.allow_non_breakable_words == true,
            r.rules.trailing_spaces.level == Severity::Error,
            r.rules.empty_lines.max_start == 0,
            r.rules.empty_lines.max_end == 1,
            r.rules.empty_lines.max_consecutive == 2,
            r.rules.required_fields.paths@.len() == 1,
            r.rules.required_fields.paths@[0].0@ == "**/k8s/*.yaml"@,
            r.rules.required_fields.paths@[0].1@.len() == 3,
            r.rules.required_fields.paths@[0].1@[0]@ == "apiVersion"@,
            r.rules.required_fields.paths@[0].1@[1]@ == "kind"@,
            r.rules.required_fields.paths@[0].1@[2]@ == "metadata.name"@,
            r.rules.value_types.strict_numbers == true,
            r.rules.value_types.check_bool_values == true,
            r.rules.duplicates.level == Severity::Error,
            r.rules.quotes.prefer_double == false,
            r.format.auto_fix == false,
            r.format.backup_files == true,
            r.format.indent_sequence == true,
            r.exclude@.len() == 3,
            r.exclude@[0]@ == "**/node_modules/"@,
            r.exclude@[1]@ == "**/.git/"@,
            r.exclude@[2]@ == "**/vendor/"@,
            r.wf(),
    {
        let mut k8s_fields: Vec<String> = Vec::new();
        k8s_fields.push(String::from_str("apiVersion"));
        k8s_fields.push(String::from_str("kind"));
        k8s_fields.push(String::from_str("metadata.name"));
        let mut required_paths: Vec<(String, Vec<String>)> = Vec::new();
        required_paths.push((String::from_str("**/k8s/*.yaml"), k8s_fields));
        let mut exclude: Vec<String> = Vec::new();
        exclude.push(String::from_str("**/node_modules/"));
        exclude.push(String::from_str("**/.git/"));
        exclude.push(String::from_str("**/vendor/"));
        Config {
            rules: RuleConfig {
                indentation: IndentationRule { spaces: 2, check_multi_line_strings: true },
                line_length: LineLengthRule { max: 120, allow_non_breakable_words: true },
                trailing_spaces: SeverityRule { level: Severity::Error },
                empty_lines: EmptyLinesRule { max_start: 0, max_end: 1, max_consecutive: 2 },
                required_fields: RequiredFieldsRule { paths: required_paths },
                value_types: ValueTypesRule { strict_numbers: true, check_bool_values: true },
                duplicates: SeverityRule { level: Severity::Error },
                quotes: QuotesRule { prefer_double: false },
            },
            format: FormatConfig { auto_fix: false, backup_files: true, indent_sequence: true },
            exclude,
        }
    }
}

} // verus!
