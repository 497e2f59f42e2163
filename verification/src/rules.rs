//! The rule checker: line-oriented checks over the raw text and, once the
//! document parses, tree-oriented checks over the parsed value.  Each
//! violation becomes a [`LintResult`]; a rule never interrupts the checks
//! that follow it.
use vstd::prelude::*;
use crate::config::{Config, Severity};
use crate::config;
use crate::scalar;
use crate::text;
use crate::yaml;
use crate::yaml::{GNode, Node};

verus! {

broadcast use
    vstd::std_specs::vec::group_vec_axioms,
    vstd::seq::axiom_seq_index_decreases,
    vstd::seq::axiom_seq_subrange_decreases;

/// A single reported rule violation.  Line and column are 1-based; the
/// tree-oriented rules use the fixed position `(1, 1)` because the parsed
/// tree does not retain source positions.
#[derive(Debug, Clone)]
pub struct LintResult {
    pub file: String,
    pub line: usize,
    pub column: usize,
    pub severity: Severity,
    pub rule: String,
    pub message: String,
    pub snippet: String,
}

/// The mathematical content of a [`LintResult`].
pub ghost struct Diag {
    pub file: Seq<char>,
    pub line: nat,
    pub column: nat,
    pub severity: Severity,
    pub rule: Seq<char>,
    pub message: Seq<char>,
    pub snippet: Seq<char>,
}

impl LintResult {
    pub open spec fn abs(&self) -> Diag {
        Diag {
            file: self.file@,
            line: self.line as nat,
            column: self.column as nat,
            severity: self.severity,
            rule: self.rule@,
            message: self.message@,
            snippet: self.snippet@,
        }
    }

    pub fn is_error(&self) -> (r: bool)
        ensures
            r == (self.severity == Severity::Error),
    {
        self.severity == Severity::Error
    }

    pub fn is_warning(&self) -> (r: bool)
        ensures
            r == (self.severity == Severity::Warning),
    {
        self.severity == Severity::Warning
    }
}

pub open spec fn abs_seq(s: Seq<LintResult>) -> Seq<Diag> {
    s.map_values(|r: LintResult| r.abs())
}

// ---------- messages ----------

pub open spec fn indentation_message(unit: nat) -> Seq<char> {
    "Indentation should be multiples of "@ + text::dec_digits(unit) + " spaces"@
}

pub open spec fn trailing_message() -> Seq<char> {
    "Trailing spaces are not allowed"@
}

pub open spec fn line_length_message(len: nat, max: nat) -> Seq<char> {
    "Line too long ("@ + text::dec_digits(len) + " > "@ + text::dec_digits(max) + ")"@
}

pub open spec fn consecutive_message(n: nat) -> Seq<char> {
    "Too many consecutive empty lines ("@ + text::dec_digits(n) + ")"@
}

pub open spec fn start_message(n: nat) -> Seq<char> {
    "Too many empty lines at start of file ("@ + text::dec_digits(n) + ")"@
}

// ---------- the indentation rule ----------

/// A line is flagged when it begins with spaces and their count is not a
/// multiple of the configured unit.  Blank lines and lines opening with a
/// tab are not evaluated.
pub open spec fn indent_flag(l: Seq<char>, unit: nat) -> bool {
    &&& !text::is_blank(l)
    &&& l.len() > 0
    &&& l[0] == ' '
    &&& text::leading_spaces(l) % unit != 0
}

pub open spec fn indent_diag(file: Seq<char>, l: Seq<char>, line: nat, unit: nat) -> Diag {
    Diag {
        file,
        line,
        column: 1,
        severity: Severity::Error,
        rule: "indentation"@,
        message: indentation_message(unit),
        snippet: l,
    }
}

pub open spec fn indentation_diags(file: Seq<char>, lines: Seq<Seq<char>>, unit: nat) -> Seq<
    Diag,
>
    decreases lines.len(),
{
    if lines.len() == 0 {
        Seq::empty()
    } else {
        indentation_diags(file, lines.drop_last(), unit) + (if indent_flag(lines.last(), unit) {
            seq![indent_diag(file, lines.last(), lines.len() as nat, unit)]
        } else {
            Seq::empty()
        })
    }
}

// ---------- the trailing-spaces rule ----------

/// A line is flagged exactly when its last character is a space or a tab;
/// the configured severity is attached but never gates detection.
pub open spec fn trailing_flag(l: Seq<char>) -> bool {
    l.len() > 0 && (l[l.len() - 1] == ' ' || l[l.len() - 1] == '\t')
}

/// The reported column is the line's byte length (capped at what a
/// `usize` can carry, a bound no real line reaches).
pub open spec fn trailing_diag(file: Seq<char>, l: Seq<char>, line: nat, level: Severity) -> Diag {
    Diag {
        file,
        line,
        column: text::cap_usize(text::byte_len(l)),
        severity: level,
        rule: "trailing-spaces"@,
        message: trailing_message(),
        snippet: l,
    }
}

pub open spec fn trailing_diags(file: Seq<char>, lines: Seq<Seq<char>>, level: Severity) -> Seq<
    Diag,
>
    decreases lines.len(),
{
    if lines.len() == 0 {
        Seq::empty()
    } else {
        trailing_diags(file, lines.drop_last(), level) + (if trailing_flag(lines.last()) {
            seq![trailing_diag(file, lines.last(), lines.len() as nat, level)]
        } else {
            Seq::empty()
        })
    }
}

// ---------- the line-length rule ----------

/// A line is flagged exactly when it is strictly longer than the
/// maximum, measured in bytes; a line of exactly the maximum length
/// passes.
pub open spec fn length_flag(l: Seq<char>, max: nat) -> bool {
    text::byte_len(l) > max
}

pub open spec fn length_diag(file: Seq<char>, l: Seq<char>, line: nat, max: nat) -> Diag {
    Diag {
        file,
        line,
        column: (max + 1) as nat,
        severity: Severity::Warning,
        rule: "line-length"@,
        message: line_length_message(text::byte_len(l), max),
        snippet: l,
    }
}

pub open spec fn length_diags(file: Seq<char>, lines: Seq<Seq<char>>, max: nat) -> Seq<Diag>
    decreases lines.len(),
{
    if lines.len() == 0 {
        Seq::empty()
    } else {
        length_diags(file, lines.drop_last(), max) + (if length_flag(lines.last(), max) {
            seq![length_diag(file, lines.last(), lines.len() as nat, max)]
        } else {
            Seq::empty()
        })
    }
}

// ---------- the empty-lines rule ----------

/// Length of the run of blank lines ending at index `i` (zero when `i` is
/// out of range or the line there is not blank).
pub open spec fn run_len(lines: Seq<Seq<char>>, i: int) -> nat
    decreases i + 1,
{
    if i < 0 || i >= lines.len() || !text::is_blank(lines[i]) {
        0
    } else {
        run_len(lines, i - 1) + 1
    }
}

/// A blank line is flagged when the run it extends has, with it, grown
/// beyond the allowed number of consecutive blank lines; a run exceeding
/// the threshold by `k` lines therefore yields `k` diagnostics.
pub open spec fn consec_flag(lines: Seq<Seq<char>>, i: int, maxc: nat) -> bool {
    &&& 0 <= i < lines.len()
    &&& text::is_blank(lines[i])
    &&& run_len(lines, i) > maxc
}

pub open spec fn consec_diag(file: Seq<char>, line: nat, count: nat) -> Diag {
    Diag {
        file,
        line,
        column: 1,
        severity: Severity::Warning,
        rule: "empty-lines"@,
        message: consecutive_message(count),
        snippet: ""@,
    }
}

pub open spec fn interior_diags_upto(
    file: Seq<char>,
    lines: Seq<Seq<char>>,
    maxc: nat,
    k: int,
) -> Seq<Diag>
    decreases k,
{
    if k <= 0 {
        Seq::empty()
    } else {
        interior_diags_upto(file, lines, maxc, k - 1) + (if consec_flag(lines, k - 1, maxc) {
            seq![consec_diag(file, k as nat, run_len(lines, k - 1))]
        } else {
            Seq::empty()
        })
    }
}

/// Number of blank lines at the very start of the document.
pub open spec fn leading_blanks(lines: Seq<Seq<char>>) -> nat
    decreases lines.len(),
{
    if lines.len() == 0 || !text::is_blank(lines[0]) {
        0
    } else {
        (1 + leading_blanks(lines.drop_first())) as nat
    }
}

pub proof fn lemma_leading_blanks(lines: Seq<Seq<char>>)
    ensures
        leading_blanks(lines) <= lines.len(),
        forall|j: int| 0 <= j < leading_blanks(lines) ==> text::is_blank(#[trigger] lines[j]),
        leading_blanks(lines) < lines.len() ==> !text::is_blank(
            lines[leading_blanks(lines) as int],
        ),
    decreases lines.len(),
{
    if lines.len() > 0 && text::is_blank(lines[0]) {
        lemma_leading_blanks(lines.drop_first());
        assert forall|j: int|
            0 <= j < leading_blanks(lines) implies text::is_blank(#[trigger] lines[j]) by {
            if j > 0 {
                assert(lines.drop_first()[j - 1] == lines[j]);
            }
        }
        assert(leading_blanks(lines) < lines.len() ==> lines.drop_first()[leading_blanks(lines)
            as int - 1] == lines[leading_blanks(lines) as int]);
    }
}

pub open spec fn start_diag(file: Seq<char>, count: nat) -> Diag {
    Diag {
        file,
        line: 1,
        column: 1,
        severity: Severity::Warning,
        rule: "empty-lines"@,
        message: start_message(count),
        snippet: ""@,
    }
}

/// All diagnostics of the empty-lines rule: one per blank line extending a
/// run beyond `maxc`, in line order, followed by at most one diagnostic
/// for a document that opens with more than `maxs` blank lines.  The
/// configured `max_end` threshold is declared but deliberately not
/// enforced here.
pub open spec fn empty_lines_diags(
    file: Seq<char>,
    lines: Seq<Seq<char>>,
    maxc: nat,
    maxs: nat,
) -> Seq<Diag> {
    interior_diags_upto(file, lines, maxc, lines.len() as int) + (if leading_blanks(lines)
        > maxs {
        seq![start_diag(file, leading_blanks(lines))]
    } else {
        Seq::empty()
    })
}

// ---------- the checker ----------

pub struct RuleChecker {
    pub config: Config,
}

impl RuleChecker {
    pub fn new(config: Config) -> (r: RuleChecker)
        ensures
            r.config == config,
    {
        RuleChecker { config }
    }

    pub fn check_indentation(&self, content: &str, file_path: &str) -> (res: Vec<LintResult>)
        requires
            self.config.wf(),
        ensures
            abs_seq(res@) == indentation_diags(
                file_path@,
                text::lines_spec(content@),
                self.config.rules.indentation.spaces as nat,
            ),
    {
        let unit = self.config.rules.indentation.spaces;
        let lines = text::split_lines(content);
        let ghost lv = text::lines_spec(content@);
        let mut res: Vec<LintResult> = Vec::new();
        let mut i: usize = 0;
        while i < lines.len()
            invariant
                0 <= i <= lines@.len(),
                lines@.len() == lv.len(),
                forall|j: int| 0 <= j < lv.len() ==> (#[trigger] lines@[j])@ == lv[j],
                unit == self.config.rules.indentation.spaces,
                unit >= 1,
                abs_seq(res@) == indentation_diags(file_path@, lv.take(i as int), unit as nat),
            decreases lines@.len() - i,
        {
            let line = &lines[i];
            proof {
                assert(lv.take(i + 1).drop_last() =~= lv.take(i as int));
                assert(lv.take(i + 1).last() == lv[i as int]);
            }
            if !text::line_is_blank(line) && line.len() > 0 && line[0] == ' ' {
                let lead = text::count_leading_spaces(line);
                if lead % unit != 0 {
                    let mut msg: Vec<char> = Vec::new();
                    text::push_str_chars(&mut msg, "Indentation should be multiples of ");
                    text::push_dec(unit, &mut msg);
                    text::push_str_chars(&mut msg, " spaces");
                    let r = LintResult {
                        file: String::from_str(file_path),
                        line: i + 1,
                        column: 1,
                        severity: Severity::Error,
                        rule: String::from_str("indentation"),
                        message: text::chars_to_string(&msg),
                        snippet: text::chars_to_string(line),
                    };
                    proof {
                        assert(r.abs() == indent_diag(file_path@, lv[i as int], (i + 1) as nat,
                            unit as nat));
                    }
                    res.push(r);
                    proof {
                        assert(abs_seq(res@) =~= indentation_diags(file_path@, lv.take(i + 1),
                            unit as nat));
                    }
                } else {
                    proof {
                        assert(abs_seq(res@) =~= indentation_diags(file_path@, lv.take(i + 1),
                            unit as nat));
                    }
                }
            } else {
                proof {
                    assert(abs_seq(res@) =~= indentation_diags(file_path@, lv.take(i + 1),
                        unit as nat));
                }
            }
            i += 1;
        }
        proof {
            assert(lv.take(lv.len() as int) =~= lv);
        }
        res
    }

    pub fn check_trailing_spaces(&self, content: &str, file_path: &str) -> (res: Vec<LintResult>)
        ensures
            abs_seq(res@) == trailing_diags(
                file_path@,
                text::lines_spec(content@),
                self.config.rules.trailing_spaces.level,
            ),
    {
        let level = self.config.rules.trailing_spaces.level;
        let lines = text::split_lines(content);
        let ghost lv = text::lines_spec(content@);
        let mut res: Vec<LintResult> = Vec::new();
        let mut i: usize = 0;
        while i < lines.len()
            invariant
                0 <= i <= lines@.len(),
                lines@.len() == lv.len(),
                forall|j: int| 0 <= j < lv.len() ==> (#[trigger] lines@[j])@ == lv[j],
                level == self.config.rules.trailing_spaces.level,
                abs_seq(res@) == trailing_diags(file_path@, lv.take(i as int), level),
            decreases lines@.len() - i,
        {
            let line = &lines[i];
            proof {
                assert(lv.take(i + 1).drop_last() =~= lv.take(i as int));
                assert(lv.take(i + 1).last() == lv[i as int]);
            }
            let n = line.len();
            if n > 0 && (line[n - 1] == ' ' || line[n - 1] == '\t') {
                let mut msg: Vec<char> = Vec::new();
                text::push_str_chars(&mut msg, "Trailing spaces are not allowed");
                let bl = text::byte_len_chars(line);
                let col: usize = if bl > usize::MAX as u128 {
                    usize::MAX
                } else {
                    bl as usize
                };
                let r = LintResult {
                    file: String::from_str(file_path),
                    line: i + 1,
                    column: col,
                    severity: level,
                    rule: String::from_str("trailing-spaces"),
                    message: text::chars_to_string(&msg),
                    snippet: text::chars_to_string(line),
                };
                proof {
                    assert(Seq::<char>::empty() + "Trailing spaces are not allowed"@
                        =~= "Trailing spaces are not allowed"@);
                    assert(r.abs() == trailing_diag(file_path@, lv[i as int], (i + 1) as nat,
                        level));
                }
                res.push(r);
                proof {
                    assert(abs_seq(res@) =~= trailing_diags(file_path@, lv.take(i + 1), level));
                }
            } else {
                proof {
                    assert(abs_seq(res@) =~= trailing_diags(file_path@, lv.take(i + 1), level));
                }
            }
            i += 1;
        }
        proof {
            assert(lv.take(lv.len() as int) =~= lv);
        }
        res
    }

    pub fn check_line_length(&self, content: &str, file_path: &str) -> (res: Vec<LintResult>)
        requires
            self.config.wf(),
        ensures
            abs_seq(res@) == length_diags(
                file_path@,
                text::lines_spec(content@),
                self.config.rules.line_length.max as nat,
            ),
    {
        let max = self.config.rules.line_length.max;
        let lines = text::split_lines(content);
        let ghost lv = text::lines_spec(content@);
        let mut res: Vec<LintResult> = Vec::new();
        let mut i: usize = 0;
        while i < lines.len()
            invariant
                0 <= i <= lines@.len(),
                lines@.len() == lv.len(),
                forall|j: int| 0 <= j < lv.len() ==> (#[trigger] lines@[j])@ == lv[j],
                max == self.config.rules.line_length.max,
                max < usize::MAX,
                abs_seq(res@) == length_diags(file_path@, lv.take(i as int), max as nat),
            decreases lines@.len() - i,
        {
            let line = &lines[i];
            proof {
                assert(lv.take(i + 1).drop_last() =~= lv.take(i as int));
                assert(lv.take(i + 1).last() == lv[i as int]);
            }
            let bl = text::byte_len_chars(line);
            if bl > max as u128 {
                let mut msg: Vec<char> = Vec::new();
                text::push_str_chars(&mut msg, "Line too long (");
                text::push_dec_u128(bl, &mut msg);
                text::push_str_chars(&mut msg, " > ");
                text::push_dec(max, &mut msg);
                text::push_str_chars(&mut msg, ")");
                let r = LintResult {
                    file: String::from_str(file_path),
                    line: i + 1,
                    column: max + 1,
                    severity: Severity::Warning,
                    rule: String::from_str("line-length"),
                    message: text::chars_to_string(&msg),
                    snippet: text::chars_to_string(line),
                };
                proof {
                    assert(r.abs() == length_diag(file_path@, lv[i as int], (i + 1) as nat,
                        max as nat));
                }
                res.push(r);
                proof {
                    assert(abs_seq(res@) =~= length_diags(file_path@, lv.take(i + 1), max as nat));
                }
            } else {
                proof {
                    assert(abs_seq(res@) =~= length_diags(file_path@, lv.take(i + 1), max as nat));
                }
            }
            i += 1;
        }
        proof {
            assert(lv.take(lv.len() as int) =~= lv);
        }
        res
    }

    pub fn check_empty_lines(&self, content: &str, file_path: &str) -> (res: Vec<LintResult>)
        ensures
            abs_seq(res@) == empty_lines_diags(
                file_path@,
                text::lines_spec(content@),
                self.config.rules.empty_lines.max_consecutive as nat,
                self.config.rules.empty_lines.max_start as nat,
            ),
    {
        let maxc = self.config.rules.empty_lines.max_consecutive;
        let maxs = self.config.rules.empty_lines.max_start;
        let lines = text::split_lines(content);
        let ghost lv = text::lines_spec(content@);
        let mut res: Vec<LintResult> = Vec::new();
        let mut run: usize = 0;
        let mut i: usize = 0;
        while i < lines.len()
            invariant
                0 <= i <= lines@.len(),
                lines@.len() == lv.len(),
                forall|j: int| 0 <= j < lv.len() ==> (#[trigger] lines@[j])@ == lv[j],
                maxc == self.config.rules.empty_lines.max_consecutive,
                run == run_len(lv, i as int - 1),
                run <= i,
                abs_seq(res@) == interior_diags_upto(file_path@, lv, maxc as nat, i as int),
            decreases lines@.len() - i,
        {
            let line = &lines[i];
            if text::line_is_blank(line) {
                run = run + 1;
                proof {
                    assert(run_len(lv, i as int) == run);
                }
                if run > maxc {
                    let mut msg: Vec<char> = Vec::new();
                    text::push_str_chars(&mut msg, "Too many consecutive empty lines (");
                    text::push_dec(run, &mut msg);
                    text::push_str_chars(&mut msg, ")");
                    let r = LintResult {
                        file: String::from_str(file_path),
                        line: i + 1,
                        column: 1,
                        severity: Severity::Warning,
                        rule: String::from_str("empty-lines"),
                        message: text::chars_to_string(&msg),
                        snippet: String::new(),
                    };
                    proof {
                        reveal_strlit("");
                        assert(""@ =~= Seq::<char>::empty());
                        assert(r.abs() == consec_diag(file_path@, (i + 1) as nat, run as nat));
                    }
                    res.push(r);
                    proof {
                        assert(abs_seq(res@) =~= interior_diags_upto(file_path@, lv, maxc as nat,
                            i + 1));
                    }
                } else {
                    proof {
                        assert(abs_seq(res@) =~= interior_diags_upto(file_path@, lv, maxc as nat,
                            i + 1));
                    }
                }
            } else {
                run = 0;
                proof {
                    assert(run_len(lv, i as int) == 0);
                    assert(abs_seq(res@) =~= interior_diags_upto(file_path@, lv, maxc as nat,
                        i + 1));
                }
            }
            i += 1;
        }
        // blank lines at the start of the document
        proof {
            lemma_leading_blanks(lv);
        }
        let mut start_empty: usize = 0;
        while start_empty < lines.len() && text::line_is_blank(&lines[start_empty])
            invariant
                0 <= start_empty <= lines@.len(),
                lines@.len() == lv.len(),
                forall|j: int| 0 <= j < lv.len() ==> (#[trigger] lines@[j])@ == lv[j],
                forall|j: int| 0 <= j < start_empty ==> text::is_blank(#[trigger] lv[j]),
                leading_blanks(lv) <= lv.len(),
                forall|j: int| 0 <= j < leading_blanks(lv) ==> text::is_blank(#[trigger] lv[j]),
                leading_blanks(lv) < lv.len() ==> !text::is_blank(
                    lv[leading_blanks(lv) as int],
                ),
            decreases lines@.len() - start_empty,
        {
            start_empty += 1;
        }
        proof {
            assert(start_empty == leading_blanks(lv)) by {
                if start_empty < leading_blanks(lv) {
                    assert(text::is_blank(lv[start_empty as int]));
                }
            }
        }
        if start_empty > maxs {
            let mut msg: Vec<char> = Vec::new();
            text::push_str_chars(&mut msg, "Too many empty lines at start of file (");
            text::push_dec(start_empty, &mut msg);
            text::push_str_chars(&mut msg, ")");
            let r = LintResult {
                file: String::from_str(file_path),
                line: 1,
                column: 1,
                severity: Severity::Warning,
                rule: String::from_str("empty-lines"),
                message: text::chars_to_string(&msg),
                snippet: String::new(),
            };
            proof {
                reveal_strlit("");
                assert(""@ =~= Seq::<char>::empty());
                assert(r.abs() == start_diag(file_path@, leading_blanks(lv)));
            }
            res.push(r);
        }
        proof {
            assert(abs_seq(res@) =~= empty_lines_diags(file_path@, lv, maxc as nat, maxs as nat));
        }
        res
    }

    pub fn check_required_fields(&self, root: &Node, file_path: &str) -> (res: Vec<LintResult>)
        ensures
            abs_seq(res@) == required_diags(
                file_path@,
                yaml::abs_node(*root),
                paths_views(self.config.rules.required_fields.paths@),
            ),
    {
        let ghost g = yaml::abs_node(*root);
        let ghost pats = paths_views(self.config.rules.required_fields.paths@);
        let path_chars = text::str_to_chars(file_path);
        let mut res: Vec<LintResult> = Vec::new();
        let table = &self.config.rules.required_fields.paths;
        let mut pi: usize = 0;
        while pi < table.len()
            invariant
                0 <= pi <= table@.len(),
                path_chars@ == file_path@,
                g == yaml::abs_node(*root),
                pats == paths_views(self.config.rules.required_fields.paths@),
                table == self.config.rules.required_fields.paths,
                pats.len() == table@.len(),
                forall|p: int|
                    0 <= p < table@.len() ==> #[trigger] pats[p] == (table@[p].0@, config::str_views(
                        table@[p].1@,
                    )),
                abs_seq(res@) == required_diags(file_path@, g, pats.take(pi as int)),
            decreases table@.len() - pi,
        {
            proof {
                assert(pats.take(pi + 1).drop_last() =~= pats.take(pi as int));
                assert(pats.take(pi + 1).last() == pats[pi as int]);
            }
            let pat_chars = text::str_to_chars(table[pi].0.as_str());
            let core = text::trim_glob_exec(&pat_chars);
            if text::seq_contains(&path_chars, &core) {
                match root {
                    Node::Mapping(entries) => {
                        let ghost ges = yaml::abs_entries(entries@);
                        let fields = &table[pi].1;
                        let ghost fv = config::str_views(fields@);
                        let mut fi: usize = 0;
                        let ghost base = abs_seq(res@);
                        while fi < fields.len()
                            invariant
                                0 <= fi <= fields@.len(),
                                fv == config::str_views(fields@),
                                fv.len() == fields@.len(),
                                forall|q: int|
                                    0 <= q < fields@.len() ==> #[trigger] fv[q] == fields@[q]@,
                                ges == yaml::abs_entries(entries@),
                                path_chars@ == file_path@,
                                abs_seq(res@) == base + fields_diags(
                                    file_path@,
                                    ges,
                                    fv.take(fi as int),
                                ),
                            decreases fields@.len() - fi,
                        {
                            proof {
                                assert(fv.take(fi + 1).drop_last() =~= fv.take(fi as int));
                                assert(fv.take(fi + 1).last() == fv[fi as int]);
                            }
                            let field_chars = text::str_to_chars(fields[fi].as_str());
                            let parts = split_dots_exec(&field_chars);
                            proof {
                                assert(text::char_views(parts@) =~= split_dots(field_chars@));
                                assert(text::char_views(parts@).skip(0) =~= text::char_views(
                                    parts@,
                                ));
                            }
                            match walk_fields(entries, &parts, 0) {
                                Some(idx) => {
                                    let seg = &parts[idx];
                                    let mut msg: Vec<char> = Vec::new();
                                    text::push_str_chars(&mut msg, "Missing required field: ");
                                    let segs = text::chars_to_string(seg);
                                    text::push_str_chars(&mut msg, segs.as_str());
                                    proof {
                                        assert(msg@ =~= missing_message(parts@[idx as int]@));
                                        reveal_strlit("");
                                        assert(""@ =~= Seq::<char>::empty());
                                    }
                                    let r = LintResult {
                                        file: String::from_str(file_path),
                                        line: 1,
                                        column: 1,
                                        severity: Severity::Error,
                                        rule: String::from_str("required-fields"),
                                        message: text::chars_to_string(&msg),
                                        snippet: String::new(),
                                    };
                                    proof {
                                        assert(r.abs() == req_diag(file_path@, parts@[
                                            idx as int]@));
                                    }
                                    res.push(r);
                                    proof {
                                        let segval = parts@[idx as int]@;
                                        let pre = fields_diags(
                                            file_path@,
                                            ges,
                                            fv.take(fi as int),
                                        );
                                        assert(split_dots(fv[fi as int]) == text::char_views(
                                            parts@).skip(0));
                                        assert(first_missing(
                                            ges,
                                            split_dots(fv.take(fi + 1).last()),
                                        ) == Option::Some(segval));
                                        assert(fields_diags(file_path@, ges, fv.take(fi + 1))
                                            == pre + seq![req_diag(file_path@, segval)]);
                                        assert(abs_seq(res@) =~= (base + pre) + seq![
                                            req_diag(file_path@, segval)]);
                                        assert((base + pre) + seq![req_diag(file_path@, segval)]
                                            =~= base + (pre + seq![req_diag(file_path@, segval)]));
                                        assert(abs_seq(res@) =~= base + fields_diags(
                                            file_path@,
                                            ges,
                                            fv.take(fi + 1),
                                        ));
                                    }
                                },
                                None => {
                                    proof {
                                        assert(abs_seq(res@) =~= base + fields_diags(
                                            file_path@,
                                            ges,
                                            fv.take(fi + 1),
                                        ));
                                    }
                                },
                            }
                            fi += 1;
                        }
                        proof {
                            assert(fv.take(fv.len() as int) =~= fv);
                            assert(abs_seq(res@) =~= required_diags(file_path@, g, pats.take(
                                pi + 1)));
                        }
                    },
                    _ => {
                        proof {
                            assert(abs_seq(res@) =~= required_diags(file_path@, g, pats.take(
                                pi + 1)));
                        }
                    },
                }
            } else {
                proof {
                    assert(abs_seq(res@) =~= required_diags(file_path@, g, pats.take(pi + 1)));
                }
            }
            pi += 1;
        }
        proof {
            assert(pats.take(pats.len() as int) =~= pats);
        }
        res
    }

    pub fn check_value_types(&self, root: &Node, file_path: &str) -> (res: Vec<LintResult>)
        ensures
            abs_seq(res@) == value_types_diags(
                file_path@,
                yaml::abs_node(*root),
                self.config.rules.value_types.strict_numbers,
                self.config.rules.value_types.check_bool_values,
            ),
    {
        let mut res: Vec<LintResult> = Vec::new();
        self.visit_value(root, file_path, &mut res);
        proof {
            assert(abs_seq(Seq::<LintResult>::empty()) =~= Seq::<Diag>::empty());
        }
        res
    }

    /// Visits one node and everything below it, appending the value-type
    /// diagnostics its strings yield.
    #[verifier::loop_isolation(false)]
    pub fn visit_value(&self, value: &Node, file_path: &str, results: &mut Vec<LintResult>)
        ensures
            abs_seq(final(results)@) == abs_seq(old(results)@) + value_types_diags(
                file_path@,
                yaml::abs_node(*value),
                self.config.rules.value_types.strict_numbers,
                self.config.rules.value_types.check_bool_values,
            ),
        decreases *value,
    {
        let strict = self.config.rules.value_types.strict_numbers;
        let checkb = self.config.rules.value_types.check_bool_values;
        let ghost base = abs_seq(results@);
        match value {
            Node::Str(s) => {
                let sc = text::str_to_chars(s.as_str());
                if checkb && scalar::is_bool_like(&sc) {
                    let mut msg: Vec<char> = Vec::new();
                    text::push_str_chars(&mut msg, "Boolean-like string: '");
                    text::push_str_chars(&mut msg, s.as_str());
                    text::push_str_chars(&mut msg, "'. Consider using boolean type.");
                    proof {
                        assert(msg@ =~= bool_like_message(s@));
                    }
                    let r = LintResult {
                        file: String::from_str(file_path),
                        line: 1,
                        column: 1,
                        severity: Severity::Warning,
                        rule: String::from_str("value-types"),
                        message: text::chars_to_string(&msg),
                        snippet: s.clone(),
                    };
                    proof {
                        assert(r.abs() == vt_diag(file_path@, s@, bool_like_message(s@)));
                    }
                    results.push(r);
                }
                if strict && scalar::is_number_chars(&sc) {
                    let mut msg: Vec<char> = Vec::new();
                    text::push_str_chars(&mut msg, "Number-like string: '");
                    text::push_str_chars(&mut msg, s.as_str());
                    text::push_str_chars(&mut msg, "'. Consider using number type.");
                    proof {
                        assert(msg@ =~= number_like_message(s@));
                    }
                    let r = LintResult {
                        file: String::from_str(file_path),
                        line: 1,
                        column: 1,
                        severity: Severity::Warning,
                        rule: String::from_str("value-types"),
                        message: text::chars_to_string(&msg),
                        snippet: s.clone(),
                    };
                    proof {
                        assert(r.abs() == vt_diag(file_path@, s@, number_like_message(s@)));
                    }
                    results.push(r);
                }
                proof {
                    assert(abs_seq(results@) =~= base + vt_string_diags(file_path@, s@, strict,
                        checkb));
                }
            },
            Node::Sequence(items) => {
                proof {
                    yaml::lemma_abs_nodes(items@);
                }
                let ghost gitems = yaml::abs_nodes(items@);
                let mut k: usize = 0;
                proof {
                    assert(vt_items_diags(file_path@, gitems.take(0), strict, checkb)
                        =~= Seq::<Diag>::empty());
                    assert(abs_seq(results@) =~= base + vt_items_diags(file_path@, gitems.take(0),
                        strict, checkb));
                }
                while k < items.len()
                    invariant
                        0 <= k <= items@.len(),
                        gitems == yaml::abs_nodes(items@),
                        gitems.len() == items@.len(),
                        forall|p: int|
                            0 <= p < items@.len() ==> #[trigger] gitems[p] == yaml::abs_node(
                                items@[p],
                            ),
                        strict == self.config.rules.value_types.strict_numbers,
                        checkb == self.config.rules.value_types.check_bool_values,
                        abs_seq(results@) == base + vt_items_diags(
                            file_path@,
                            gitems.take(k as int),
                            strict,
                            checkb,
                        ),
                    decreases items@.len() - k,
                {
                    proof {
                        assert(gitems.take(k + 1).subrange(0, k as int) =~= gitems.take(k as int));
                        assert(gitems.take(k + 1)[k as int] == gitems[k as int]);
                    }
                    proof {
                        assert(*value is Sequence);
                        assert(decreases_to!(*value => value->Sequence_0));
                        assert(value->Sequence_0 == *items);
                        assert(decreases_to!(*value => *items));
                        assert(decreases_to!(*items => items@));
                        assert(decreases_to!(items@ => items@[k as int]));
                        assert(decreases_to!(*value => items@[k as int]));
                    }
                    self.visit_value(&items[k], file_path, results);
                    proof {
                        assert(abs_seq(results@) =~= base + vt_items_diags(file_path@,
                            gitems.take(k + 1), strict, checkb));
                    }
                    k += 1;
                }
                proof {
                    assert(gitems.take(gitems.len() as int) =~= gitems);
                }
            },
            Node::Mapping(entries) => {
                proof {
                    yaml::lemma_abs_entries(entries@);
                }
                let ghost ges = yaml::abs_entries(entries@);
                let mut k: usize = 0;
                proof {
                    assert(vt_entries_diags(file_path@, ges.take(0), strict, checkb)
                        =~= Seq::<Diag>::empty());
                    assert(abs_seq(results@) =~= base + vt_entries_diags(file_path@, ges.take(0),
                        strict, checkb));
                }
                while k < entries.len()
                    invariant
                        0 <= k <= entries@.len(),
                        ges == yaml::abs_entries(entries@),
                        ges.len() == entries@.len(),
                        forall|p: int|
                            0 <= p < entries@.len() ==> #[trigger] ges[p] == (entries@[p].0@,
                            yaml::abs_node(entries@[p].1)),
                        strict == self.config.rules.value_types.strict_numbers,
                        checkb == self.config.rules.value_types.check_bool_values,
                        abs_seq(results@) == base + vt_entries_diags(
                            file_path@,
                            ges.take(k as int),
                            strict,
                            checkb,
                        ),
                    decreases entries@.len() - k,
                {
                    proof {
                        assert(ges.take(k + 1).subrange(0, k as int) =~= ges.take(k as int));
                        assert(ges.take(k + 1)[k as int] == ges[k as int]);
                    }
                    proof {
                        assert(*value is Mapping);
                        assert(decreases_to!(*value => value->Mapping_0));
                        assert(value->Mapping_0 == *entries);
                        assert(decreases_to!(*value => *entries));
                        assert(decreases_to!(*entries => entries@));
                        assert(decreases_to!(entries@ => entries@[k as int]));
                        assert(decreases_to!(entries@[k as int] => entries@[k as int].1));
                        assert(decreases_to!(*value => entries@[k as int].1));
                    }
                    self.visit_value(&entries[k].1, file_path, results);
                    proof {
                        assert(abs_seq(results@) =~= base + vt_entries_diags(file_path@,
                            ges.take(k + 1), strict, checkb));
                    }
                    k += 1;
                }
                proof {
                    assert(ges.take(ges.len() as int) =~= ges);
                }
            },
            _ => {
                proof {
                    assert(abs_seq(results@) =~= base + Seq::<Diag>::empty());
                }
            },
        }
    }

    pub fn check_duplicates(&self, root: &Node, file_path: &str) -> (res: Vec<LintResult>)
        ensures
            abs_seq(res@) == duplicates_diags(
                file_path@,
                yaml::abs_node(*root),
                self.config.rules.duplicates.level,
            ),
    {
        let level = self.config.rules.duplicates.level;
        let mut res: Vec<LintResult> = Vec::new();
        match root {
            Node::Mapping(entries) => {
                proof {
                    yaml::lemma_abs_entries(entries@);
                }
                let ghost keys = mapping_keys(yaml::abs_entries(entries@));
                proof {
                    assert forall|p: int|
                        0 <= p < entries@.len() implies #[trigger] keys[p]
                        == entries@[p].0@ by {
                        assert(yaml::abs_entries(entries@)[p] == (entries@[p].0@, yaml::abs_node(
                            entries@[p].1)));
                    }
                }
                let mut i: usize = 0;
                while i < entries.len()
                    invariant
                        0 <= i <= entries@.len(),
                        keys == mapping_keys(yaml::abs_entries(entries@)),
                        keys.len() == entries@.len(),
                        forall|p: int| 0 <= p < entries@.len() ==> #[trigger] keys[p]
                            == entries@[p].0@,
                        level == self.config.rules.duplicates.level,
                        abs_seq(res@) == dup_diags_upto(file_path@, keys, level, i as int),
                    decreases entries@.len() - i,
                {
                    let mut seen = false;
                    let mut j: usize = 0;
                    let key_i = text::str_to_chars(entries[i].0.as_str());
                    while j < i
                        invariant
                            0 <= j <= i < entries@.len(),
                            key_i@ == entries@[i as int].0@,
                            keys.len() == entries@.len(),
                            forall|p: int| 0 <= p < entries@.len() ==> #[trigger] keys[p]
                                == entries@[p].0@,
                            seen ==> dup_flag(keys, i as int),
                            !seen ==> forall|q: int| 0 <= q < j ==> keys[q] != keys[i as int],
                        decreases i - j,
                    {
                        if !seen && text::chars_eq_str(&key_i, entries[j].0.as_str()) {
                            proof {
                                assert(keys[j as int] == keys[i as int]);
                            }
                            seen = true;
                        }
                        j += 1;
                    }
                    proof {
                        if !seen {
                            assert(!dup_flag(keys, i as int)) by {
                                if dup_flag(keys, i as int) {
                                    let w = choose|w: int|
                                        0 <= w < i && keys[w] == keys[i as int];
                                }
                            }
                        }
                    }
                    if seen {
                        let mut msg: Vec<char> = Vec::new();
                        text::push_str_chars(&mut msg, "Duplicate key: '");
                        text::push_str_chars(&mut msg, entries[i].0.as_str());
                        text::push_str_chars(&mut msg, "'");
                        proof {
                            assert(msg@ =~= dup_message(keys[i as int]));
                        }
                        let r = LintResult {
                            file: String::from_str(file_path),
                            line: 1,
                            column: 1,
                            severity: level,
                            rule: String::from_str("duplicates"),
                            message: text::chars_to_string(&msg),
                            snippet: entries[i].0.clone(),
                        };
                        proof {
                            assert(r.abs() == dup_diag(file_path@, keys[i as int], level));
                        }
                        res.push(r);
                        proof {
                            assert(abs_seq(res@) =~= dup_diags_upto(file_path@, keys, level,
                                i + 1));
                        }
                    } else {
                        proof {
                            assert(abs_seq(res@) =~= dup_diags_upto(file_path@, keys, level,
                                i + 1));
                        }
                    }
                    i += 1;
                }
            },
            _ => {},
        }
        proof {
            assert(abs_seq(res@) =~= duplicates_diags(file_path@, yaml::abs_node(*root), level));
        }
        res
    }

    /// Runs every rule against an already attempted parse: a failed parse
    /// short-circuits to exactly one syntax diagnostic, and a successful
    /// one runs the text rules and then the tree rules.
    pub fn check_parsed(
        &self,
        parsed: &Result<Node, yaml::ParseError>,
        content: &str,
        file_path: &str,
    ) -> (res: Vec<LintResult>)
        requires
            self.config.wf(),
        ensures
            parsed matches Err(e) ==> abs_seq(res@) == seq![
                syntax_diag(file_path@, content@, e.message@, e.line as nat),
            ],
            parsed matches Ok(root) ==> abs_seq(res@) == report_ok_spec(
                file_path@,
                content@,
                yaml::abs_node(*root),
                self.config,
            ),
    {
        match parsed {
            Err(e) => {
                let mut msg: Vec<char> = Vec::new();
                text::push_str_chars(&mut msg, "Syntax error: ");
                text::push_str_chars(&mut msg, e.message.as_str());
                text::push_str_chars(&mut msg, " at line ");
                text::push_dec(e.line, &mut msg);
                proof {
                    assert(msg@ =~= syntax_message(e.message@, e.line as nat));
                }
                let lines = text::split_lines(content);
                let snippet = if lines.len() > 0 {
                    text::chars_to_string(&lines[0])
                } else {
                    String::new()
                };
                let r = LintResult {
                    file: String::from_str(file_path),
                    line: 1,
                    column: 1,
                    severity: Severity::Error,
                    rule: String::from_str("syntax"),
                    message: text::chars_to_string(&msg),
                    snippet,
                };
                proof {
                    assert(r.abs() == syntax_diag(file_path@, content@, e.message@,
                        e.line as nat));
                }
                let mut res: Vec<LintResult> = Vec::new();
                res.push(r);
                proof {
                    assert(abs_seq(res@) =~= seq![
                        syntax_diag(file_path@, content@, e.message@, e.line as nat),
                    ]);
                }
                res
            },
            Ok(root) => {
                let ghost g = yaml::abs_node(*root);
                let mut res = self.check_indentation(content, file_path);
                let mut r2 = self.check_trailing_spaces(content, file_path);
                proof {
                    lemma_abs_seq_concat(res@, r2@);
                }
                res.append(&mut r2);
                let mut r3 = self.check_line_length(content, file_path);
                proof {
                    lemma_abs_seq_concat(res@, r3@);
                }
                res.append(&mut r3);
                let mut r4 = self.check_empty_lines(content, file_path);
                proof {
                    lemma_abs_seq_concat(res@, r4@);
                }
                res.append(&mut r4);
                proof {
                    assert(abs_seq(res@) =~= text_diags(file_path@, content@, self.config));
                }
                let mut r5 = self.check_required_fields(root, file_path);
                proof {
                    lemma_abs_seq_concat(res@, r5@);
                }
                res.append(&mut r5);
                let mut r6 = self.check_value_types(root, file_path);
                proof {
                    lemma_abs_seq_concat(res@, r6@);
                }
                res.append(&mut r6);
                let mut r7 = self.check_duplicates(root, file_path);
                proof {
                    lemma_abs_seq_concat(res@, r7@);
                }
                res.append(&mut r7);
                proof {
                    assert(abs_seq(res@) =~= report_ok_spec(file_path@, content@, g,
                        self.config));
                }
                res
            },
        }
    }

    /// Parses the document and checks it: the parse outcome decides
    /// between the single syntax diagnostic and the full rule run.
    pub fn check_file(&self, content: &str, file_path: &str) -> (res: Vec<LintResult>)
        requires
            self.config.wf(),
        ensures
            check_outcome(self.config, content@, file_path@, abs_seq(res@)),
    {
        let parsed = yaml::parse(content);
        let res = self.check_parsed(&parsed, content, file_path);
        proof {
            match parsed {
                Ok(root) => {
                    assert(yaml::parse_spec(content@) == Result::<
                        yaml::GNode,
                        (int, Seq<char>),
                    >::Ok(yaml::abs_node(root)));
                    assert(abs_seq(res@) == report_ok_spec(file_path@, content@, yaml::abs_node(
                        root), self.config));
                },
                Err(e) => {
                    assert(yaml::parse_spec(content@) == Result::<
                        yaml::GNode,
                        (int, Seq<char>),
                    >::Err((e.line as int, e.message@)));
                    assert(abs_seq(res@) == seq![
                        syntax_diag(file_path@, content@, e.message@, e.line as nat),
                    ]);
                },
            }
        }
        res
    }
}

// ---------- the required-fields rule ----------

/// A dotted field path split at every dot (an empty text is one empty
/// segment, as `str::split` has it).
pub open spec fn split_dots(s: Seq<char>) -> Seq<Seq<char>>
    decreases s.len(),
{
    let i = text::first_index(s, '.');
    if i >= s.len() {
        seq![s]
    } else {
        seq![s.take(i as int)] + split_dots(s.skip(i + 1 as int))
    }
}

/// The value of the first entry with the given key, if any.
pub open spec fn g_lookup(es: Seq<(Seq<char>, GNode)>, key: Seq<char>) -> Option<GNode>
    decreases es.len(),
{
    if es.len() == 0 {
        Option::None
    } else if es[0].0 == key {
        Option::Some(es[0].1)
    } else {
        g_lookup(es.subrange(1, es.len() as int), key)
    }
}

/// Walking a dotted path into nested mappings, the first segment that is
/// absent — descending stops silently when a present segment is not a
/// mapping, and succeeds once every segment was found.
pub open spec fn first_missing(es: Seq<(Seq<char>, GNode)>, parts: Seq<Seq<char>>) -> Option<
    Seq<char>,
>
    decreases parts.len(),
{
    if parts.len() == 0 {
        Option::None
    } else {
        match g_lookup(es, parts[0]) {
            Option::None => Option::Some(parts[0]),
            Option::Some(v) => {
                if parts.len() == 1 {
                    Option::None
                } else {
                    match v {
                        GNode::Mapping(es2) => first_missing(
                            es2,
                            parts.subrange(1, parts.len() as int),
                        ),
                        _ => Option::None,
                    }
                }
            },
        }
    }
}

pub open spec fn missing_message(seg: Seq<char>) -> Seq<char> {
    "Missing required field: "@ + seg
}

pub open spec fn req_diag(file: Seq<char>, seg: Seq<char>) -> Diag {
    Diag {
        file,
        line: 1,
        column: 1,
        severity: Severity::Error,
        rule: "required-fields"@,
        message: missing_message(seg),
        snippet: Seq::empty(),
    }
}

/// The diagnostics of one pattern's field list, one per field whose path
/// has a missing segment, in field order.
pub open spec fn fields_diags(
    file: Seq<char>,
    es: Seq<(Seq<char>, GNode)>,
    fields: Seq<Seq<char>>,
) -> Seq<Diag>
    decreases fields.len(),
{
    if fields.len() == 0 {
        Seq::empty()
    } else {
        fields_diags(file, es, fields.drop_last()) + (match first_missing(
            es,
            split_dots(fields.last()),
        ) {
            Option::Some(seg) => seq![req_diag(file, seg)],
            Option::None => Seq::empty(),
        })
    }
}

/// All diagnostics of the required-fields rule: for each configured
/// pattern whose trimmed core the file path contains, each required field
/// is checked independently against the root mapping.  A document whose
/// root is not a mapping yields nothing.
pub open spec fn required_diags(
    file: Seq<char>,
    g: GNode,
    pats: Seq<(Seq<char>, Seq<Seq<char>>)>,
) -> Seq<Diag>
    decreases pats.len(),
{
    if pats.len() == 0 {
        Seq::empty()
    } else {
        required_diags(file, g, pats.drop_last()) + (if text::contains_seq(
            file,
            text::trim_glob(pats.last().0),
        ) {
            match g {
                GNode::Mapping(es) => fields_diags(file, es, pats.last().1),
                _ => Seq::empty(),
            }
        } else {
            Seq::empty()
        })
    }
}

/// The views of the configured pattern table.
pub open spec fn paths_views(v: Seq<(String, Vec<String>)>) -> Seq<(Seq<char>, Seq<Seq<char>>)> {
    v.map_values(|p: (String, Vec<String>)| (p.0@, config::str_views(p.1@)))
}

// ---------- the value-types rule ----------

pub open spec fn bool_like_message(s: Seq<char>) -> Seq<char> {
    "Boolean-like string: '"@ + s + "'. Consider using boolean type."@
}

pub open spec fn number_like_message(s: Seq<char>) -> Seq<char> {
    "Number-like string: '"@ + s + "'. Consider using number type."@
}

pub open spec fn vt_diag(file: Seq<char>, s: Seq<char>, message: Seq<char>) -> Diag {
    Diag {
        file,
        line: 1,
        column: 1,
        severity: Severity::Warning,
        rule: "value-types"@,
        message,
        snippet: s,
    }
}

/// The diagnostics a single string leaf yields: a boolean-like warning,
/// a number-like warning, possibly both.
pub open spec fn vt_string_diags(file: Seq<char>, s: Seq<char>, strict: bool, checkb: bool) -> Seq<
    Diag,
> {
    (if checkb && scalar::bool_like(s) {
        seq![vt_diag(file, s, bool_like_message(s))]
    } else {
        Seq::empty()
    }) + (if strict && scalar::is_number(s) {
        seq![vt_diag(file, s, number_like_message(s))]
    } else {
        Seq::empty()
    })
}

/// All diagnostics of the value-types rule, visiting every node: string
/// leaves are tested, containers are traversed in order (mapping keys are
/// not visited), other leaves never flag.
pub open spec fn value_types_diags(file: Seq<char>, g: GNode, strict: bool, checkb: bool) -> Seq<
    Diag,
>
    decreases g, 1int,
{
    match g {
        GNode::Str(s) => vt_string_diags(file, s, strict, checkb),
        GNode::Sequence(items) => vt_items_diags(file, items, strict, checkb),
        GNode::Mapping(es) => vt_entries_diags(file, es, strict, checkb),
        _ => Seq::empty(),
    }
}

pub open spec fn vt_items_diags(
    file: Seq<char>,
    items: Seq<GNode>,
    strict: bool,
    checkb: bool,
) -> Seq<Diag>
    decreases items, 0int,
{
    if items.len() == 0 {
        Seq::empty()
    } else {
        vt_items_diags(file, items.subrange(0, items.len() - 1), strict, checkb)
            + value_types_diags(file, items[items.len() - 1], strict, checkb)
    }
}

pub open spec fn vt_entries_diags(
    file: Seq<char>,
    es: Seq<(Seq<char>, GNode)>,
    strict: bool,
    checkb: bool,
) -> Seq<Diag>
    decreases es, 0int,
{
    if es.len() == 0 {
        Seq::empty()
    } else {
        vt_entries_diags(file, es.subrange(0, es.len() - 1), strict, checkb) + value_types_diags(
            file,
            es[es.len() - 1].1,
            strict,
            checkb,
        )
    }
}

// ---------- the duplicate-keys rule ----------

pub open spec fn dup_message(k: Seq<char>) -> Seq<char> {
    "Duplicate key: '"@ + k + "'"@
}

pub open spec fn dup_diag(file: Seq<char>, k: Seq<char>, level: Severity) -> Diag {
    Diag {
        file,
        line: 1,
        column: 1,
        severity: level,
        rule: "duplicates"@,
        message: dup_message(k),
        snippet: k,
    }
}

/// A key occurrence is flagged when an earlier entry already used the
/// same key, so the second and every later occurrence flags once.
pub open spec fn dup_flag(keys: Seq<Seq<char>>, i: int) -> bool {
    exists|j: int| 0 <= j < i && keys[j] == keys[i]
}

pub open spec fn dup_diags_upto(file: Seq<char>, keys: Seq<Seq<char>>, level: Severity, k: int) -> Seq<
    Diag,
>
    decreases k,
{
    if k <= 0 {
        Seq::empty()
    } else {
        dup_diags_upto(file, keys, level, k - 1) + (if dup_flag(keys, k - 1) {
            seq![dup_diag(file, keys[k - 1], level)]
        } else {
            Seq::empty()
        })
    }
}

pub open spec fn mapping_keys(es: Seq<(Seq<char>, GNode)>) -> Seq<Seq<char>> {
    es.map_values(|e: (Seq<char>, GNode)| e.0)
}

/// All diagnostics of the duplicate-keys rule: only the root mapping is
/// examined, never nested mappings.
pub open spec fn duplicates_diags(file: Seq<char>, g: GNode, level: Severity) -> Seq<Diag> {
    match g {
        GNode::Mapping(es) => dup_diags_upto(
            file,
            mapping_keys(es),
            level,
            mapping_keys(es).len() as int,
        ),
        _ => Seq::empty(),
    }
}


// ---------- the whole check ----------

/// The first line of a document, empty when the document has none.
pub open spec fn first_line_spec(content: Seq<char>) -> Seq<char> {
    if text::lines_spec(content).len() == 0 {
        Seq::empty()
    } else {
        text::lines_spec(content)[0]
    }
}

pub open spec fn syntax_message(emsg: Seq<char>, eline: nat) -> Seq<char> {
    "Syntax error: "@ + emsg + " at line "@ + text::dec_digits(eline)
}

/// The single diagnostic of a failed parse: position `(1, 1)`, severity
/// `Error`, rule id `"syntax"`, the parser's error text embedded in the
/// message, and the document's first line as the snippet.
pub open spec fn syntax_diag(
    file: Seq<char>,
    content: Seq<char>,
    emsg: Seq<char>,
    eline: nat,
) -> Diag {
    Diag {
        file,
        line: 1,
        column: 1,
        severity: Severity::Error,
        rule: "syntax"@,
        message: syntax_message(emsg, eline),
        snippet: first_line_spec(content),
    }
}

/// The line-oriented diagnostics, in rule order: indentation, trailing
/// spaces, line length, empty lines.
pub open spec fn text_diags(file: Seq<char>, content: Seq<char>, cfg: Config) -> Seq<Diag> {
    let lines = text::lines_spec(content);
    indentation_diags(file, lines, cfg.rules.indentation.spaces as nat) + trailing_diags(
        file,
        lines,
        cfg.rules.trailing_spaces.level,
    ) + length_diags(file, lines, cfg.rules.line_length.max as nat) + empty_lines_diags(
        file,
        lines,
        cfg.rules.empty_lines.max_consecutive as nat,
        cfg.rules.empty_lines.max_start as nat,
    )
}

/// The tree-oriented diagnostics, in rule order: required fields, value
/// types, duplicate keys.
pub open spec fn tree_diags(file: Seq<char>, g: GNode, cfg: Config) -> Seq<Diag> {
    required_diags(file, g, paths_views(cfg.rules.required_fields.paths@)) + value_types_diags(
        file,
        g,
        cfg.rules.value_types.strict_numbers,
        cfg.rules.value_types.check_bool_values,
    ) + duplicates_diags(file, g, cfg.rules.duplicates.level)
}

/// Everything a well-formed document is checked against.
pub open spec fn report_ok_spec(file: Seq<char>, content: Seq<char>, g: GNode, cfg: Config) -> Seq<
    Diag,
> {
    text_diags(file, content, cfg) + tree_diags(file, g, cfg)
}

/// What a full check of one document produces, decided by the parse:
/// when [`yaml::parse_spec`] rejects the document, exactly the one
/// syntax diagnostic carrying that error's line and message; when it
/// accepts, exactly the seven rules' outputs against the parsed tree,
/// in order, with no syntax diagnostic among them.
pub open spec fn check_outcome(cfg: Config, content: Seq<char>, file: Seq<char>, ds: Seq<Diag>) -> bool {
    match yaml::parse_spec(content) {
        Result::Err(e) => ds == seq![syntax_diag(file, content, e.1, e.0 as nat)],
        Result::Ok(g) => ds == report_ok_spec(file, content, g, cfg),
    }
}

// ---------- lookup and path-walking helpers ----------

proof fn lemma_g_lookup_hit(es: Seq<(Seq<char>, GNode)>, key: Seq<char>, i: int)
    requires
        0 <= i < es.len(),
        es[i].0 == key,
        forall|j: int| 0 <= j < i ==> (#[trigger] es[j]).0 != key,
    ensures
        g_lookup(es, key) == Option::Some(es[i].1),
    decreases i,
{
    if i > 0 {
        assert(es[0].0 != key);
        let tail = es.subrange(1, es.len() as int);
        assert(tail[i - 1] == es[i]);
        assert forall|j: int| 0 <= j < i - 1 implies (#[trigger] tail[j]).0 != key by {
            assert(tail[j] == es[j + 1]);
        }
        lemma_g_lookup_hit(tail, key, i - 1);
    }
}

proof fn lemma_g_lookup_miss(es: Seq<(Seq<char>, GNode)>, key: Seq<char>)
    requires
        forall|j: int| 0 <= j < es.len() ==> (#[trigger] es[j]).0 != key,
    ensures
        g_lookup(es, key) is None,
    decreases es.len(),
{
    if es.len() > 0 {
        let tail = es.subrange(1, es.len() as int);
        assert forall|j: int| 0 <= j < tail.len() implies (#[trigger] tail[j]).0 != key by {
            assert(tail[j] == es[j + 1]);
        }
        lemma_g_lookup_miss(tail, key);
    }
}

fn map_lookup<'a>(entries: &'a Vec<(String, Node)>, key: &Vec<char>) -> (r: Option<&'a Node>)
    ensures
        ({
            let g = g_lookup(yaml::abs_entries(entries@), key@);
            match r {
                Option::Some(node) => g == Option::Some(yaml::abs_node(*node)),
                Option::None => g is None,
            }
        }),
{
    proof {
        yaml::lemma_abs_entries(entries@);
    }
    let ghost ges = yaml::abs_entries(entries@);
    let mut i: usize = 0;
    while i < entries.len()
        invariant
            0 <= i <= entries@.len(),
            ges == yaml::abs_entries(entries@),
            ges.len() == entries@.len(),
            forall|p: int|
                0 <= p < entries@.len() ==> #[trigger] ges[p] == (entries@[p].0@, yaml::abs_node(
                    entries@[p].1,
                )),
            forall|j: int| 0 <= j < i ==> (#[trigger] ges[j]).0 != key@,
        decreases entries@.len() - i,
    {
        if text::chars_eq_str(key, entries[i].0.as_str()) {
            proof {
                lemma_g_lookup_hit(ges, key@, i as int);
            }
            return Some(&entries[i].1);
        }
        i += 1;
    }
    proof {
        lemma_g_lookup_miss(ges, key@);
    }
    None
}

fn split_dots_exec(s: &Vec<char>) -> (parts: Vec<Vec<char>>)
    ensures
        parts@.len() == split_dots(s@).len(),
        forall|i: int| 0 <= i < parts@.len() ==> (#[trigger] parts@[i])@ == split_dots(s@)[i],
        parts@.len() >= 1,
{
    let mut parts: Vec<Vec<char>> = Vec::new();
    let mut pos: usize = 0;
    let n = s.len();
    proof {
        assert(s@.skip(0) =~= s@);
    }
    loop
        invariant
            0 <= pos <= n,
            n == s@.len(),
            parts@.len() + split_dots(s@.skip(pos as int)).len() == split_dots(s@).len(),
            forall|i: int|
                0 <= i < parts@.len() ==> (#[trigger] parts@[i])@ == split_dots(s@)[i],
            forall|i: int|
                0 <= i < split_dots(s@.skip(pos as int)).len() ==> #[trigger] split_dots(
                    s@.skip(pos as int),
                )[i] == split_dots(s@)[parts@.len() + i],
            split_dots(s@.skip(pos as int)).len() >= 1,
        decreases n - pos,
    {
        let ghost rest = s@.skip(pos as int);
        proof {
            text::lemma_first_index(rest, '.');
        }
        let mut j: usize = pos;
        while j < n && s[j] != '.'
            invariant
                pos <= j <= n,
                n == s@.len(),
                rest == s@.skip(pos as int),
                forall|k: int| pos <= k < j ==> s@[k] != '.',
            decreases n - j,
        {
            j += 1;
        }
        proof {
            assert forall|k: int| 0 <= k < j - pos implies rest[k] != '.' by {
                assert(rest[k] == s@[pos + k]);
            }
            if j < n {
                assert(rest[j - pos] == s@[j as int]);
            }
            assert(text::first_index(rest, '.') == j - pos) by {
                let f = text::first_index(rest, '.') as int;
                if f < j - pos {
                    assert(rest[f] == '.');
                } else if f > j - pos {
                    assert(rest[j - pos] != '.');
                }
            }
        }
        let mut seg: Vec<char> = Vec::new();
        let mut k: usize = pos;
        while k < j
            invariant
                pos <= k <= j <= n,
                n == s@.len(),
                seg@ == s@.subrange(pos as int, k as int),
            decreases j - k,
        {
            seg.push(s[k]);
            proof {
                assert(seg@ =~= s@.subrange(pos as int, k + 1));
            }
            k += 1;
        }
        let ghost pre = parts@;
        let ghost segv = seg@;
        parts.push(seg);
        if j < n {
            proof {
                let f = (j - pos) as int;
                assert(rest.take(f) =~= s@.subrange(pos as int, j as int));
                assert(segv =~= rest.take(f));
                assert(rest.skip(f + 1) =~= s@.skip(j + 1 as int));
                assert(split_dots(rest) == seq![rest.take(f)] + split_dots(s@.skip(j + 1 as int)));
                let rest2 = s@.skip(j + 1 as int);
                assert(split_dots(rest)[0] == segv);
                assert(split_dots(rest)[0] == split_dots(s@)[pre.len() as int + 0]);
                assert forall|i: int|
                    0 <= i < parts@.len() implies (#[trigger] parts@[i])@ == split_dots(s@)[i] by {
                    if i < pre.len() {
                        assert(parts@[i] == pre[i]);
                    } else {
                        assert(parts@[i] == seg);
                        assert(split_dots(s@)[pre.len() as int] == segv);
                    }
                }
                assert forall|i: int|
                    0 <= i < split_dots(rest2).len() implies #[trigger] split_dots(rest2)[i]
                    == split_dots(s@)[parts@.len() + i] by {
                    assert(split_dots(rest2)[i] == split_dots(rest)[i + 1]);
                    assert(split_dots(rest)[i + 1] == split_dots(s@)[pre.len() + i + 1]);
                }
            }
            pos = j + 1;
        } else {
            proof {
                assert(segv =~= rest);
                assert(split_dots(rest) == seq![rest]);
                assert(split_dots(rest)[0] == split_dots(s@)[pre.len() as int + 0]);
                assert forall|i: int|
                    0 <= i < parts@.len() implies (#[trigger] parts@[i])@ == split_dots(s@)[i] by {
                    if i < pre.len() {
                        assert(parts@[i] == pre[i]);
                    } else {
                        assert(parts@[i] == seg);
                        assert(split_dots(s@)[pre.len() as int] == rest);
                    }
                }
            }
            return parts;
        }
    }
}

fn walk_fields(entries: &Vec<(String, Node)>, parts: &Vec<Vec<char>>, k: usize) -> (r: Option<
    usize,
>)
    requires
        k <= parts@.len(),
    ensures
        ({
            let fm = first_missing(
                yaml::abs_entries(entries@),
                text::char_views(parts@).skip(k as int),
            );
            match r {
                Option::Some(idx) => k <= idx < parts@.len() && fm == Option::Some(
                    parts@[idx as int]@,
                ),
                Option::None => fm is None,
            }
        }),
    decreases parts@.len() - k,
{
    let ghost pv = text::char_views(parts@).skip(k as int);
    if k == parts.len() {
        return None;
    }
    proof {
        assert(pv[0] == parts@[k as int]@);
    }
    match map_lookup(entries, &parts[k]) {
        None => Some(k),
        Some(node) => {
            if k + 1 == parts.len() {
                None
            } else {
                match node {
                    Node::Mapping(es2) => {
                        proof {
                            assert(pv.subrange(1, pv.len() as int) =~= text::char_views(
                                parts@,
                            ).skip(k + 1));
                        }
                        walk_fields(es2, parts, k + 1)
                    },
                    _ => None,
                }
            }
        },
    }
}

/// Concatenation distributes through the abstraction of a result list.
pub proof fn lemma_abs_seq_concat(a: Seq<LintResult>, b: Seq<LintResult>)
    ensures
        abs_seq(a + b) == abs_seq(a) + abs_seq(b),
{
    assert(abs_seq(a + b) =~= abs_seq(a) + abs_seq(b));
}

// ---------- properties of the rules ----------

/// A failed parse yields one diagnostic, and it is a syntax error: the
/// checker's contract returns exactly one element for any parse error,
/// and that element carries rule id `"syntax"` and severity `Error`.
pub proof fn lemma_syntax_diag_shape(
    file: Seq<char>,
    content: Seq<char>,
    emsg: Seq<char>,
    eline: nat,
)
    ensures
        syntax_diag(file, content, emsg, eline).rule == "syntax"@,
        syntax_diag(file, content, emsg, eline).severity == Severity::Error,
        syntax_diag(file, content, emsg, eline).line == 1,
        syntax_diag(file, content, emsg, eline).column == 1,
{
}

/// The indentation rule flags a line exactly when the line is not blank
/// and its leading-space count is no multiple of the unit, for every
/// unit of at least one.
pub proof fn lemma_indentation_flags_iff(l: Seq<char>, unit: nat)
    requires
        unit >= 1,
    ensures
        indent_flag(l, unit) <==> (!text::is_blank(l) && text::leading_spaces(l) % unit != 0),
{
    text::lemma_leading_spaces(l);
    vstd::arithmetic::div_mod::lemma_small_mod(0, unit);
    if !text::is_blank(l) && text::leading_spaces(l) % unit != 0 {
        if l.len() == 0 {
            assert(text::is_blank(l));
        }
        if l[0] != ' ' {
            assert(text::leading_spaces(l) == 0);
            assert(text::leading_spaces(l) % unit == 0);
        }
    }
}

/// The trailing-spaces rule's detection is independent of the configured
/// severity: under any two severities the diagnostics agree in all but
/// the attached severity value.
pub proof fn lemma_trailing_severity_metadata(
    file: Seq<char>,
    lines: Seq<Seq<char>>,
    lv1: Severity,
    lv2: Severity,
)
    ensures
        trailing_diags(file, lines, lv1).len() == trailing_diags(file, lines, lv2).len(),
        forall|i: int|
            0 <= i < trailing_diags(file, lines, lv1).len()
                ==> #[trigger] trailing_diags(file, lines, lv1)[i] == (Diag {
                severity: lv1,
                ..trailing_diags(file, lines, lv2)[i]
            }),
    decreases lines.len(),
{
    if lines.len() > 0 {
        lemma_trailing_severity_metadata(file, lines.drop_last(), lv1, lv2);
        let d1 = trailing_diags(file, lines, lv1);
        let d2 = trailing_diags(file, lines, lv2);
        let p1 = trailing_diags(file, lines.drop_last(), lv1);
        let p2 = trailing_diags(file, lines.drop_last(), lv2);
        assert forall|i: int| 0 <= i < d1.len() implies #[trigger] d1[i] == Diag {
            severity: lv1,
            ..d2[i]
        } by {
            if i < p1.len() {
                assert(d1[i] == p1[i]);
                assert(d2[i] == p2[i]);
            }
        }
    }
}

/// A line ending in a space or a tab is flagged whatever the severity:
/// detection never depends on it.
pub proof fn lemma_trailing_always_flagged(l: Seq<char>, lv: Severity)
    requires
        l.len() > 0,
        l[l.len() - 1] == ' ' || l[l.len() - 1] == '\t',
    ensures
        trailing_flag(l),
{
}

/// Length boundary exactness: a line of strictly more bytes than the
/// maximum flags, one of exactly the maximum does not.
pub proof fn lemma_length_boundary(l: Seq<char>, max: nat)
    ensures
        length_flag(l, max) <==> text::byte_len(l) > max,
        text::byte_len(l) == max ==> !length_flag(l, max),
{
}

/// The two messages of the empty-lines rule can never coincide.
pub proof fn lemma_empty_messages_differ(k: nat, n: nat)
    ensures
        consecutive_message(k) != start_message(n),
{
    reveal_strlit("Too many consecutive empty lines (");
    reveal_strlit("Too many empty lines at start of file (");
    assert(consecutive_message(k)[9] == 'c');
    assert(start_message(n)[9] == 'e');
}

proof fn lemma_interior_no_start_message(
    file: Seq<char>,
    lines: Seq<Seq<char>>,
    maxc: nat,
    k: int,
    n: nat,
)
    ensures
        forall|i: int|
            0 <= i < interior_diags_upto(file, lines, maxc, k).len()
                ==> (#[trigger] interior_diags_upto(file, lines, maxc, k)[i]).message
                != start_message(n),
    decreases k,
{
    if k > 0 {
        lemma_interior_no_start_message(file, lines, maxc, k - 1, n);
        let ds = interior_diags_upto(file, lines, maxc, k);
        let pre = interior_diags_upto(file, lines, maxc, k - 1);
        assert forall|i: int|
            0 <= i < ds.len() implies (#[trigger] ds[i]).message != start_message(n) by {
            if i < pre.len() {
                assert(ds[i] == pre[i]);
            } else {
                lemma_empty_messages_differ(run_len(lines, k - 1), n);
            }
        }
    }
}

/// Exactly one start-of-file diagnostic is produced when, and only when,
/// the document opens with more blank lines than allowed; its count of
/// leading blanks is reported, and no other diagnostic of the rule can
/// be mistaken for it.
pub proof fn lemma_start_diag_exactly_once(
    file: Seq<char>,
    lines: Seq<Seq<char>>,
    maxc: nat,
    maxs: nat,
)
    ensures
        ({
            let ds = empty_lines_diags(file, lines, maxc, maxs);
            let n = leading_blanks(lines);
            &&& (n > maxs ==> ds.len() > 0 && ds.last() == start_diag(file, n) && (forall|i: int|
                0 <= i < ds.len() - 1 ==> (#[trigger] ds[i]).message != start_message(n)))
            &&& (n <= maxs ==> forall|i: int|
                0 <= i < ds.len() ==> (#[trigger] ds[i]).message != start_message(n))
        }),
{
    let n = leading_blanks(lines);
    lemma_interior_no_start_message(file, lines, maxc, lines.len() as int, n);
    let interior = interior_diags_upto(file, lines, maxc, lines.len() as int);
    let ds = empty_lines_diags(file, lines, maxc, maxs);
    if n > maxs {
        assert(ds == interior + seq![start_diag(file, n)]);
        assert forall|i: int|
            0 <= i < ds.len() - 1 implies (#[trigger] ds[i]).message != start_message(n) by {
            assert(ds[i] == interior[i]);
        }
    } else {
        assert(ds =~= interior);
    }
}

/// The duplicate-keys rule flags the second occurrence of a repeated
/// key at the root exactly once: a root mapping with keys `a`, `b`, `a`
/// yields the single diagnostic naming `a`.
pub proof fn lemma_duplicates_one_repeat(
    file: Seq<char>,
    a: Seq<char>,
    b: Seq<char>,
    va: GNode,
    vb: GNode,
    va2: GNode,
    level: Severity,
)
    requires
        a != b,
    ensures
        duplicates_diags(file, GNode::Mapping(seq![(a, va), (b, vb), (a, va2)]), level) == seq![
            dup_diag(file, a, level),
        ],
{
    let es = seq![(a, va), (b, vb), (a, va2)];
    let keys = mapping_keys(es);
    assert(keys.len() == 3);
    assert(keys[0] == a && keys[1] == b && keys[2] == a);
    assert(!dup_flag(keys, 0));
    assert(!dup_flag(keys, 1));
    assert(dup_flag(keys, 2)) by {
        assert(keys[0] == keys[2]);
    }
    assert(dup_diags_upto(file, keys, level, 0) == Seq::<Diag>::empty());
    assert(dup_diags_upto(file, keys, level, 1) =~= Seq::<Diag>::empty());
    assert(dup_diags_upto(file, keys, level, 2) =~= Seq::<Diag>::empty());
    assert(dup_diags_upto(file, keys, level, 3) =~= seq![dup_diag(file, a, level)]);
}

/// A root mapping with three distinct keys yields no duplicate
/// diagnostic at all.
pub proof fn lemma_duplicates_none_when_distinct(
    file: Seq<char>,
    a: Seq<char>,
    b: Seq<char>,
    c: Seq<char>,
    va: GNode,
    vb: GNode,
    vc: GNode,
    level: Severity,
)
    requires
        a != b,
        a != c,
        b != c,
    ensures
        duplicates_diags(file, GNode::Mapping(seq![(a, va), (b, vb), (c, vc)]), level)
            == Seq::<Diag>::empty(),
{
    let es = seq![(a, va), (b, vb), (c, vc)];
    let keys = mapping_keys(es);
    assert(keys.len() == 3);
    assert(keys[0] == a && keys[1] == b && keys[2] == c);
    assert(!dup_flag(keys, 0));
    assert(!dup_flag(keys, 1));
    assert(!dup_flag(keys, 2));
    assert(dup_diags_upto(file, keys, level, 0) == Seq::<Diag>::empty());
    assert(dup_diags_upto(file, keys, level, 1) =~= Seq::<Diag>::empty());
    assert(dup_diags_upto(file, keys, level, 2) =~= Seq::<Diag>::empty());
    assert(dup_diags_upto(file, keys, level, 3) =~= Seq::<Diag>::empty());
}

/// Walking a two-segment field path reports the outer segment when it is
/// absent from the root.
pub proof fn lemma_required_missing_outer(
    es: Seq<(Seq<char>, GNode)>,
    outer: Seq<char>,
    inner: Seq<char>,
)
    requires
        g_lookup(es, outer) is None,
    ensures
        first_missing(es, seq![outer, inner]) == Option::Some(outer),
{
}

/// Walking a two-segment field path reports the inner segment — not the
/// full dotted path — when the outer one is present as a mapping that
/// lacks the inner one.
pub proof fn lemma_required_missing_inner(
    es: Seq<(Seq<char>, GNode)>,
    es2: Seq<(Seq<char>, GNode)>,
    outer: Seq<char>,
    inner: Seq<char>,
)
    requires
        g_lookup(es, outer) == Option::Some(GNode::Mapping(es2)),
        g_lookup(es2, inner) is None,
    ensures
        first_missing(es, seq![outer, inner]) == Option::Some(inner),
{
    let parts = seq![outer, inner];
    assert(parts.subrange(1, 2) =~= seq![inner]);
    assert(first_missing(es2, seq![inner]) == Option::Some(inner));
}

/// Both segments present: the walk reports nothing.
pub proof fn lemma_required_all_present(
    es: Seq<(Seq<char>, GNode)>,
    es2: Seq<(Seq<char>, GNode)>,
    outer: Seq<char>,
    inner: Seq<char>,
    v: GNode,
)
    requires
        g_lookup(es, outer) == Option::Some(GNode::Mapping(es2)),
        g_lookup(es2, inner) == Option::Some(v),
    ensures
        first_missing(es, seq![outer, inner]) is None,
{
    let parts = seq![outer, inner];
    assert(parts.subrange(1, 2) =~= seq![inner]);
    assert(first_missing(es2, seq![inner]) is None);
}

proof fn lemma_fields_diags_cover(
    file: Seq<char>,
    es: Seq<(Seq<char>, GNode)>,
    fields: Seq<Seq<char>>,
    fi: int,
    seg: Seq<char>,
)
    requires
        0 <= fi < fields.len(),
        first_missing(es, split_dots(fields[fi])) == Option::Some(seg),
    ensures
        fields_diags(file, es, fields).contains(req_diag(file, seg)),
    decreases fields.len(),
{
    let whole = fields_diags(file, es, fields);
    let pre = fields_diags(file, es, fields.drop_last());
    if fi == fields.len() - 1 {
        assert(whole == pre + seq![req_diag(file, seg)]);
        assert(whole[whole.len() - 1] == req_diag(file, seg));
    } else {
        assert(fields.drop_last()[fi] == fields[fi]);
        lemma_fields_diags_cover(file, es, fields.drop_last(), fi, seg);
        let w = choose|w: int| 0 <= w < pre.len() && pre[w] == req_diag(file, seg);
        assert(whole[w] == req_diag(file, seg));
    }
}

proof fn lemma_required_diags_cover(
    file: Seq<char>,
    es: Seq<(Seq<char>, GNode)>,
    pats: Seq<(Seq<char>, Seq<Seq<char>>)>,
    pi: int,
    x: Diag,
)
    requires
        0 <= pi < pats.len(),
        text::contains_seq(file, text::trim_glob(pats[pi].0)),
        fields_diags(file, es, pats[pi].1).contains(x),
    ensures
        required_diags(file, GNode::Mapping(es), pats).contains(x),
    decreases pats.len(),
{
    let whole = required_diags(file, GNode::Mapping(es), pats);
    let pre = required_diags(file, GNode::Mapping(es), pats.drop_last());
    if pi == pats.len() - 1 {
        assert(whole == pre + fields_diags(file, es, pats[pi].1));
        let w = choose|w: int|
            0 <= w < fields_diags(file, es, pats[pi].1).len() && fields_diags(
                file,
                es,
                pats[pi].1,
            )[w] == x;
        assert(whole[pre.len() + w] == x);
    } else {
        assert(pats.drop_last()[pi] == pats[pi]);
        lemma_required_diags_cover(file, es, pats.drop_last(), pi, x);
        let w = choose|w: int| 0 <= w < pre.len() && pre[w] == x;
        assert(whole[w] == x);
    }
}

/// The required-fields rule over the whole configured table: whenever
/// some configured pattern's trimmed core is contained in the file path
/// and one of its fields splits into two segments whose outer one the
/// root mapping lacks, the rule's output holds the diagnostic naming
/// that outer segment.
pub proof fn lemma_required_table_missing_outer(
    file: Seq<char>,
    es: Seq<(Seq<char>, GNode)>,
    pats: Seq<(Seq<char>, Seq<Seq<char>>)>,
    pi: int,
    fi: int,
    outer: Seq<char>,
    inner: Seq<char>,
)
    requires
        0 <= pi < pats.len(),
        text::contains_seq(file, text::trim_glob(pats[pi].0)),
        0 <= fi < pats[pi].1.len(),
        split_dots(pats[pi].1[fi]) == seq![outer, inner],
        g_lookup(es, outer) is None,
    ensures
        required_diags(file, GNode::Mapping(es), pats).contains(req_diag(file, outer)),
{
    lemma_required_missing_outer(es, outer, inner);
    lemma_fields_diags_cover(file, es, pats[pi].1, fi, outer);
    lemma_required_diags_cover(file, es, pats, pi, req_diag(file, outer));
}

/// The companion over the whole table: when the outer segment is present
/// as a mapping that lacks the inner one, the rule's output holds the
/// diagnostic naming the inner segment — the first missing segment,
/// never the full dotted path.
pub proof fn lemma_required_table_missing_inner(
    file: Seq<char>,
    es: Seq<(Seq<char>, GNode)>,
    es2: Seq<(Seq<char>, GNode)>,
    pats: Seq<(Seq<char>, Seq<Seq<char>>)>,
    pi: int,
    fi: int,
    outer: Seq<char>,
    inner: Seq<char>,
)
    requires
        0 <= pi < pats.len(),
        text::contains_seq(file, text::trim_glob(pats[pi].0)),
        0 <= fi < pats[pi].1.len(),
        split_dots(pats[pi].1[fi]) == seq![outer, inner],
        g_lookup(es, outer) == Option::Some(GNode::Mapping(es2)),
        g_lookup(es2, inner) is None,
    ensures
        required_diags(file, GNode::Mapping(es), pats).contains(req_diag(file, inner)),
{
    lemma_required_missing_inner(es, es2, outer, inner);
    lemma_fields_diags_cover(file, es, pats[pi].1, fi, inner);
    lemma_required_diags_cover(file, es, pats, pi, req_diag(file, inner));
}

} // verus!
