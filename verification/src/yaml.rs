//! The document tree and its parser.
//!
//! A parsed document is a tagged value: mapping, sequence, string, number,
//! boolean or null.  A mapping is an ordered sequence of key-value entries
//! that preserves every pair as parsed — duplicate keys are kept, so the
//! duplicate-key rule has something to detect (a deduplicating map would
//! silently swallow them during parsing).
//!
//! The parser reads an indentation-structured subset of YAML: block
//! mappings (`key: value`, or `key:` with a nested block), block sequences
//! (`- item`, `-` with a nested block, or an inline `- key: value` entry),
//! full-line comments, quoted and plain scalars.  Flow collections
//! (`{a: 1}`, `[1, 2]`), anchors and aliases, folded and literal block
//! scalars, and multi-document streams are outside the subset: they fail
//! the parse and surface as a syntax diagnostic.  That narrowing is
//! deliberate — the duplicate-preserving tree rules out the usual full
//! parsers, and the checks need no more than the block shapes.
use vstd::prelude::*;
use crate::scalar;
use crate::text;

verus! {

broadcast use
    vstd::std_specs::vec::group_vec_axioms,
    vstd::seq::axiom_seq_index_decreases,
    vstd::seq::axiom_seq_subrange_decreases;

/// A node of the parsed document.
#[derive(Debug)]
pub enum Node {
    Null,
    Bool(bool),
    Num(String),
    Str(String),
    Sequence(Vec<Node>),
    Mapping(Vec<(String, Node)>),
}

/// The mathematical content of a [`Node`].
pub ghost enum GNode {
    Null,
    Bool(bool),
    Num(Seq<char>),
    Str(Seq<char>),
    Sequence(Seq<GNode>),
    Mapping(Seq<(Seq<char>, GNode)>),
}

pub open spec fn abs_node(n: Node) -> GNode
    decreases n,
{
    match n {
        Node::Null => GNode::Null,
        Node::Bool(b) => GNode::Bool(b),
        Node::Num(s) => GNode::Num(s@),
        Node::Str(s) => GNode::Str(s@),
        Node::Sequence(items) => GNode::Sequence(abs_nodes(items@)),
        Node::Mapping(entries) => GNode::Mapping(abs_entries(entries@)),
    }
}

pub open spec fn abs_nodes(s: Seq<Node>) -> Seq<GNode>
    decreases s,
{
    if s.len() == 0 {
        Seq::empty()
    } else {
        seq![abs_node(s[0])] + abs_nodes(s.subrange(1, s.len() as int))
    }
}

pub open spec fn abs_entries(s: Seq<(String, Node)>) -> Seq<(Seq<char>, GNode)>
    decreases s,
{
    if s.len() == 0 {
        Seq::empty()
    } else {
        seq![(s[0].0@, abs_node(s[0].1))] + abs_entries(s.subrange(1, s.len() as int))
    }
}

/// Indexing through the abstraction of a node sequence.
pub proof fn lemma_abs_nodes(s: Seq<Node>)
    ensures
        abs_nodes(s).len() == s.len(),
        forall|i: int| 0 <= i < s.len() ==> abs_nodes(s)[i] == abs_node(#[trigger] s[i]),
    decreases s.len(),
{
    if s.len() > 0 {
        lemma_abs_nodes(s.subrange(1, s.len() as int));
        assert forall|i: int| 0 <= i < s.len() implies abs_nodes(s)[i] == abs_node(
            #[trigger] s[i]) by {
            if i > 0 {
                assert(s.subrange(1, s.len() as int)[i - 1] == s[i]);
            }
        }
    }
}

/// Indexing through the abstraction of an entry sequence.
pub proof fn lemma_abs_entries(s: Seq<(String, Node)>)
    ensures
        abs_entries(s).len() == s.len(),
        forall|i: int|
            0 <= i < s.len() ==> abs_entries(s)[i] == ((#[trigger] s[i]).0@, abs_node(s[i].1)),
    decreases s.len(),
{
    if s.len() > 0 {
        lemma_abs_entries(s.subrange(1, s.len() as int));
        assert forall|i: int|
            0 <= i < s.len() implies abs_entries(s)[i] == ((#[trigger] s[i]).0@, abs_node(
            s[i].1)) by {
            if i > 0 {
                assert(s.subrange(1, s.len() as int)[i - 1] == s[i]);
            }
        }
    }
}

/// A failed parse: the 1-based line of the offence and a short message.
#[derive(Debug, Clone)]
pub struct ParseError {
    pub line: usize,
    pub message: String,
}

// ---------- scalars ----------

/// How one piece of (already trimmed, non-empty) scalar text reads: a
/// quoted span is a string with its quotes stripped; otherwise null,
/// boolean and number literals are recognized, and everything else is a
/// plain string.
pub open spec fn scalar_spec(t: Seq<char>) -> GNode {
    if t.len() >= 2 && ((t[0] == '"' && t[t.len() - 1] == '"') || (t[0] == '\'' && t[t.len() - 1]
        == '\'')) {
        GNode::Str(t.subrange(1, t.len() - 1))
    } else if scalar::null_lit(t) {
        GNode::Null
    } else if t == "true"@ {
        GNode::Bool(true)
    } else if t == "false"@ {
        GNode::Bool(false)
    } else if scalar::is_number(t) {
        GNode::Num(t)
    } else {
        GNode::Str(t)
    }
}

pub fn parse_scalar(t: &Vec<char>) -> (n: Node)
    ensures
        abs_node(n) == scalar_spec(t@),
{
    let len = t.len();
    if len >= 2 && ((t[0] == '"' && t[len - 1] == '"') || (t[0] == '\'' && t[len - 1] == '\'')) {
        let mid = text::sub_chars(t, 1, len - 1);
        Node::Str(text::chars_to_string(&mid))
    } else if scalar::is_null_lit(t) {
        Node::Null
    } else if text::chars_eq_str(t, "true") {
        Node::Bool(true)
    } else if text::chars_eq_str(t, "false") {
        Node::Bool(false)
    } else if scalar::is_number_chars(t) {
        Node::Num(text::chars_to_string(t))
    } else {
        Node::Str(text::chars_to_string(t))
    }
}

// ---------- significant lines ----------

/// A line that carries content: its 1-based number in the document, its
/// indentation (count of leading spaces), and its text from the first
/// non-space character on.
pub struct SigLine {
    pub num: usize,
    pub indent: usize,
    pub text: Vec<char>,
}

pub open spec fn wf_sig(s: SigLine) -> bool {
    &&& s.text@.len() > 0
    &&& s.num >= 1
    &&& s.indent + s.text@.len() <= usize::MAX
}

pub open spec fn wf_sigs(ls: Seq<SigLine>) -> bool {
    forall|i: int| 0 <= i < ls.len() ==> wf_sig(#[trigger] ls[i])
}

/// The mathematical content of a significant line.
pub ghost struct GSig {
    pub num: nat,
    pub indent: nat,
    pub text: Seq<char>,
}

pub open spec fn abs_sig(s: SigLine) -> GSig {
    GSig { num: s.num as nat, indent: s.indent as nat, text: s.text@ }
}

pub open spec fn abs_sigs(v: Seq<SigLine>) -> Seq<GSig> {
    v.map_values(|s: SigLine| abs_sig(s))
}

/// A full-line comment: the first character after the indenting spaces
/// is `#`.
pub open spec fn is_comment_line(l: Seq<char>) -> bool {
    &&& !text::is_blank(l)
    &&& text::leading_spaces(l) < l.len()
    &&& l[text::leading_spaces(l) as int] == '#'
}

/// A tab interrupting the indentation of a content line.
pub open spec fn is_tab_indent_line(l: Seq<char>) -> bool {
    &&& !text::is_blank(l)
    &&& text::leading_spaces(l) < l.len()
    &&& l[text::leading_spaces(l) as int] == '\t'
}

/// The significant lines of a document from line index `i` on, numbered
/// from one and stripped of their indenting spaces — or the 1-based line
/// of the first tab-in-indentation offence.  Blank lines and full-line
/// comments carry nothing.
pub open spec fn sigs_spec(lines: Seq<Seq<char>>, i: int) -> Result<Seq<GSig>, int>
    decreases lines.len() - i,
{
    if i < 0 || i >= lines.len() {
        Result::Ok(Seq::empty())
    } else {
        let l = lines[i];
        if text::is_blank(l) || is_comment_line(l) {
            sigs_spec(lines, i + 1)
        } else if is_tab_indent_line(l) {
            Result::Err(i + 1)
        } else {
            match sigs_spec(lines, i + 1) {
                Result::Err(e) => Result::Err(e),
                Result::Ok(rest) => Result::Ok(
                    seq![
                        GSig {
                            num: (i + 1) as nat,
                            indent: text::leading_spaces(l),
                            text: l.skip(text::leading_spaces(l) as int),
                        },
                    ] + rest,
                ),
            }
        }
    }
}

/// Separates the significant lines of a document from blanks and
/// full-line comments; rejects a tab in the indentation of a significant
/// line (the classical YAML restriction).  The result is exactly what
/// `sigs_spec` describes.
pub fn sig_lines(lines: &Vec<Vec<char>>) -> (r: Result<Vec<SigLine>, ParseError>)
    ensures
        r matches Ok(v) ==> wf_sigs(v@) && sigs_spec(text::char_views(lines@), 0)
            == Result::<Seq<GSig>, int>::Ok(abs_sigs(v@)),
        r matches Err(e) ==> e.line >= 1 && e.message@.len() > 0 && e.message@
            == "tab character in indentation"@ && sigs_spec(text::char_views(lines@), 0)
            == Result::<Seq<GSig>, int>::Err(e.line as int),
        lines@.len() == 0 ==> (r matches Ok(v) && v@.len() == 0),
{
    let ghost lv = text::char_views(lines@);
    let mut out: Vec<SigLine> = Vec::new();
    let mut i: usize = 0;
    proof {
        assert(lv.len() == lines@.len());
        assert forall|j: int| 0 <= j < lv.len() implies #[trigger] lv[j] == lines@[j]@ by {}
        assert(abs_sigs(out@) + Seq::<GSig>::empty() =~= abs_sigs(out@));
    }
    while i < lines.len()
        invariant
            0 <= i <= lines@.len(),
            out@.len() <= i,
            wf_sigs(out@),
            lv == text::char_views(lines@),
            lv.len() == lines@.len(),
            forall|j: int| 0 <= j < lv.len() ==> #[trigger] lv[j] == lines@[j]@,
            sigs_spec(lv, 0) == (match sigs_spec(lv, i as int) {
                Result::<Seq<GSig>, int>::Ok(rest) => Result::<Seq<GSig>, int>::Ok(
                    abs_sigs(out@) + rest,
                ),
                Result::<Seq<GSig>, int>::Err(e) => Result::<Seq<GSig>, int>::Err(e),
            }),
        decreases lines@.len() - i,
    {
        let line = &lines[i];
        if !text::line_is_blank(line) {
            let k = text::count_leading_spaces(line);
            proof {
                text::lemma_leading_spaces(line@);
                if k == line@.len() {
                    assert forall|j: int| 0 <= j < line@.len() implies text::is_line_ws(
                        #[trigger] line@[j]) by {}
                }
            }
            let c = line[k];
            if c == '\t' {
                let mut msg: Vec<char> = Vec::new();
                text::push_str_chars(&mut msg, "tab character in indentation");
                proof {
                    reveal_strlit("tab character in indentation");
                    assert(is_tab_indent_line(lv[i as int]));
                    assert(!is_comment_line(lv[i as int]));
                    assert(sigs_spec(lv, i as int) == Result::<Seq<GSig>, int>::Err(i + 1));
                    assert(Seq::<char>::empty() + "tab character in indentation"@
                        =~= "tab character in indentation"@);
                }
                return Err(
                    ParseError { line: i + 1, message: text::chars_to_string(&msg) },
                );
            }
            if c != '#' {
                let rest = text::sub_chars(line, k, line.len());
                let sig = SigLine { num: i + 1, indent: k, text: rest };
                proof {
                    assert(wf_sig(sig));
                    assert(!is_comment_line(lv[i as int]));
                    assert(!is_tab_indent_line(lv[i as int]));
                    assert(abs_sig(sig) == (GSig {
                        num: (i + 1) as nat,
                        indent: text::leading_spaces(lv[i as int]),
                        text: lv[i as int].skip(text::leading_spaces(lv[i as int]) as int),
                    })) by {
                        assert(sig.text@ =~= lv[i as int].skip(k as int));
                    }
                }
                let ghost pre = out@;
                out.push(sig);
                proof {
                    match sigs_spec(lv, i + 1) {
                        Result::<Seq<GSig>, int>::Ok(rest2) => {
                            assert(sigs_spec(lv, i as int) == Result::<Seq<GSig>, int>::Ok(
                                seq![abs_sig(sig)] + rest2,
                            ));
                            assert(abs_sigs(out@) =~= abs_sigs(pre).push(abs_sig(sig)));
                            assert(abs_sigs(pre) + (seq![abs_sig(sig)] + rest2)
                                =~= abs_sigs(out@) + rest2);
                        },
                        Result::<Seq<GSig>, int>::Err(_) => {},
                    }
                }
            } else {
                proof {
                    assert(is_comment_line(lv[i as int]));
                    assert(sigs_spec(lv, i as int) == sigs_spec(lv, i + 1));
                }
            }
        } else {
            proof {
                assert(text::is_blank(lv[i as int]));
                assert(sigs_spec(lv, i as int) == sigs_spec(lv, i + 1));
            }
        }
        i += 1;
    }
    proof {
        assert(sigs_spec(lv, i as int) == Result::<Seq<GSig>, int>::Ok(Seq::empty()));
        assert(abs_sigs(out@) + Seq::<GSig>::empty() =~= abs_sigs(out@));
    }
    Ok(out)
}

// ---------- line-shape helpers ----------

/// A sequence-item line: a dash standing alone or followed by a space.
pub open spec fn is_item_text(t: Seq<char>) -> bool {
    t.len() > 0 && t[0] == '-' && (t.len() == 1 || t[1] == ' ')
}

pub fn is_item(t: &Vec<char>) -> (r: bool)
    requires
        t@.len() > 0,
    ensures
        r == is_item_text(t@),
{
    t[0] == '-' && (t.len() == 1 || t[1] == ' ')
}

/// A key-value separator: a colon that ends the line or is followed by a
/// space.
pub open spec fn is_sep_at(t: Seq<char>, j: int) -> bool {
    0 <= j < t.len() && t[j] == ':' && (j + 1 == t.len() || t[j + 1] == ' ')
}

pub fn find_sep(t: &Vec<char>) -> (r: Option<usize>)
    ensures
        r matches Some(j) ==> is_sep_at(t@, j as int) && (forall|p: int|
            0 <= p < j ==> !is_sep_at(t@, p)),
        r is None ==> forall|p: int| !is_sep_at(t@, p),
{
    let n = t.len();
    let mut j: usize = 0;
    while j < n
        invariant
            0 <= j <= n,
            n == t@.len(),
            forall|p: int| 0 <= p < j ==> !is_sep_at(t@, p),
        decreases n - j,
    {
        if t[j] == ':' && (j + 1 == n || t[j + 1] == ' ') {
            return Some(j);
        }
        j += 1;
    }
    None
}

/// Strips a full-line comment marker: text opening with `#` reads as
/// empty.
pub open spec fn uncomment(t: Seq<char>) -> Seq<char> {
    if t.len() > 0 && t[0] == '#' {
        Seq::empty()
    } else {
        t
    }
}

fn uncomment_exec(t: Vec<char>) -> (r: Vec<char>)
    ensures
        r@ == uncomment(t@),
{
    if t.len() > 0 && t[0] == '#' {
        Vec::new()
    } else {
        t
    }
}

/// A mapping key with matching quotes around it loses them.
pub open spec fn unquote_key(k: Seq<char>) -> Seq<char> {
    if k.len() >= 2 && ((k[0] == '"' && k[k.len() - 1] == '"') || (k[0] == '\'' && k[k.len() - 1]
        == '\'')) {
        k.subrange(1, k.len() - 1)
    } else {
        k
    }
}

fn unquote_key_exec(k: Vec<char>) -> (r: Vec<char>)
    ensures
        r@ == unquote_key(k@),
{
    let len = k.len();
    if len >= 2 && ((k[0] == '"' && k[len - 1] == '"') || (k[0] == '\'' && k[len - 1] == '\'')) {
        text::sub_chars(&k, 1, len - 1)
    } else {
        k
    }
}


/// Index of the first key-value separator, or the length when none
/// exists.
pub open spec fn first_sep(t: Seq<char>) -> nat
    decreases t.len(),
{
    if t.len() == 0 {
        0
    } else if t[0] == ':' && (t.len() == 1 || t[1] == ' ') {
        0
    } else {
        (1 + first_sep(t.skip(1))) as nat
    }
}

pub proof fn lemma_first_sep(t: Seq<char>)
    ensures
        first_sep(t) <= t.len(),
        first_sep(t) < t.len() ==> is_sep_at(t, first_sep(t) as int),
        forall|p: int| 0 <= p < first_sep(t) ==> !is_sep_at(t, p),
    decreases t.len(),
{
    if t.len() > 0 && !(t[0] == ':' && (t.len() == 1 || t[1] == ' ')) {
        let tail = t.skip(1);
        lemma_first_sep(tail);
        let f = first_sep(t) as int;
        assert forall|p: int| 0 <= p < f implies !is_sep_at(t, p) by {
            if p > 0 {
                assert(!is_sep_at(tail, p - 1));
                if is_sep_at(t, p) {
                    assert(tail[p - 1] == t[p]);
                    if p + 1 < t.len() {
                        assert(tail[p] == t[p + 1]);
                    }
                    assert(is_sep_at(tail, p - 1));
                }
            }
        }
        if f < t.len() {
            assert(is_sep_at(tail, f - 1));
            assert(t[f] == tail[f - 1]);
            if f < t.len() - 1 {
                assert(t[f + 1] == tail[f]);
            }
        }
    }
}

/// The key a mapping-entry line carries: the text before its first
/// separator, trimmed and unquoted.
pub open spec fn key_of(t: Seq<char>) -> Seq<char> {
    unquote_key(text::trim_ws(t.subrange(0, first_sep(t) as int)))
}

pub open spec fn gkeys(es: Seq<(Seq<char>, GNode)>) -> Seq<Seq<char>> {
    es.map_values(|e: (Seq<char>, GNode)| e.0)
}

/// The keys of the mapping entries among the significant lines of
/// `[from, to)` at exactly indentation `d`, in order: a line at that
/// indentation that is not a sequence item is an entry.
pub open spec fn entry_keys(sigs: Seq<GSig>, from: int, to: int, d: nat) -> Seq<Seq<char>>
    decreases to - from,
{
    if from < 0 || from >= to || to > sigs.len() {
        Seq::empty()
    } else {
        (if sigs[from].indent == d && !is_item_text(sigs[from].text) {
            seq![key_of(sigs[from].text)]
        } else {
            Seq::empty()
        }) + entry_keys(sigs, from + 1, to, d)
    }
}

pub proof fn lemma_entry_keys_split(sigs: Seq<GSig>, a: int, m: int, b: int, d: nat)
    requires
        0 <= a <= m <= b <= sigs.len(),
    ensures
        entry_keys(sigs, a, b, d) == entry_keys(sigs, a, m, d) + entry_keys(sigs, m, b, d),
    decreases m - a,
{
    if a == m {
        assert(entry_keys(sigs, a, m, d) == Seq::<Seq<char>>::empty());
        assert(entry_keys(sigs, a, b, d) =~= entry_keys(sigs, a, m, d) + entry_keys(
            sigs,
            m,
            b,
            d,
        ));
    } else {
        lemma_entry_keys_split(sigs, a + 1, m, b, d);
        if a + 1 <= m && m <= b {
            assert(entry_keys(sigs, a + 1, b, d) == entry_keys(sigs, a + 1, m, d) + entry_keys(
                sigs,
                m,
                b,
                d,
            ));
        }
        assert(entry_keys(sigs, a, b, d) =~= entry_keys(sigs, a, m, d) + entry_keys(
            sigs,
            m,
            b,
            d,
        ));
    }
}

pub proof fn lemma_entry_keys_none(sigs: Seq<GSig>, a: int, b: int, d: nat)
    requires
        forall|k: int|
            a <= k < b ==> !((#[trigger] sigs[k]).indent == d && !is_item_text(sigs[k].text)),
    ensures
        entry_keys(sigs, a, b, d) == Seq::<Seq<char>>::empty(),
    decreases b - a,
{
    if 0 <= a && a < b && b <= sigs.len() {
        lemma_entry_keys_none(sigs, a + 1, b, d);
        assert(entry_keys(sigs, a, b, d) =~= Seq::<Seq<char>>::empty());
    } else {
        assert(entry_keys(sigs, a, b, d) == Seq::<Seq<char>>::empty());
    }
}

// ---------- the block parser ----------

fn bad_indent_err(num: usize) -> (e: ParseError)
    ensures
        e.line == num,
        e.message@.len() > 0,
        e.message@ == "bad indentation"@,
{
    let mut msg: Vec<char> = Vec::new();
    text::push_str_chars(&mut msg, "bad indentation");
    proof {
        reveal_strlit("bad indentation");
        assert(msg@ =~= "bad indentation"@);
    }
    ParseError { line: num, message: text::chars_to_string(&msg) }
}

/// Lines in `[a, b)` all sit at or right of indentation `d`.
pub open spec fn range_ge(ls: Seq<SigLine>, a: int, b: int, d: nat) -> bool {
    forall|k: int| a <= k < b ==> (#[trigger] ls[k]).indent >= d
}

/// Lines in `[a, b)` all sit at or right of indentation `d`, and those
/// exactly at `d` are sequence items.
pub open spec fn range_items_at(ls: Seq<SigLine>, a: int, b: int, d: nat) -> bool {
    forall|k: int|
        a <= k < b ==> (#[trigger] ls[k]).indent >= d && (ls[k].indent == d ==> is_item_text(
            ls[k].text@,
        ))
}

// ---------- the grammar, as one spec ----------
//
// The four spec functions below define the block grammar outright: what
// each parsing function returns, for every input — the tree (or error
// line and message) and the index of the first unconsumed line.  The
// executable parser is proved equal to them.  `clampi` keeps the spec
// recursion well-founded on its own; the proofs show the clamps never
// bind.

pub open spec fn clampi(j: int, lo: int, hi: int) -> int {
    if j < lo {
        lo
    } else if j > hi {
        hi
    } else {
        j
    }
}

/// The value of an entry whose key stands on line `i` with payload
/// indentation `dd`: its inline text when present, else a deeper block,
/// a sequence at `dd`, or null.
pub open spec fn s_entry_value(sigs: Seq<GSig>, i: int, dd: nat, vtext: Seq<char>) -> Result<
    (GNode, int),
    (int, Seq<char>),
>
    decreases sigs.len() - i, 0int,
{
    if i < 0 || i >= sigs.len() {
        Result::Ok((GNode::Null, i + 1))
    } else if vtext.len() > 0 {
        Result::Ok((scalar_spec(vtext), i + 1))
    } else if i + 1 < sigs.len() && sigs[i + 1].indent > dd {
        s_block(sigs, i + 1)
    } else if i + 1 < sigs.len() && sigs[i + 1].indent == dd && is_item_text(sigs[i + 1].text) {
        match s_seq_items(sigs, i + 1, dd) {
            Result::Err(e) => Result::Err(e),
            Result::Ok((items, j)) => Result::Ok((GNode::Sequence(items), j)),
        }
    } else {
        Result::Ok((GNode::Null, i + 1))
    }
}

/// Consecutive sequence items at exactly indentation `d` from line `i`:
/// a dash alone takes a nested block or is null, an inline `key: value`
/// payload opens a mapping continued at the payload's indentation, and
/// any other payload is a scalar.  A deeper line after an item is a
/// `bad indentation` error at that line.
pub open spec fn s_seq_items(sigs: Seq<GSig>, i: int, d: nat) -> Result<
    (Seq<GNode>, int),
    (int, Seq<char>),
>
    decreases sigs.len() - i, 1int,
{
    if i < 0 || i >= sigs.len() || sigs[i].indent != d || !is_item_text(sigs[i].text) {
        Result::Ok((Seq::empty(), i))
    } else {
        let t = sigs[i].text;
        let rest_raw = t.skip(1);
        let off = 1 + text::leading_spaces(rest_raw);
        let rest = uncomment(text::trim_ws(rest_raw));
        if rest.len() == 0 {
            if i + 1 < sigs.len() && sigs[i + 1].indent > d {
                match s_block(sigs, i + 1) {
                    Result::Err(e) => Result::Err(e),
                    Result::Ok((node, j2r)) => {
                        let j2 = clampi(j2r, i + 1, sigs.len() as int);
                        if j2 < sigs.len() && sigs[j2].indent > d {
                            Result::Err((sigs[j2].num as int, "bad indentation"@))
                        } else {
                            match s_seq_items(sigs, j2, d) {
                                Result::Err(e) => Result::Err(e),
                                Result::Ok((items, jf)) => Result::Ok(
                                    (seq![node] + items, jf),
                                ),
                            }
                        }
                    },
                }
            } else {
                match s_seq_items(sigs, i + 1, d) {
                    Result::Err(e) => Result::Err(e),
                    Result::Ok((items, jf)) => Result::Ok((seq![GNode::Null] + items, jf)),
                }
            }
        } else if first_sep(rest) < rest.len() {
            let p = first_sep(rest) as int;
            let key = unquote_key(text::trim_ws(rest.subrange(0, p)));
            if key.len() == 0 {
                Result::Err((sigs[i].num as int, "expected a key before ':'"@))
            } else {
                let vtext = uncomment(text::trim_ws(rest.subrange(p + 1, rest.len() as int)));
                let dd = d + off;
                match s_entry_value(sigs, i, dd, vtext) {
                    Result::Err(e) => Result::Err(e),
                    Result::Ok((v0, j2r)) => {
                        let j2 = clampi(j2r, i + 1, sigs.len() as int);
                        match (if j2 < sigs.len() {
                            s_map_entries(sigs, j2, dd)
                        } else {
                            Result::Ok((Seq::empty(), j2))
                        }) {
                            Result::Err(e) => Result::Err(e),
                            Result::Ok((entries, j3r)) => {
                                let j3 = clampi(j3r, j2, sigs.len() as int);
                                if j3 < sigs.len() && sigs[j3].indent > d {
                                    Result::Err((sigs[j3].num as int, "bad indentation"@))
                                } else {
                                    match s_seq_items(sigs, j3, d) {
                                        Result::Err(e) => Result::Err(e),
                                        Result::Ok((items, jf)) => Result::Ok(
                                            (
                                                seq![
                                                    GNode::Mapping(seq![(key, v0)] + entries),
                                                ] + items,
                                                jf,
                                            ),
                                        ),
                                    }
                                }
                            },
                        }
                    },
                }
            }
        } else {
            let node = scalar_spec(rest);
            if i + 1 < sigs.len() && sigs[i + 1].indent > d {
                Result::Err((sigs[i + 1].num as int, "bad indentation"@))
            } else {
                match s_seq_items(sigs, i + 1, d) {
                    Result::Err(e) => Result::Err(e),
                    Result::Ok((items, jf)) => Result::Ok((seq![node] + items, jf)),
                }
            }
        }
    }
}

/// Consecutive mapping entries at exactly indentation `d` from line `i`:
/// a line there without a separator is an error, an empty key is an
/// error, and a deeper line after an entry's value is a
/// `bad indentation` error at that line.
pub open spec fn s_map_entries(sigs: Seq<GSig>, i: int, d: nat) -> Result<
    (Seq<(Seq<char>, GNode)>, int),
    (int, Seq<char>),
>
    decreases sigs.len() - i, 1int,
{
    if i < 0 || i >= sigs.len() || sigs[i].indent != d || is_item_text(sigs[i].text) {
        Result::Ok((Seq::empty(), i))
    } else {
        let t = sigs[i].text;
        if first_sep(t) >= t.len() {
            Result::Err((sigs[i].num as int, "expected ':' in mapping entry"@))
        } else {
            let p = first_sep(t) as int;
            let key = unquote_key(text::trim_ws(t.subrange(0, p)));
            if key.len() == 0 {
                Result::Err((sigs[i].num as int, "expected a key before ':'"@))
            } else {
                let vtext = uncomment(text::trim_ws(t.subrange(p + 1, t.len() as int)));
                match s_entry_value(sigs, i, d, vtext) {
                    Result::Err(e) => Result::Err(e),
                    Result::Ok((v, j2r)) => {
                        let j2 = clampi(j2r, i + 1, sigs.len() as int);
                        if j2 < sigs.len() && sigs[j2].indent > d {
                            Result::Err((sigs[j2].num as int, "bad indentation"@))
                        } else {
                            match s_map_entries(sigs, j2, d) {
                                Result::Err(e) => Result::Err(e),
                                Result::Ok((entries, jf)) => Result::Ok(
                                    (seq![(key, v)] + entries, jf),
                                ),
                            }
                        }
                    },
                }
            }
        }
    }
}

/// The block opening at line `i`, read from that line's indentation: an
/// item line opens a sequence, a separator line opens a mapping, and a
/// plain line is one scalar.
pub open spec fn s_block(sigs: Seq<GSig>, i: int) -> Result<(GNode, int), (int, Seq<char>)>
    decreases sigs.len() - i, 2int,
{
    if i < 0 || i >= sigs.len() {
        Result::Err((1, "bad indentation"@))
    } else {
        let d = sigs[i].indent;
        if is_item_text(sigs[i].text) {
            match s_seq_items(sigs, i, d) {
                Result::Err(e) => Result::Err(e),
                Result::Ok((items, j)) => {
                    if j == i {
                        Result::Err((sigs[i].num as int, "bad indentation"@))
                    } else {
                        Result::Ok((GNode::Sequence(items), j))
                    }
                },
            }
        } else if first_sep(sigs[i].text) < sigs[i].text.len() {
            match s_map_entries(sigs, i, d) {
                Result::Err(e) => Result::Err(e),
                Result::Ok((entries, j)) => {
                    if j == i {
                        Result::Err((sigs[i].num as int, "bad indentation"@))
                    } else {
                        Result::Ok((GNode::Mapping(entries), j))
                    }
                },
            }
        } else {
            Result::Ok((scalar_spec(text::trim_ws(sigs[i].text)), i + 1))
        }
    }
}

/// What parsing a whole document returns, for every input: the tree of
/// an accepted document, or the 1-based line and message of the first
/// offence — a tab in the indentation, the block grammar's errors, or
/// trailing content after the document block.
pub open spec fn parse_spec(content: Seq<char>) -> Result<GNode, (int, Seq<char>)> {
    match sigs_spec(text::lines_spec(content), 0) {
        Result::Err(el) => Result::Err((el, "tab character in indentation"@)),
        Result::Ok(sigs) => {
            if sigs.len() == 0 {
                Result::Ok(GNode::Null)
            } else {
                match s_block(sigs, 0) {
                    Result::Err(e) => Result::Err(e),
                    Result::Ok((node, jr)) => {
                        let j = clampi(jr, 1, sigs.len() as int);
                        if j < sigs.len() {
                            Result::Err((sigs[j].num as int, "unexpected trailing content"@))
                        } else {
                            Result::Ok(node)
                        }
                    },
                }
            }
        },
    }
}

/// The value of a mapping entry (or inline sequence-item entry) whose key
/// stands on line `i` at payload indentation `dd`, exactly as
/// [`s_entry_value`] describes.  The consumed lines after the entry line
/// sit right of `dd`, or at `dd` as sequence items.
fn p_entry_value(ls: &Vec<SigLine>, i: usize, dd: usize, vtext: Vec<char>) -> (r: Result<
    (Node, usize),
    ParseError,
>)
    requires
        wf_sigs(ls@),
        i < ls@.len(),
    ensures
        r matches Ok(p) ==> i < p.1 <= ls@.len() && range_items_at(
            ls@,
            i + 1,
            p.1 as int,
            dd as nat,
        ) && s_entry_value(abs_sigs(ls@), i as int, dd as nat, vtext@)
            == Result::<(GNode, int), (int, Seq<char>)>::Ok((abs_node(p.0), p.1 as int)),
        r matches Err(e) ==> e.line >= 1 && e.message@.len() > 0 && s_entry_value(
            abs_sigs(ls@),
            i as int,
            dd as nat,
            vtext@,
        ) == Result::<(GNode, int), (int, Seq<char>)>::Err((e.line as int, e.message@)),
    decreases ls@.len() - i, 0int,
{
    let ghost gs = abs_sigs(ls@);
    proof {
        assert(gs.len() == ls@.len());
        assert forall|k: int| 0 <= k < ls@.len() implies #[trigger] gs[k] == abs_sig(
            ls@[k]) by {}
    }
    let n = ls.len();
    if vtext.len() > 0 {
        Ok((parse_scalar(&vtext), i + 1))
    } else if i + 1 < n && ls[i + 1].indent > dd {
        let ghost e = ls@[i + 1].indent as nat;
        match p_block(ls, i + 1) {
            Ok((node, j)) => {
                proof {
                    assert forall|k: int|
                        i + 1 <= k < j implies (#[trigger] ls@[k]).indent >= dd && (ls@[k].indent
                        == dd ==> is_item_text(ls@[k].text@)) by {
                        assert(ls@[k].indent >= e);
                    }
                }
                Ok((node, j))
            },
            Err(e2) => Err(e2),
        }
    } else if i + 1 < n && ls[i + 1].indent == dd && is_item(&ls[i + 1].text) {
        match p_seq_items(ls, i + 1, dd) {
            Ok((items, j)) => Ok((Node::Sequence(items), j)),
            Err(e) => Err(e),
        }
    } else {
        Ok((Node::Null, i + 1))
    }
}

/// Consecutive sequence items at exactly indentation `d`, starting at
/// line `i`, exactly as [`s_seq_items`] describes.  Every consumed line
/// sits at or right of `d`, and those exactly at `d` are the items.
#[verifier::rlimit(80)]
fn p_seq_items(ls: &Vec<SigLine>, i: usize, d: usize) -> (r: Result<
    (Vec<Node>, usize),
    ParseError,
>)
    requires
        wf_sigs(ls@),
        i < ls@.len(),
    ensures
        r matches Ok(p) ==> i <= p.1 <= ls@.len() && range_items_at(
            ls@,
            i as int,
            p.1 as int,
            d as nat,
        ) && s_seq_items(abs_sigs(ls@), i as int, d as nat)
            == Result::<(Seq<GNode>, int), (int, Seq<char>)>::Ok(
            (abs_nodes(p.0@), p.1 as int),
        ),
        r matches Err(e) ==> e.line >= 1 && e.message@.len() > 0 && s_seq_items(
            abs_sigs(ls@),
            i as int,
            d as nat,
        ) == Result::<(Seq<GNode>, int), (int, Seq<char>)>::Err((e.line as int, e.message@)),
    decreases ls@.len() - i, 1int,
{
    let ghost gs = abs_sigs(ls@);
    proof {
        assert(gs.len() == ls@.len());
        assert forall|k: int| 0 <= k < ls@.len() implies #[trigger] gs[k] == abs_sig(
            ls@[k]) by {}
        lemma_abs_nodes(Seq::<Node>::empty());
        assert(abs_nodes(Seq::<Node>::empty()) =~= Seq::<GNode>::empty());
    }
    let mut items: Vec<Node> = Vec::new();
    let mut j: usize = i;
    while j < ls.len() && ls[j].indent == d && is_item(&ls[j].text)
        invariant
            wf_sigs(ls@),
            i <= j <= ls@.len(),
            gs == abs_sigs(ls@),
            gs.len() == ls@.len(),
            forall|k: int| 0 <= k < ls@.len() ==> #[trigger] gs[k] == abs_sig(ls@[k]),
            range_items_at(ls@, i as int, j as int, d as nat),
            s_seq_items(gs, i as int, d as nat) == (match s_seq_items(gs, j as int, d as nat) {
                Result::<(Seq<GNode>, int), (int, Seq<char>)>::Ok(tail) => Result::<
                    (Seq<GNode>, int),
                    (int, Seq<char>),
                >::Ok((abs_nodes(items@) + tail.0, tail.1)),
                Result::<(Seq<GNode>, int), (int, Seq<char>)>::Err(e) => Result::<
                    (Seq<GNode>, int),
                    (int, Seq<char>),
                >::Err(e),
            }),
        decreases ls@.len() - j,
    {
        let line_num = ls[j].num;
        let text = &ls[j].text;
        let rest_raw = text::sub_chars(text, 1, text.len());
        let lead = text::count_leading_spaces(&rest_raw);
        let rest = uncomment_exec(text::trim_ws_exec(&rest_raw));
        proof {
            text::lemma_leading_spaces(rest_raw@);
            assert(ls@[j as int].indent + ls@[j as int].text@.len() <= usize::MAX);
            assert(rest_raw@ =~= gs[j as int].text.skip(1));
            assert(rest@ == uncomment(text::trim_ws(gs[j as int].text.skip(1))));
        }
        let off = 1 + lead;
        let ghost pre_items = items@;
        if rest.len() == 0 {
            // a dash alone: a nested block or a null item
            if j + 1 < ls.len() && ls[j + 1].indent > d {
                let ghost e = ls@[j + 1].indent as nat;
                match p_block(ls, j + 1) {
                    Ok((node, j2)) => {
                        if j2 < ls.len() && ls[j2].indent > d {
                            proof {
                                assert(clampi(j2 as int, j + 1, gs.len() as int) == j2 as int);
                            }
                            return Err(bad_indent_err(ls[j2].num));
                        }
                        items.push(node);
                        proof {
                            assert(clampi(j2 as int, j + 1, gs.len() as int) == j2 as int);
                            assert forall|k: int|
                                i <= k < j2 implies (#[trigger] ls@[k]).indent >= d && (
                            ls@[k].indent == d ==> is_item_text(ls@[k].text@)) by {
                                if k > j {
                                    assert(ls@[k].indent >= e);
                                }
                            }
                            seq_items_step(gs, pre_items, items@, abs_node(node), i as int,
                                j as int, j2 as int, d as nat);
                        }
                        j = j2;
                    },
                    Err(e2) => {
                        return Err(e2);
                    },
                }
            } else {
                items.push(Node::Null);
                proof {
                    seq_items_step(gs, pre_items, items@, GNode::Null, i as int, j as int,
                        j + 1, d as nat);
                }
                j = j + 1;
            }
        } else {
            match find_sep(&rest) {
                Some(p) => {
                    proof {
                        lemma_first_sep(rest@);
                        assert(first_sep(rest@) == p) by {
                            if first_sep(rest@) < p {
                                assert(is_sep_at(rest@, first_sep(rest@) as int));
                            }
                            if first_sep(rest@) > p {
                                assert(!is_sep_at(rest@, p as int));
                            }
                        }
                    }
                    // an inline `- key: value` entry opens a mapping whose
                    // further entries sit at the payload's indentation
                    let key = unquote_key_exec(
                        text::trim_ws_exec(&text::sub_chars(&rest, 0, p)),
                    );
                    if key.len() == 0 {
                        let mut msg: Vec<char> = Vec::new();
                        text::push_str_chars(&mut msg, "expected a key before ':'");
                        proof {
                            reveal_strlit("expected a key before ':'");
                            assert(msg@ =~= "expected a key before ':'"@);
                        }
                        return Err(
                            ParseError { line: line_num, message: text::chars_to_string(&msg) },
                        );
                    }
                    let vtext = uncomment_exec(
                        text::trim_ws_exec(&text::sub_chars(&rest, p + 1, rest.len())),
                    );
                    let dd = d + off;
                    let (v0, j2) = match p_entry_value(ls, j, dd, vtext) {
                        Ok(p) => p,
                        Err(e) => {
                            return Err(e);
                        },
                    };
                    proof {
                        assert(clampi(j2 as int, j + 1, gs.len() as int) == j2 as int);
                    }
                    let (mut entries, j3) = if j2 < ls.len() {
                        match p_map_entries(ls, j2, dd) {
                            Ok(p) => p,
                            Err(e) => {
                                return Err(e);
                            },
                        }
                    } else {
                        proof {
                            lemma_abs_entries(Seq::<(String, Node)>::empty());
                            assert(abs_entries(Seq::<(String, Node)>::empty())
                                =~= Seq::<(Seq<char>, GNode)>::empty());
                        }
                        (Vec::new(), j2)
                    };
                    proof {
                        assert(clampi(j3 as int, j2 as int, gs.len() as int) == j3 as int);
                    }
                    if j3 < ls.len() && ls[j3].indent > d {
                        return Err(bad_indent_err(ls[j3].num));
                    }
                    let mut mapping: Vec<(String, Node)> = Vec::new();
                    mapping.push((text::chars_to_string(&key), v0));
                    let ghost head_entries = mapping@;
                    let ghost tail_entries = entries@;
                    mapping.append(&mut entries);
                    proof {
                        lemma_abs_entries(head_entries);
                        lemma_abs_entries(tail_entries);
                        lemma_abs_entries(mapping@);
                        assert forall|q: int|
                            0 <= q < mapping@.len() implies #[trigger] abs_entries(
                            mapping@)[q] == (seq![(key@, abs_node(v0))] + abs_entries(
                            tail_entries))[q] by {
                            assert(abs_entries(mapping@)[q] == (mapping@[q].0@, abs_node(
                                mapping@[q].1)));
                            if q == 0 {
                                assert(mapping@[0] == head_entries[0]);
                            } else {
                                assert(mapping@[q] == tail_entries[q - 1]);
                                assert(abs_entries(tail_entries)[q - 1] == (
                                tail_entries[q - 1].0@, abs_node(tail_entries[q - 1].1)));
                            }
                        }
                        assert(abs_entries(mapping@) =~= seq![(key@, abs_node(v0))]
                            + abs_entries(tail_entries));
                    }
                    items.push(Node::Mapping(mapping));
                    proof {
                        assert forall|k: int|
                            i <= k < j3 implies (#[trigger] ls@[k]).indent >= d && (ls@[k].indent
                            == d ==> is_item_text(ls@[k].text@)) by {
                            if k > j {
                                assert(ls@[k].indent >= dd);
                            }
                        }
                        seq_items_step(gs, pre_items, items@,
                            GNode::Mapping(seq![(key@, abs_node(v0))] + abs_entries(
                            tail_entries)), i as int, j as int, j3 as int, d as nat);
                    }
                    j = j3;
                },
                None => {
                    proof {
                        lemma_first_sep(rest@);
                        assert(first_sep(rest@) >= rest@.len()) by {
                            if first_sep(rest@) < rest@.len() {
                                assert(is_sep_at(rest@, first_sep(rest@) as int));
                            }
                        }
                    }
                    items.push(parse_scalar(&rest));
                    if j + 1 < ls.len() && ls[j + 1].indent > d {
                        return Err(bad_indent_err(ls[j + 1].num));
                    }
                    proof {
                        seq_items_step(gs, pre_items, items@, scalar_spec(rest@), i as int,
                            j as int, j + 1, d as nat);
                    }
                    j = j + 1;
                },
            }
        }
    }
    proof {
        assert(s_seq_items(gs, j as int, d as nat) == Result::<
            (Seq<GNode>, int),
            (int, Seq<char>),
        >::Ok((Seq::empty(), j as int)));
        assert(abs_nodes(items@) + Seq::<GNode>::empty() =~= abs_nodes(items@));
    }
    Ok((items, j))
}

/// One step of the item bookkeeping: after processing the item at line
/// `j` into `node`, the collected items extended by it still satisfy the
/// loop's relation to [`s_seq_items`].
proof fn seq_items_step(
    gs: Seq<GSig>,
    pre: Seq<Node>,
    post: Seq<Node>,
    node: GNode,
    i: int,
    j: int,
    j2: int,
    d: nat,
)
    requires
        post.len() == pre.len() + 1,
        forall|q: int| 0 <= q < pre.len() ==> #[trigger] post[q] == pre[q],
        abs_node(post[pre.len() as int]) == node,
        s_seq_items(gs, j, d) == (match s_seq_items(gs, j2, d) {
            Result::<(Seq<GNode>, int), (int, Seq<char>)>::Ok(tail) => Result::<
                (Seq<GNode>, int),
                (int, Seq<char>),
            >::Ok((seq![node] + tail.0, tail.1)),
            Result::<(Seq<GNode>, int), (int, Seq<char>)>::Err(e) => Result::<
                (Seq<GNode>, int),
                (int, Seq<char>),
            >::Err(e),
        }),
        s_seq_items(gs, i, d) == (match s_seq_items(gs, j, d) {
            Result::<(Seq<GNode>, int), (int, Seq<char>)>::Ok(tail) => Result::<
                (Seq<GNode>, int),
                (int, Seq<char>),
            >::Ok((abs_nodes(pre) + tail.0, tail.1)),
            Result::<(Seq<GNode>, int), (int, Seq<char>)>::Err(e) => Result::<
                (Seq<GNode>, int),
                (int, Seq<char>),
            >::Err(e),
        }),
    ensures
        s_seq_items(gs, i, d) == (match s_seq_items(gs, j2, d) {
            Result::<(Seq<GNode>, int), (int, Seq<char>)>::Ok(tail) => Result::<
                (Seq<GNode>, int),
                (int, Seq<char>),
            >::Ok((abs_nodes(post) + tail.0, tail.1)),
            Result::<(Seq<GNode>, int), (int, Seq<char>)>::Err(e) => Result::<
                (Seq<GNode>, int),
                (int, Seq<char>),
            >::Err(e),
        }),
{
    lemma_abs_nodes(pre);
    lemma_abs_nodes(post);
    assert forall|q: int|
        0 <= q < post.len() implies #[trigger] abs_nodes(post)[q] == abs_nodes(pre).push(
        node)[q] by {
        assert(abs_nodes(post)[q] == abs_node(post[q]));
        if q < pre.len() {
            assert(abs_nodes(pre)[q] == abs_node(pre[q]));
            assert(post[q] == pre[q]);
        }
    }
    assert(abs_nodes(post) =~= abs_nodes(pre).push(node));
    match s_seq_items(gs, j2, d) {
        Result::<(Seq<GNode>, int), (int, Seq<char>)>::Ok(tail) => {
            assert(abs_nodes(pre) + (seq![node] + tail.0) =~= abs_nodes(post) + tail.0);
        },
        Result::<(Seq<GNode>, int), (int, Seq<char>)>::Err(_) => {},
    }
}

/// Consecutive mapping entries at exactly indentation `d`, starting at
/// line `i`, exactly as [`s_map_entries`] describes.  Every consumed
/// line sits at or right of `d`, and the built entries carry exactly
/// the keys of the consumed lines at `d` that are not items, in order —
/// duplicates included.
#[verifier::rlimit(80)]
fn p_map_entries(ls: &Vec<SigLine>, i: usize, d: usize) -> (r: Result<
    (Vec<(String, Node)>, usize),
    ParseError,
>)
    requires
        wf_sigs(ls@),
        i <= ls@.len(),
    ensures
        r matches Ok(p) ==> i <= p.1 <= ls@.len() && range_ge(ls@, i as int, p.1 as int, d as nat)
            && gkeys(abs_entries(p.0@)) == entry_keys(
            abs_sigs(ls@),
            i as int,
            p.1 as int,
            d as nat,
        ) && s_map_entries(abs_sigs(ls@), i as int, d as nat)
            == Result::<(Seq<(Seq<char>, GNode)>, int), (int, Seq<char>)>::Ok(
            (abs_entries(p.0@), p.1 as int),
        ),
        r matches Err(e) ==> e.line >= 1 && e.message@.len() > 0 && s_map_entries(
            abs_sigs(ls@),
            i as int,
            d as nat,
        ) == Result::<(Seq<(Seq<char>, GNode)>, int), (int, Seq<char>)>::Err(
            (e.line as int, e.message@),
        ),
    decreases ls@.len() - i, 1int,
{
    let ghost gs = abs_sigs(ls@);
    proof {
        assert(gs.len() == ls@.len());
        assert forall|k: int| 0 <= k < ls@.len() implies #[trigger] gs[k] == abs_sig(
            ls@[k]) by {}
    }
    let mut entries: Vec<(String, Node)> = Vec::new();
    let mut j: usize = i;
    proof {
        assert(abs_entries(entries@) =~= Seq::<(Seq<char>, GNode)>::empty());
        assert(gkeys(abs_entries(entries@)) =~= entry_keys(gs, i as int, i as int, d as nat));
    }
    while j < ls.len() && ls[j].indent == d && !is_item(&ls[j].text)
        invariant
            wf_sigs(ls@),
            i <= j <= ls@.len(),
            gs == abs_sigs(ls@),
            gs.len() == ls@.len(),
            forall|k: int| 0 <= k < ls@.len() ==> #[trigger] gs[k] == abs_sig(ls@[k]),
            range_ge(ls@, i as int, j as int, d as nat),
            gkeys(abs_entries(entries@)) == entry_keys(gs, i as int, j as int, d as nat),
            s_map_entries(gs, i as int, d as nat) == (match s_map_entries(gs, j as int, d as nat) {
                Result::<(Seq<(Seq<char>, GNode)>, int), (int, Seq<char>)>::Ok(tail) => Result::<
                    (Seq<(Seq<char>, GNode)>, int),
                    (int, Seq<char>),
                >::Ok((abs_entries(entries@) + tail.0, tail.1)),
                Result::<(Seq<(Seq<char>, GNode)>, int), (int, Seq<char>)>::Err(e) => Result::<
                    (Seq<(Seq<char>, GNode)>, int),
                    (int, Seq<char>),
                >::Err(e),
            }),
        decreases ls@.len() - j,
    {
        let line_num = ls[j].num;
        let text = &ls[j].text;
        match find_sep(text) {
            None => {
                proof {
                    lemma_first_sep(text@);
                    assert(first_sep(text@) >= text@.len()) by {
                        if first_sep(text@) < text@.len() {
                            assert(is_sep_at(text@, first_sep(text@) as int));
                        }
                    }
                }
                let mut msg: Vec<char> = Vec::new();
                text::push_str_chars(&mut msg, "expected ':' in mapping entry");
                proof {
                    reveal_strlit("expected ':' in mapping entry");
                    assert(msg@ =~= "expected ':' in mapping entry"@);
                }
                return Err(
                    ParseError { line: line_num, message: text::chars_to_string(&msg) },
                );
            },
            Some(p) => {
                proof {
                    lemma_first_sep(text@);
                    assert(first_sep(text@) == p) by {
                        if first_sep(text@) < p {
                            assert(is_sep_at(text@, first_sep(text@) as int));
                        }
                        if first_sep(text@) > p {
                            assert(!is_sep_at(text@, p as int));
                        }
                    }
                }
                let key = unquote_key_exec(text::trim_ws_exec(&text::sub_chars(text, 0, p)));
                proof {
                    assert(key@ == key_of(gs[j as int].text)) by {
                        assert(gs[j as int].text == text@);
                    }
                }
                if key.len() == 0 {
                    let mut msg: Vec<char> = Vec::new();
                    text::push_str_chars(&mut msg, "expected a key before ':'");
                    proof {
                        reveal_strlit("expected a key before ':'");
                        assert(msg@ =~= "expected a key before ':'"@);
                    }
                    return Err(
                        ParseError { line: line_num, message: text::chars_to_string(&msg) },
                    );
                }
                let vtext = uncomment_exec(
                    text::trim_ws_exec(&text::sub_chars(text, p + 1, text.len())),
                );
                let (v, j2) = match p_entry_value(ls, j, d, vtext) {
                    Ok(q) => q,
                    Err(e) => {
                        return Err(e);
                    },
                };
                proof {
                    assert(clampi(j2 as int, j + 1, gs.len() as int) == j2 as int);
                }
                if j2 < ls.len() && ls[j2].indent > d {
                    return Err(bad_indent_err(ls[j2].num));
                }
                let ghost pre = entries@;
                let ghost kv = key@;
                entries.push((text::chars_to_string(&key), v));
                proof {
                    // the entry line contributes its key; the value's
                    // lines contribute nothing at this indentation
                    yaml_abs_keys_step(ls@, gs, pre, entries@, kv, i as int, j as int,
                        j2 as int, d as nat);
                    assert forall|k: int|
                        i <= k < j2 implies (#[trigger] ls@[k]).indent >= d by {}
                    map_entries_step(gs, pre, entries@, (kv, abs_node(v)), i as int, j as int,
                        j2 as int, d as nat);
                }
                j = j2;
            },
        }
    }
    proof {
        assert(s_map_entries(gs, j as int, d as nat) == Result::<
            (Seq<(Seq<char>, GNode)>, int),
            (int, Seq<char>),
        >::Ok((Seq::empty(), j as int)));
        assert(abs_entries(entries@) + Seq::<(Seq<char>, GNode)>::empty() =~= abs_entries(
            entries@,
        ));
    }
    Ok((entries, j))
}

/// One step of the entry bookkeeping for the relation to
/// [`s_map_entries`]: pushing the entry parsed at line `j` whose value
/// consumed `(j, j2)`.
proof fn map_entries_step(
    gs: Seq<GSig>,
    pre: Seq<(String, Node)>,
    post: Seq<(String, Node)>,
    pair: (Seq<char>, GNode),
    i: int,
    j: int,
    j2: int,
    d: nat,
)
    requires
        post.len() == pre.len() + 1,
        forall|q: int| 0 <= q < pre.len() ==> #[trigger] post[q] == pre[q],
        post[pre.len() as int].0@ == pair.0,
        abs_node(post[pre.len() as int].1) == pair.1,
        s_map_entries(gs, j, d) == (match s_map_entries(gs, j2, d) {
            Result::<(Seq<(Seq<char>, GNode)>, int), (int, Seq<char>)>::Ok(tail) => Result::<
                (Seq<(Seq<char>, GNode)>, int),
                (int, Seq<char>),
            >::Ok((seq![pair] + tail.0, tail.1)),
            Result::<(Seq<(Seq<char>, GNode)>, int), (int, Seq<char>)>::Err(e) => Result::<
                (Seq<(Seq<char>, GNode)>, int),
                (int, Seq<char>),
            >::Err(e),
        }),
        s_map_entries(gs, i, d) == (match s_map_entries(gs, j, d) {
            Result::<(Seq<(Seq<char>, GNode)>, int), (int, Seq<char>)>::Ok(tail) => Result::<
                (Seq<(Seq<char>, GNode)>, int),
                (int, Seq<char>),
            >::Ok((abs_entries(pre) + tail.0, tail.1)),
            Result::<(Seq<(Seq<char>, GNode)>, int), (int, Seq<char>)>::Err(e) => Result::<
                (Seq<(Seq<char>, GNode)>, int),
                (int, Seq<char>),
            >::Err(e),
        }),
    ensures
        s_map_entries(gs, i, d) == (match s_map_entries(gs, j2, d) {
            Result::<(Seq<(Seq<char>, GNode)>, int), (int, Seq<char>)>::Ok(tail) => Result::<
                (Seq<(Seq<char>, GNode)>, int),
                (int, Seq<char>),
            >::Ok((abs_entries(post) + tail.0, tail.1)),
            Result::<(Seq<(Seq<char>, GNode)>, int), (int, Seq<char>)>::Err(e) => Result::<
                (Seq<(Seq<char>, GNode)>, int),
                (int, Seq<char>),
            >::Err(e),
        }),
{
    lemma_abs_entries(pre);
    lemma_abs_entries(post);
    assert forall|q: int|
        0 <= q < post.len() implies #[trigger] abs_entries(post)[q] == abs_entries(pre).push(
        pair)[q] by {
        assert(abs_entries(post)[q] == (post[q].0@, abs_node(post[q].1)));
        if q < pre.len() {
            assert(abs_entries(pre)[q] == (pre[q].0@, abs_node(pre[q].1)));
            assert(post[q] == pre[q]);
        }
    }
    assert(abs_entries(post) =~= abs_entries(pre).push(pair));
    match s_map_entries(gs, j2, d) {
        Result::<(Seq<(Seq<char>, GNode)>, int), (int, Seq<char>)>::Ok(tail) => {
            assert(abs_entries(pre) + (seq![pair] + tail.0) =~= abs_entries(post) + tail.0);
        },
        Result::<(Seq<(Seq<char>, GNode)>, int), (int, Seq<char>)>::Err(_) => {},
    }
}

/// The block opening at line `i`, read from the line's own indentation,
/// exactly as [`s_block`] describes: an item line opens a sequence, a
/// line with a separator opens a mapping that carries exactly the keys
/// of the block's entry lines in order, and a plain line is one scalar.
/// Nothing left of the block's indentation is consumed.
fn p_block(ls: &Vec<SigLine>, i: usize) -> (r: Result<(Node, usize), ParseError>)
    requires
        wf_sigs(ls@),
        i < ls@.len(),
    ensures
        r matches Ok(p) ==> {
            &&& i < p.1 <= ls@.len()
            &&& range_ge(ls@, i as int, p.1 as int, ls@[i as int].indent as nat)
            &&& (is_item_text(ls@[i as int].text@) ==> abs_node(p.0) is Sequence)
            &&& ((!is_item_text(ls@[i as int].text@) && first_sep(ls@[i as int].text@)
                < ls@[i as int].text@.len()) ==> (abs_node(p.0) matches GNode::Mapping(es)
                && gkeys(es) == entry_keys(
                abs_sigs(ls@),
                i as int,
                p.1 as int,
                ls@[i as int].indent as nat,
            )))
            &&& ((!is_item_text(ls@[i as int].text@) && first_sep(ls@[i as int].text@)
                >= ls@[i as int].text@.len()) ==> (abs_node(p.0) == scalar_spec(
                text::trim_ws(ls@[i as int].text@),
            ) && p.1 == i + 1))
            &&& s_block(abs_sigs(ls@), i as int) == Result::<
                (GNode, int),
                (int, Seq<char>),
            >::Ok((abs_node(p.0), p.1 as int))
        },
        r matches Err(e) ==> e.line >= 1 && e.message@.len() > 0 && s_block(
            abs_sigs(ls@),
            i as int,
        ) == Result::<(GNode, int), (int, Seq<char>)>::Err((e.line as int, e.message@)),
    decreases ls@.len() - i, 2int,
{
    let ghost gs = abs_sigs(ls@);
    proof {
        assert(gs.len() == ls@.len());
        assert forall|k: int| 0 <= k < ls@.len() implies #[trigger] gs[k] == abs_sig(
            ls@[k]) by {}
    }
    let n = ls.len();
    let d = ls[i].indent;
    let item = is_item(&ls[i].text);
    if item {
        match p_seq_items(ls, i, d) {
            Ok((items, j)) => {
                if j == i {
                    // cannot happen: the first line is an item; keep the
                    // bound explicit for the caller
                    Err(bad_indent_err(ls[i].num))
                } else {
                    Ok((Node::Sequence(items), j))
                }
            },
            Err(e) => Err(e),
        }
    } else {
        let sep = find_sep(&ls[i].text);
        match sep {
            Some(p) => {
                proof {
                    lemma_first_sep(ls@[i as int].text@);
                    assert(first_sep(ls@[i as int].text@) < ls@[i as int].text@.len()) by {
                        if first_sep(ls@[i as int].text@) > p {
                            assert(!is_sep_at(ls@[i as int].text@, p as int));
                        }
                    }
                }
                match p_map_entries(ls, i, d) {
                    Ok((entries, j)) => {
                        if j == i {
                            // cannot happen: the first line is an entry;
                            // keep the bound explicit for the caller
                            Err(bad_indent_err(ls[i].num))
                        } else {
                            Ok((Node::Mapping(entries), j))
                        }
                    },
                    Err(e) => Err(e),
                }
            },
            None => {
                proof {
                    lemma_first_sep(ls@[i as int].text@);
                    assert(first_sep(ls@[i as int].text@) >= ls@[i as int].text@.len()) by {
                        if first_sep(ls@[i as int].text@) < ls@[i as int].text@.len() {
                            assert(is_sep_at(
                                ls@[i as int].text@,
                                first_sep(ls@[i as int].text@) as int,
                            ));
                        }
                    }
                }
                let t = text::trim_ws_exec(&ls[i].text);
                Ok((parse_scalar(&t), i + 1))
            },
        }
    }
}

/// Everything a successful parse promises of its tree, stated against
/// the document's significant lines: an empty document reads as null;
/// every significant line sits at or right of the root's indentation (a
/// dedent is a parse error); a root opening with a sequence item yields
/// a sequence; a root opening with a mapping entry yields a mapping
/// whose key sequence is exactly the keys of the root-level entry lines,
/// in order with duplicates preserved; and a lone plain line yields its
/// scalar.  No tree at all satisfies this when the lines themselves are
/// rejected (a tab in the indentation).
pub open spec fn parse_outcome_ok(content: Seq<char>, g: GNode) -> bool {
    match sigs_spec(text::lines_spec(content), 0) {
        Result::Err(_) => false,
        Result::Ok(sigs) => {
            if sigs.len() == 0 {
                g == GNode::Null
            } else {
                let d = sigs[0].indent;
                &&& (forall|k: int| 0 <= k < sigs.len() ==> (#[trigger] sigs[k]).indent >= d)
                &&& (is_item_text(sigs[0].text) ==> g is Sequence)
                &&& ((!is_item_text(sigs[0].text) && first_sep(sigs[0].text)
                    < sigs[0].text.len()) ==> (g matches GNode::Mapping(es) && gkeys(es)
                    == entry_keys(sigs, 0, sigs.len() as int, d)))
                &&& ((!is_item_text(sigs[0].text) && first_sep(sigs[0].text)
                    >= sigs[0].text.len()) ==> (sigs.len() == 1 && g == scalar_spec(
                    text::trim_ws(sigs[0].text),
                )))
            }
        },
    }
}

/// Attempts to parse a whole document.  The result — the tree, or the
/// 1-based line and message of the first offence — is exactly what
/// [`parse_spec`] assigns to the text, so parsing succeeds precisely on
/// the documents that spec accepts; an `Ok` tree additionally satisfies
/// the structural summary [`parse_outcome_ok`].
pub fn parse(content: &str) -> (r: Result<Node, ParseError>)
    ensures
        text::lines_spec(content@).len() == 0 ==> (r matches Ok(n) && abs_node(n)
            == GNode::Null),
        r matches Ok(n) ==> parse_spec(content@) == Result::<GNode, (int, Seq<char>)>::Ok(
            abs_node(n),
        ),
        r matches Err(e) ==> parse_spec(content@) == Result::<GNode, (int, Seq<char>)>::Err(
            (e.line as int, e.message@),
        ),
        r matches Ok(n) ==> parse_outcome_ok(content@, abs_node(n)),
        sigs_spec(text::lines_spec(content@), 0) matches Err(el) ==> (r matches Err(e)
            && e.line as int == el),
        r matches Err(e) ==> e.line >= 1 && e.message@.len() > 0,
{
    let lines = text::split_lines(content);
    proof {
        assert(text::char_views(lines@) =~= text::lines_spec(content@));
    }
    let sigs = match sig_lines(&lines) {
        Ok(s) => s,
        Err(e) => {
            return Err(e);
        },
    };
    let ghost gs = abs_sigs(sigs@);
    proof {
        assert(gs.len() == sigs@.len());
        assert forall|k: int| 0 <= k < sigs@.len() implies #[trigger] gs[k] == abs_sig(
            sigs@[k]) by {}
    }
    if sigs.len() == 0 {
        proof {
            assert(gs =~= Seq::<GSig>::empty());
        }
        return Ok(Node::Null);
    }
    match p_block(&sigs, 0) {
        Ok((node, j)) => {
            proof {
                assert(clampi(j as int, 1, gs.len() as int) == j as int);
            }
            if j < sigs.len() {
                let mut msg: Vec<char> = Vec::new();
                text::push_str_chars(&mut msg, "unexpected trailing content");
                proof {
                    reveal_strlit("unexpected trailing content");
                    assert(msg@ =~= "unexpected trailing content"@);
                    assert(gs[j as int].num == sigs@[j as int].num as nat);
                }
                Err(ParseError { line: sigs[j].num, message: text::chars_to_string(&msg) })
            } else {
                proof {
                    assert(parse_outcome_ok(content@, abs_node(node))) by {
                        let d = gs[0].indent;
                        assert(gs[0].text == sigs@[0].text@);
                        assert forall|k: int|
                            0 <= k < gs.len() implies (#[trigger] gs[k]).indent >= d by {
                            assert(sigs@[k].indent >= sigs@[0].indent);
                        }
                    }
                }
                Ok(node)
            }
        },
        Err(e) => Err(e),
    }
}

/// One step of the key bookkeeping: pushing the entry at line `j` whose
/// value consumed `(j, j2)` extends the collected keys by that entry's
/// key and nothing else.
proof fn yaml_abs_keys_step(
    ls: Seq<SigLine>,
    gs: Seq<GSig>,
    pre: Seq<(String, Node)>,
    post: Seq<(String, Node)>,
    kv: Seq<char>,
    i: int,
    j: int,
    j2: int,
    d: nat,
)
    requires
        gs == abs_sigs(ls),
        gs.len() == ls.len(),
        forall|k: int| 0 <= k < ls.len() ==> #[trigger] gs[k] == abs_sig(ls[k]),
        0 <= i <= j < j2 <= ls.len(),
        ls[j].indent == d,
        !is_item_text(ls[j].text@),
        kv == key_of(gs[j].text),
        post.len() == pre.len() + 1,
        forall|q: int| 0 <= q < pre.len() ==> #[trigger] post[q] == pre[q],
        post[pre.len() as int].0@ == kv,
        gkeys(abs_entries(pre)) == entry_keys(gs, i, j, d),
        range_items_at(ls, j + 1, j2, d),
    ensures
        gkeys(abs_entries(post)) == entry_keys(gs, i, j2, d),
{
    lemma_entry_keys_split(gs, i, j, j2, d);
    lemma_entry_keys_split(gs, j, j + 1, j2, d);
    assert forall|k: int|
        j + 1 <= k < j2 implies !((#[trigger] gs[k]).indent == d && !is_item_text(
        gs[k].text)) by {
        assert(gs[k] == abs_sig(ls[k]));
        assert(ls[k].indent >= d && (ls[k].indent == d ==> is_item_text(ls[k].text@)));
    }
    lemma_entry_keys_none(gs, j + 1, j2, d);
    assert(gs[j].indent == d && !is_item_text(gs[j].text));
    assert(entry_keys(gs, j, j + 1, d) =~= seq![key_of(gs[j].text)]);
    lemma_abs_entries(pre);
    lemma_abs_entries(post);
    assert(gkeys(abs_entries(post)).len() == post.len());
    assert(gkeys(abs_entries(pre)).len() == pre.len());
    assert forall|q: int|
        0 <= q < post.len() implies #[trigger] gkeys(abs_entries(post))[q] == (entry_keys(
        gs,
        i,
        j,
        d,
    ) + seq![kv])[q] by {
        assert(gkeys(abs_entries(post))[q] == abs_entries(post)[q].0);
        if q < pre.len() {
            assert(post[q] == pre[q]);
            assert(gkeys(abs_entries(pre))[q] == abs_entries(pre)[q].0);
            assert(abs_entries(pre)[q] == (pre[q].0@, abs_node(pre[q].1)));
            assert(abs_entries(post)[q] == (post[q].0@, abs_node(post[q].1)));
        } else {
            assert(abs_entries(post)[q] == (post[q].0@, abs_node(post[q].1)));
        }
    }
    assert(gkeys(abs_entries(post)) =~= entry_keys(gs, i, j, d) + seq![kv]);
    assert(entry_keys(gs, i, j, d) + seq![kv] =~= entry_keys(gs, i, j2, d));
}

} // verus!
