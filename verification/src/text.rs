//! Character- and line-level utilities shared by the rule checks and the
//! rewriter: blank-line tests, leading-space counts, splitting a document
//! into lines the way `str::lines` does, joining lines back, decimal
//! rendering for messages, and substring containment for pattern matching.
use vstd::prelude::*;

verus! {

// ---------- characters ----------

/// Whitespace that may appear inside a line (never a line break).
pub open spec fn is_line_ws(c: char) -> bool {
    c == ' ' || c == '\t' || c == '\r'
}

/// A line is blank when it holds nothing but spaces, tabs and carriage returns.
pub open spec fn is_blank(l: Seq<char>) -> bool {
    forall|i: int| 0 <= i < l.len() ==> is_line_ws(#[trigger] l[i])
}

pub fn line_is_blank(l: &Vec<char>) -> (r: bool)
    ensures
        r == is_blank(l@),
{
    let mut i: usize = 0;
    while i < l.len()
        invariant
            0 <= i <= l@.len(),
            forall|j: int| 0 <= j < i ==> is_line_ws(#[trigger] l@[j]),
        decreases l@.len() - i,
    {
        let c = l[i];
        if !(c == ' ' || c == '\t' || c == '\r') {
            assert(!is_line_ws(l@[i as int]));
            return false;
        }
        i += 1;
    }
    true
}

/// ASCII lower-casing of a single character; anything outside `A`..`Z`
/// is left as it is.
pub open spec fn lower_char(c: char) -> char {
    if 'A' <= c && c <= 'Z' {
        ((c as u32) + 32) as char
    } else {
        c
    }
}

pub open spec fn lower_seq(s: Seq<char>) -> Seq<char> {
    s.map_values(|c: char| lower_char(c))
}

pub fn ascii_lower(c: char) -> (r: char)
    ensures
        r == lower_char(c),
{
    if 'A' <= c && c <= 'Z' {
        let b: u8 = c as u8;
        (b + 32) as char
    } else {
        c
    }
}

// ---------- leading spaces ----------

/// Length of the run of space characters at the front of a line.
pub open spec fn leading_spaces(l: Seq<char>) -> nat
    decreases l.len(),
{
    if l.len() == 0 || l[0] != ' ' {
        0
    } else {
        (1 + leading_spaces(l.drop_first())) as nat
    }
}

pub proof fn lemma_leading_spaces(l: Seq<char>)
    ensures
        leading_spaces(l) <= l.len(),
        forall|j: int| 0 <= j < leading_spaces(l) ==> l[j] == ' ',
        leading_spaces(l) < l.len() ==> l[leading_spaces(l) as int] != ' ',
    decreases l.len(),
{
    if l.len() > 0 && l[0] == ' ' {
        lemma_leading_spaces(l.drop_first());
        assert forall|j: int| 0 <= j < leading_spaces(l) implies l[j] == ' ' by {
            if j > 0 {
                assert(l.drop_first()[j - 1] == l[j]);
            }
        }
        assert(leading_spaces(l) < l.len() ==> l.drop_first()[leading_spaces(l) as int - 1]
            == l[leading_spaces(l) as int]);
    }
}

pub fn count_leading_spaces(l: &Vec<char>) -> (n: usize)
    ensures
        n == leading_spaces(l@),
{
    proof {
        lemma_leading_spaces(l@);
    }
    let mut i: usize = 0;
    while i < l.len()
        invariant
            0 <= i <= l@.len(),
            forall|j: int| 0 <= j < i ==> l@[j] == ' ',
            leading_spaces(l@) <= l@.len(),
            forall|j: int| 0 <= j < leading_spaces(l@) ==> l@[j] == ' ',
            leading_spaces(l@) < l@.len() ==> l@[leading_spaces(l@) as int] != ' ',
        decreases l@.len() - i,
    {
        if l[i] != ' ' {
            assert(i == leading_spaces(l@)) by {
                if i < leading_spaces(l@) {
                    assert(l@[i as int] == ' ');
                }
            }
            return i;
        }
        i += 1;
    }
    i
}

// ---------- decimal rendering ----------

pub open spec fn digit_char(d: nat) -> char {
    if d == 0 {
        '0'
    } else if d == 1 {
        '1'
    } else if d == 2 {
        '2'
    } else if d == 3 {
        '3'
    } else if d == 4 {
        '4'
    } else if d == 5 {
        '5'
    } else if d == 6 {
        '6'
    } else if d == 7 {
        '7'
    } else if d == 8 {
        '8'
    } else {
        '9'
    }
}

/// The usual decimal rendering of a number, most significant digit first.
pub open spec fn dec_digits(n: nat) -> Seq<char>
    decreases n,
{
    if n < 10 {
        seq![digit_char(n)]
    } else {
        dec_digits(n / 10).push(digit_char(n % 10))
    }
}

fn digit_exec(d: usize) -> (c: char)
    requires
        d < 10,
    ensures
        c == digit_char(d as nat),
{
    if d == 0 {
        '0'
    } else if d == 1 {
        '1'
    } else if d == 2 {
        '2'
    } else if d == 3 {
        '3'
    } else if d == 4 {
        '4'
    } else if d == 5 {
        '5'
    } else if d == 6 {
        '6'
    } else if d == 7 {
        '7'
    } else if d == 8 {
        '8'
    } else {
        '9'
    }
}

pub fn push_dec(n: usize, out: &mut Vec<char>)
    ensures
        final(out)@ == old(out)@ + dec_digits(n as nat),
    decreases n,
{
    if n < 10 {
        out.push(digit_exec(n));
        assert(out@ =~= old(out)@ + dec_digits(n as nat));
    } else {
        push_dec(n / 10, out);
        out.push(digit_exec(n % 10));
        assert(out@ =~= old(out)@ + dec_digits(n as nat));
    }
}


// ---------- byte lengths ----------

/// The UTF-8 encoded size of one character: one byte below U+0080, two
/// below U+0800, three below U+10000, four above.
pub open spec fn utf8_len_char(c: char) -> nat {
    if (c as u32) < 0x80 {
        1
    } else if (c as u32) < 0x800 {
        2
    } else if (c as u32) < 0x10000 {
        3
    } else {
        4
    }
}

/// The UTF-8 encoded size of a text, the length `str::len` reports.
pub open spec fn byte_len(l: Seq<char>) -> nat
    decreases l.len(),
{
    if l.len() == 0 {
        0
    } else {
        byte_len(l.drop_last()) + utf8_len_char(l.last())
    }
}

pub proof fn lemma_byte_len_bound(l: Seq<char>)
    ensures
        l.len() <= byte_len(l) <= 4 * l.len(),
    decreases l.len(),
{
    if l.len() > 0 {
        lemma_byte_len_bound(l.drop_last());
    }
}

/// A value cut down to what a `usize` can carry.
pub open spec fn cap_usize(n: nat) -> nat {
    if n > usize::MAX {
        usize::MAX as nat
    } else {
        n
    }
}

fn utf8_len_exec(c: char) -> (n: u8)
    ensures
        n as nat == utf8_len_char(c),
{
    let v = c as u32;
    if v < 0x80 {
        1
    } else if v < 0x800 {
        2
    } else if v < 0x10000 {
        3
    } else {
        4
    }
}

/// The UTF-8 byte length of a character vector.  The result is wider
/// than `usize` because nothing ties a vector's element count to the
/// address space; a real line's byte length always fits.
pub fn byte_len_chars(v: &Vec<char>) -> (n: u128)
    ensures
        n as nat == byte_len(v@),
{
    let m = v.len();
    let mut sum: u128 = 0;
    let mut i: usize = 0;
    proof {
        assert(v@.take(0) =~= Seq::<char>::empty());
    }
    while i < m
        invariant
            0 <= i <= m,
            m == v@.len(),
            sum as nat == byte_len(v@.take(i as int)),
            sum as int <= 4 * (i as int),
        decreases m - i,
    {
        let c = v[i];
        let cl = utf8_len_exec(c);
        proof {
            assert(v@.take(i + 1).drop_last() =~= v@.take(i as int));
            assert(v@.take(i + 1).last() == v@[i as int]);
        }
        sum = sum + (cl as u128);
        i += 1;
    }
    proof {
        assert(v@.take(m as int) =~= v@);
    }
    sum
}

pub fn push_dec_u128(n: u128, out: &mut Vec<char>)
    ensures
        final(out)@ == old(out)@ + dec_digits(n as nat),
    decreases n,
{
    if n < 10 {
        out.push(digit_exec((n % 10) as usize));
        assert(out@ =~= old(out)@ + dec_digits(n as nat));
    } else {
        push_dec_u128(n / 10, out);
        out.push(digit_exec((n % 10) as usize));
        assert(out@ =~= old(out)@ + dec_digits(n as nat));
    }
}

// ---------- splitting and joining lines ----------

/// Index of the first occurrence of `c` in `s`, or `s.len()` when absent.
pub open spec fn first_index(s: Seq<char>, c: char) -> nat
    decreases s.len(),
{
    if s.len() == 0 {
        0
    } else if s[0] == c {
        0
    } else {
        (1 + first_index(s.drop_first(), c)) as nat
    }
}

pub proof fn lemma_first_index(s: Seq<char>, c: char)
    ensures
        first_index(s, c) <= s.len(),
        first_index(s, c) < s.len() ==> s[first_index(s, c) as int] == c,
        forall|j: int| 0 <= j < first_index(s, c) ==> s[j] != c,
    decreases s.len(),
{
    if s.len() > 0 && s[0] != c {
        lemma_first_index(s.drop_first(), c);
        let f = first_index(s, c);
        assert forall|j: int| 0 <= j < f implies s[j] != c by {
            if j > 0 {
                assert(s.drop_first()[j - 1] == s[j]);
            }
        }
        assert(f < s.len() ==> s.drop_first()[f as int - 1] == s[f as int]);
    }
}

/// One trailing carriage return is dropped, as `str::lines` does for the
/// segments it splits off before a newline.
pub open spec fn strip_cr(l: Seq<char>) -> Seq<char> {
    if l.len() > 0 && l[l.len() - 1] == '\r' {
        l.drop_last()
    } else {
        l
    }
}

/// The line sequence of a document, with the semantics of `str::lines`:
/// split at `'\n'`, drop one `'\r'` before each split point, and a final
/// line ending produces no extra empty line.
pub open spec fn lines_spec(s: Seq<char>) -> Seq<Seq<char>>
    decreases s.len(),
{
    if s.len() == 0 {
        Seq::empty()
    } else {
        let i = first_index(s, '\n');
        if i >= s.len() {
            seq![s]
        } else {
            seq![strip_cr(s.take(i as int))] + lines_spec(s.skip(i + 1 as int))
        }
    }
}

/// No line produced by `lines_spec` contains a newline.
pub proof fn lemma_lines_no_nl(s: Seq<char>)
    ensures
        forall|i: int|
            0 <= i < lines_spec(s).len() ==> !(#[trigger] lines_spec(s)[i]).contains('\n'),
    decreases s.len(),
{
    if s.len() > 0 {
        let f = first_index(s, '\n');
        lemma_first_index(s, '\n');
        if f >= s.len() {
            assert forall|j: int| 0 <= j < s.len() implies s[j] != '\n' by {}
            assert(!lines_spec(s)[0].contains('\n')) by {
                if lines_spec(s)[0].contains('\n') {
                    let w = choose|w: int| 0 <= w < s.len() && s[w] == '\n';
                }
            }
        } else {
            lemma_lines_no_nl(s.skip(f + 1 as int));
            let head = strip_cr(s.take(f as int));
            assert(!head.contains('\n')) by {
                if head.contains('\n') {
                    let w = choose|w: int| 0 <= w < head.len() && head[w] == '\n';
                    assert(s[w] == '\n');
                }
            }
            assert forall|i: int|
                0 <= i < lines_spec(s).len() implies !(#[trigger] lines_spec(s)[i]).contains(
                '\n') by {
                if i > 0 {
                    assert(lines_spec(s)[i] == lines_spec(s.skip(f + 1 as int))[i - 1]);
                }
            }
        }
    }
}

/// Splits a document into its lines.
pub fn split_lines(content: &str) -> (lines: Vec<Vec<char>>)
    ensures
        lines@.len() == lines_spec(content@).len(),
        forall|i: int| 0 <= i < lines@.len() ==> (#[trigger] lines@[i])@ == lines_spec(content@)[i],
{
    let chars = str_to_chars(content);
    split_lines_chars(&chars)
}

pub fn str_to_chars(s: &str) -> (v: Vec<char>)
    ensures
        v@ == s@,
{
    let n = s.unicode_len();
    let mut v: Vec<char> = Vec::new();
    let mut i: usize = 0;
    while i < n
        invariant
            0 <= i <= n,
            n == s@.len(),
            v@ == s@.take(i as int),
        decreases n - i,
    {
        v.push(s.get_char(i));
        proof {
            assert(v@ =~= s@.take(i + 1));
        }
        i += 1;
    }
    proof {
        assert(v@ =~= s@);
    }
    v
}

/// Appends one character to a string.  Relies on `String::push` from std:
/// it pushes the given character onto the end of the string.
#[verifier::external_body]
fn string_push(s: &mut String, c: char)
    ensures
        final(s)@ == old(s)@.push(c),
{
    s.push(c);
}

pub fn chars_to_string(v: &Vec<char>) -> (s: String)
    ensures
        s@ == v@,
{
    let mut s = String::new();
    let mut i: usize = 0;
    while i < v.len()
        invariant
            0 <= i <= v@.len(),
            s@ == v@.take(i as int),
        decreases v@.len() - i,
    {
        string_push(&mut s, v[i]);
        proof {
            assert(s@ =~= v@.take(i + 1));
        }
        i += 1;
    }
    proof {
        assert(s@ =~= v@);
    }
    s
}

fn split_lines_chars(s: &Vec<char>) -> (lines: Vec<Vec<char>>)
    ensures
        lines@.len() == lines_spec(s@).len(),
        forall|i: int| 0 <= i < lines@.len() ==> (#[trigger] lines@[i])@ == lines_spec(s@)[i],
{
    let mut lines: Vec<Vec<char>> = Vec::new();
    let mut pos: usize = 0;
    let n = s.len();
    proof {
        assert(s@.skip(0) =~= s@);
    }
    while pos < n
        invariant
            0 <= pos <= n,
            n == s@.len(),
            lines@.len() + lines_spec(s@.skip(pos as int)).len() == lines_spec(s@).len(),
            forall|i: int|
                0 <= i < lines@.len() ==> (#[trigger] lines@[i])@ == lines_spec(s@)[i],
            forall|i: int|
                0 <= i < lines_spec(s@.skip(pos as int)).len() ==> #[trigger] lines_spec(
                    s@.skip(pos as int),
                )[i] == lines_spec(s@)[lines@.len() + i],
        decreases n - pos,
    {
        let ghost rest = s@.skip(pos as int);
        proof {
            lemma_first_index(rest, '\n');
        }
        // scan to the next newline or the end
        let mut j: usize = pos;
        while j < n && s[j] != '\n'
            invariant
                pos <= j <= n,
                n == s@.len(),
                rest == s@.skip(pos as int),
                forall|k: int| pos <= k < j ==> s@[k] != '\n',
            decreases n - j,
        {
            j += 1;
        }
        proof {
            assert forall|k: int| 0 <= k < j - pos implies rest[k] != '\n' by {
                assert(rest[k] == s@[pos + k]);
            }
            if j < n {
                assert(rest[j - pos] == s@[j as int]);
            }
            assert(first_index(rest, '\n') == j - pos) by {
                let f = first_index(rest, '\n') as int;
                if f < j - pos {
                    assert(rest[f] == '\n');
                } else if f > j - pos {
                    assert(rest[j - pos] != '\n');
                }
            }
        }
        // copy the segment, dropping one trailing '\r' when the segment
        // ends before a newline
        let seg_end = if j < n && j > pos && s[j - 1] == '\r' {
            j - 1
        } else {
            j
        };
        let mut line: Vec<char> = Vec::new();
        let mut k: usize = pos;
        while k < seg_end
            invariant
                pos <= k <= seg_end <= n,
                n == s@.len(),
                line@ == s@.subrange(pos as int, k as int),
            decreases seg_end - k,
        {
            line.push(s[k]);
            proof {
                assert(line@ =~= s@.subrange(pos as int, k + 1));
            }
            k += 1;
        }
        proof {
            let f = (j - pos) as int;
            if f >= rest.len() {
                // last line, no newline: strip_cr does not apply
                assert(lines_spec(rest) == seq![rest]);
                assert(line@ =~= rest);
            } else {
                assert(rest.take(f) =~= s@.subrange(pos as int, j as int));
                if j > pos && s@[j - 1] == '\r' {
                    assert(rest.take(f)[f - 1] == '\r');
                    assert(strip_cr(rest.take(f)) =~= s@.subrange(pos as int, j - 1));
                    assert(line@ =~= strip_cr(rest.take(f)));
                } else {
                    if f > 0 {
                        assert(rest.take(f)[f - 1] == s@[j - 1]);
                    }
                    assert(strip_cr(rest.take(f)) =~= rest.take(f));
                    assert(line@ =~= strip_cr(rest.take(f)));
                }
                assert(lines_spec(rest) == seq![strip_cr(rest.take(f))] + lines_spec(
                    rest.skip(f + 1)));
            }
        }
        let ghost pre = lines@;
        lines.push(line);
        let ghost lv = line@;
        if j < n {
            proof {
                assert(rest.skip((j - pos) as int + 1) =~= s@.skip(j + 1 as int));
                assert(lines_spec(rest) == seq![lv] + lines_spec(s@.skip(j + 1 as int)));
            }
            pos = j + 1;
        } else {
            proof {
                assert(s@.skip(n as int) =~= Seq::<char>::empty());
                assert(lines_spec(s@.skip(n as int)) =~= Seq::<Seq<char>>::empty());
                assert(lines_spec(rest) =~= seq![lv] + lines_spec(s@.skip(n as int)));
            }
            pos = n;
        }
        proof {
            let rest2 = s@.skip(pos as int);
            assert(lines_spec(rest) =~= seq![lv] + lines_spec(rest2));
            assert(lines_spec(rest)[0] == lv);
            assert(lines_spec(s@)[pre.len() as int] == lv);
            assert forall|i: int|
                0 <= i < lines@.len() implies (#[trigger] lines@[i])@ == lines_spec(s@)[i] by {
                if i < pre.len() {
                    assert(lines@[i] == pre[i]);
                } else {
                    assert(lines@[i] == line);
                }
            }
            assert forall|i: int|
                0 <= i < lines_spec(rest2).len() implies #[trigger] lines_spec(rest2)[i]
                == lines_spec(s@)[lines@.len() + i] by {
                assert(lines_spec(rest2)[i] == lines_spec(rest)[i + 1]);
                assert(lines_spec(rest)[i + 1] == lines_spec(s@)[pre.len() + i + 1]);
            }
        }
    }
    proof {
        assert(s@.skip(pos as int) =~= Seq::<char>::empty());
        assert(lines_spec(s@.skip(pos as int)) =~= Seq::<Seq<char>>::empty());
    }
    lines
}

/// The document text that a sequence of lines joins back to, with a single
/// newline between lines (and nothing after the last).
pub open spec fn join_nl(ls: Seq<Seq<char>>) -> Seq<char>
    decreases ls.len(),
{
    if ls.len() == 0 {
        Seq::empty()
    } else if ls.len() == 1 {
        ls[0]
    } else {
        ls[0] + seq!['\n'] + join_nl(ls.drop_first())
    }
}

pub fn join_lines(ls: &Vec<Vec<char>>) -> (out: Vec<char>)
    ensures
        out@ == join_nl(ls@.map_values(|l: Vec<char>| l@)),
{
    let ghost lsv = ls@.map_values(|l: Vec<char>| l@);
    let mut out: Vec<char> = Vec::new();
    let mut i: usize = 0;
    while i < ls.len()
        invariant
            0 <= i <= ls@.len(),
            lsv == ls@.map_values(|l: Vec<char>| l@),
            lsv.len() == ls@.len(),
            i == 0 ==> out@ == Seq::<char>::empty(),
            i > 0 ==> out@ == join_nl(lsv.take(i as int)),
        decreases ls@.len() - i,
    {
        if i > 0 {
            out.push('\n');
        }
        let mut k: usize = 0;
        let ghost base = out@;
        while k < ls[i].len()
            invariant
                0 <= k <= ls@[i as int]@.len(),
                0 <= i < ls@.len(),
                out@ == base + ls@[i as int]@.take(k as int),
            decreases ls@[i as int]@.len() - k,
        {
            let c = ls[i][k];
            out.push(c);
            proof {
                assert(out@ =~= base + ls@[i as int]@.take(k + 1));
            }
            k += 1;
        }
        proof {
            assert(ls@[i as int]@.take(ls@[i as int]@.len() as int) =~= ls@[i as int]@);
            assert(lsv[i as int] == ls@[i as int]@);
            if i == 0 {
                assert(join_nl(lsv.take(1)) == lsv.take(1)[0]);
                assert(out@ =~= join_nl(lsv.take(1)));
            } else {
                lemma_join_snoc(lsv.take(i as int), lsv[i as int]);
                assert(lsv.take(i as int).push(lsv[i as int]) =~= lsv.take(i + 1));
                assert(out@ =~= join_nl(lsv.take(i as int)) + seq!['\n'] + lsv[i as int]);
            }
        }
        i += 1;
    }
    proof {
        if ls@.len() == 0 {
            assert(out@ =~= join_nl(lsv));
        } else {
            assert(lsv.take(lsv.len() as int) =~= lsv);
        }
    }
    out
}

/// Appending a line to a non-empty sequence appends a newline and the line
/// to the joined text.
pub proof fn lemma_join_snoc(ls: Seq<Seq<char>>, l: Seq<char>)
    requires
        ls.len() > 0,
    ensures
        join_nl(ls.push(l)) == join_nl(ls) + seq!['\n'] + l,
    decreases ls.len(),
{
    if ls.len() == 1 {
        assert(ls.push(l).drop_first() =~= seq![l]);
        assert(ls.push(l).len() == 2);
        assert(ls.push(l)[0] == ls[0]);
        assert(join_nl(seq![l]) == l);
        assert(join_nl(ls.push(l)) == ls[0] + seq!['\n'] + l);
        assert(join_nl(ls) + seq!['\n'] + l =~= ls[0] + seq!['\n'] + l);
        assert(join_nl(ls.push(l)) =~= join_nl(ls) + seq!['\n'] + l);
    } else {
        lemma_join_snoc(ls.drop_first(), l);
        assert(ls.push(l).drop_first() =~= ls.drop_first().push(l));
        assert(join_nl(ls.push(l)) == ls[0] + seq!['\n'] + join_nl(ls.drop_first().push(l)));
        assert(join_nl(ls.push(l)) =~= join_nl(ls) + seq!['\n'] + l);
    }
}

// ---------- substring containment ----------

/// `needle` occurs in `hay` as a contiguous run.
pub open spec fn contains_seq(hay: Seq<char>, needle: Seq<char>) -> bool {
    exists|i: int|
        0 <= i && i + needle.len() <= hay.len() && #[trigger] hay.subrange(i, i + needle.len())
            == needle
}

pub fn seq_contains(hay: &Vec<char>, needle: &Vec<char>) -> (r: bool)
    ensures
        r == contains_seq(hay@, needle@),
{
    let m = needle.len();
    let n = hay.len();
    if m == 0 {
        proof {
            assert(hay@.subrange(0, 0 + needle@.len() as int) =~= needle@);
        }
        return true;
    }
    if m > n {
        proof {
            assert(!contains_seq(hay@, needle@)) by {
                if contains_seq(hay@, needle@) {
                    let i = choose|i: int|
                        0 <= i && i + needle@.len() <= hay@.len() && #[trigger] hay@.subrange(
                            i,
                            i + needle@.len(),
                        ) == needle@;
                }
            }
        }
        return false;
    }
    let mut i: usize = 0;
    while i <= n - m
        invariant
            0 <= i <= n - m + 1,
            1 <= m <= n,
            m == needle@.len(),
            n == hay@.len(),
            forall|p: int| 0 <= p < i ==> #[trigger] hay@.subrange(p, p + m as int) != needle@,
        decreases n + 1 - i,
    {
        let mut k: usize = 0;
        let mut ok = true;
        while k < m
            invariant
                0 <= k <= m,
                0 <= i <= n - m,
                m == needle@.len(),
                n == hay@.len(),
                ok ==> forall|q: int| 0 <= q < k ==> hay@[i + q] == needle@[q],
                !ok ==> hay@.subrange(i as int, i as int + m as int) != needle@,
            decreases m - k,
        {
            if ok && hay[i + k] != needle[k] {
                proof {
                    assert(hay@.subrange(i as int, i as int + m as int)[k as int] == hay@[i + k]);
                }
                ok = false;
            }
            k += 1;
        }
        if ok {
            proof {
                assert(hay@.subrange(i as int, i as int + m as int) =~= needle@);
            }
            return true;
        }
        i += 1;
    }
    proof {
        assert(!contains_seq(hay@, needle@)) by {
            if contains_seq(hay@, needle@) {
                let p = choose|p: int|
                    0 <= p && p + needle@.len() <= hay@.len() && #[trigger] hay@.subrange(
                        p,
                        p + needle@.len(),
                    ) == needle@;
                assert(hay@.subrange(p, p + m as int) != needle@);
            }
        }
    }
    false
}

// ---------- pattern trimming ----------

pub open spec fn is_glob_edge(c: char) -> bool {
    c == '*' || c == '/'
}

pub open spec fn trim_start_glob(s: Seq<char>) -> Seq<char>
    decreases s.len(),
{
    if s.len() > 0 && is_glob_edge(s[0]) {
        trim_start_glob(s.drop_first())
    } else {
        s
    }
}

pub open spec fn trim_end_glob(s: Seq<char>) -> Seq<char>
    decreases s.len(),
{
    if s.len() > 0 && is_glob_edge(s[s.len() - 1]) {
        trim_end_glob(s.drop_last())
    } else {
        s
    }
}

/// A path pattern reduced to its literal core: leading and trailing `*`
/// and `/` characters are stripped, and the rest is used for substring
/// containment.
pub open spec fn trim_glob(s: Seq<char>) -> Seq<char> {
    trim_end_glob(trim_start_glob(s))
}

proof fn lemma_trim_start_glob(s: Seq<char>)
    ensures
        exists|a: int|
            0 <= a <= s.len() && trim_start_glob(s) =~= s.skip(a) && (forall|j: int|
                0 <= j < a ==> is_glob_edge(#[trigger] s[j])) && (a < s.len() ==> !is_glob_edge(
                s[a])),
    decreases s.len(),
{
    if s.len() > 0 && is_glob_edge(s[0]) {
        lemma_trim_start_glob(s.drop_first());
        let a0 = choose|a: int|
            0 <= a <= s.drop_first().len() && trim_start_glob(s.drop_first()) =~= s.drop_first().skip(
                a,
            ) && (forall|j: int| 0 <= j < a ==> is_glob_edge(#[trigger] s.drop_first()[j])) && (a
                < s.drop_first().len() ==> !is_glob_edge(s.drop_first()[a]));
        assert(s.drop_first().skip(a0) =~= s.skip(a0 + 1));
        assert forall|j: int| 0 <= j < a0 + 1 implies is_glob_edge(#[trigger] s[j]) by {
            if j > 0 {
                assert(s.drop_first()[j - 1] == s[j]);
            }
        }
        assert(a0 + 1 < s.len() ==> !is_glob_edge(s[a0 + 1]));
    } else {
        assert(trim_start_glob(s) =~= s.skip(0));
    }
}

proof fn lemma_trim_end_glob(s: Seq<char>)
    ensures
        exists|b: int|
            0 <= b <= s.len() && trim_end_glob(s) =~= s.take(b) && (forall|j: int|
                b <= j < s.len() ==> is_glob_edge(#[trigger] s[j])) && (b > 0 ==> !is_glob_edge(
                s[b - 1])),
    decreases s.len(),
{
    if s.len() > 0 && is_glob_edge(s[s.len() - 1]) {
        lemma_trim_end_glob(s.drop_last());
        let b0 = choose|b: int|
            0 <= b <= s.drop_last().len() && trim_end_glob(s.drop_last()) =~= s.drop_last().take(b)
                && (forall|j: int|
                b <= j < s.drop_last().len() ==> is_glob_edge(#[trigger] s.drop_last()[j])) && (b
                > 0 ==> !is_glob_edge(s.drop_last()[b - 1]));
        assert(s.drop_last().take(b0) =~= s.take(b0));
        assert forall|j: int| b0 <= j < s.len() implies is_glob_edge(#[trigger] s[j]) by {
            if j < s.len() - 1 {
                assert(s.drop_last()[j] == s[j]);
            }
        }
        assert(b0 > 0 ==> s.drop_last()[b0 - 1] == s[b0 - 1]);
    } else {
        assert(trim_end_glob(s) =~= s.take(s.len() as int));
    }
}

pub fn trim_glob_exec(s: &Vec<char>) -> (r: Vec<char>)
    ensures
        r@ == trim_glob(s@),
{
    let n = s.len();
    proof {
        lemma_trim_start_glob(s@);
    }
    let mut a: usize = 0;
    while a < n && (s[a] == '*' || s[a] == '/')
        invariant
            0 <= a <= n,
            n == s@.len(),
            forall|j: int| 0 <= j < a ==> is_glob_edge(#[trigger] s@[j]),
        decreases n - a,
    {
        a += 1;
    }
    proof {
        let a0 = choose|x: int|
            0 <= x <= s@.len() && trim_start_glob(s@) =~= s@.skip(x) && (forall|j: int|
                0 <= j < x ==> is_glob_edge(#[trigger] s@[j])) && (x < s@.len() ==> !is_glob_edge(
                s@[x]));
        assert(a0 == a) by {
            if a0 < a {
                assert(is_glob_edge(s@[a0]));
            }
            if a0 > a {
                assert(is_glob_edge(s@[a as int]));
            }
        }
        lemma_trim_end_glob(s@.skip(a as int));
    }
    let ghost mid = s@.skip(a as int);
    let mut b: usize = n;
    while b > a && (s[b - 1] == '*' || s[b - 1] == '/')
        invariant
            a <= b <= n,
            n == s@.len(),
            forall|j: int| b <= j < n ==> is_glob_edge(#[trigger] s@[j]),
        decreases b,
    {
        b -= 1;
    }
    proof {
        let b0 = choose|x: int|
            0 <= x <= mid.len() && trim_end_glob(mid) =~= mid.take(x) && (forall|j: int|
                x <= j < mid.len() ==> is_glob_edge(#[trigger] mid[j])) && (x > 0 ==> !is_glob_edge(
                mid[x - 1]));
        assert forall|j: int| b0 + a <= j < n implies is_glob_edge(#[trigger] s@[j]) by {
            assert(mid[j - a] == s@[j]);
        }
        assert(b0 == b - a) by {
            if b0 < b - a {
                assert(is_glob_edge(mid[b - a - 1]));
                assert(s@[b - 1] == mid[b - a - 1]);
            }
            if b0 > b - a {
                assert(is_glob_edge(s@[a + b0 - 1]));
                assert(mid[b0 - 1] == s@[a + b0 - 1]);
            }
        }
        assert(trim_glob(s@) =~= s@.subrange(a as int, b as int));
    }
    let mut r: Vec<char> = Vec::new();
    let mut k: usize = a;
    while k < b
        invariant
            a <= k <= b <= n,
            n == s@.len(),
            r@ == s@.subrange(a as int, k as int),
        decreases b - k,
    {
        r.push(s[k]);
        proof {
            assert(r@ =~= s@.subrange(a as int, k + 1));
        }
        k += 1;
    }
    proof {
        assert(r@ =~= trim_glob(s@));
    }
    r
}

/// The contiguous piece of `v` between two indices, as a fresh vector.
pub fn sub_chars(v: &Vec<char>, from: usize, to: usize) -> (r: Vec<char>)
    requires
        from <= to <= v@.len(),
    ensures
        r@ == v@.subrange(from as int, to as int),
{
    let mut r: Vec<char> = Vec::new();
    let mut k: usize = from;
    while k < to
        invariant
            from <= k <= to <= v@.len(),
            r@ == v@.subrange(from as int, k as int),
        decreases to - k,
    {
        r.push(v[k]);
        proof {
            assert(r@ =~= v@.subrange(from as int, k + 1));
        }
        k += 1;
    }
    r
}

/// Appends the characters of `s` to `out`.
pub fn push_str_chars(out: &mut Vec<char>, s: &str)
    ensures
        final(out)@ == old(out)@ + s@,
{
    let n = s.unicode_len();
    let mut i: usize = 0;
    while i < n
        invariant
            0 <= i <= n,
            n == s@.len(),
            out@ == old(out)@ + s@.take(i as int),
        decreases n - i,
    {
        out.push(s.get_char(i));
        proof {
            assert(old(out)@ + s@.take(i as int + 1) =~= (old(out)@ + s@.take(i as int)).push(
                s@[i as int]));
        }
        i += 1;
    }
    proof {
        assert(s@.take(n as int) =~= s@);
    }
}

/// The views of a sequence of character vectors.
pub open spec fn char_views(v: Seq<Vec<char>>) -> Seq<Seq<char>> {
    v.map_values(|l: Vec<char>| l@)
}

// ---------- trimming line whitespace ----------

pub open spec fn trim_ws_start(s: Seq<char>) -> Seq<char>
    decreases s.len(),
{
    if s.len() > 0 && is_line_ws(s[0]) {
        trim_ws_start(s.drop_first())
    } else {
        s
    }
}

pub open spec fn trim_ws_end(s: Seq<char>) -> Seq<char>
    decreases s.len(),
{
    if s.len() > 0 && is_line_ws(s[s.len() - 1]) {
        trim_ws_end(s.drop_last())
    } else {
        s
    }
}

/// The text with leading and trailing spaces, tabs and carriage returns
/// removed.
pub open spec fn trim_ws(s: Seq<char>) -> Seq<char> {
    trim_ws_end(trim_ws_start(s))
}

proof fn lemma_trim_ws_start(s: Seq<char>)
    ensures
        exists|a: int|
            0 <= a <= s.len() && trim_ws_start(s) =~= s.skip(a) && (forall|j: int|
                0 <= j < a ==> is_line_ws(#[trigger] s[j])) && (a < s.len() ==> !is_line_ws(
                s[a])),
    decreases s.len(),
{
    if s.len() > 0 && is_line_ws(s[0]) {
        lemma_trim_ws_start(s.drop_first());
        let a0 = choose|a: int|
            0 <= a <= s.drop_first().len() && trim_ws_start(s.drop_first()) =~= s.drop_first().skip(
                a,
            ) && (forall|j: int| 0 <= j < a ==> is_line_ws(#[trigger] s.drop_first()[j])) && (a
                < s.drop_first().len() ==> !is_line_ws(s.drop_first()[a]));
        assert(s.drop_first().skip(a0) =~= s.skip(a0 + 1));
        assert forall|j: int| 0 <= j < a0 + 1 implies is_line_ws(#[trigger] s[j]) by {
            if j > 0 {
                assert(s.drop_first()[j - 1] == s[j]);
            }
        }
        assert(a0 + 1 < s.len() ==> !is_line_ws(s[a0 + 1]));
    } else {
        assert(trim_ws_start(s) =~= s.skip(0));
    }
}

pub proof fn lemma_trim_ws_end(s: Seq<char>)
    ensures
        exists|b: int|
            0 <= b <= s.len() && trim_ws_end(s) =~= s.take(b) && (forall|j: int|
                b <= j < s.len() ==> is_line_ws(#[trigger] s[j])) && (b > 0 ==> !is_line_ws(
                s[b - 1])),
    decreases s.len(),
{
    if s.len() > 0 && is_line_ws(s[s.len() - 1]) {
        lemma_trim_ws_end(s.drop_last());
        let b0 = choose|b: int|
            0 <= b <= s.drop_last().len() && trim_ws_end(s.drop_last()) =~= s.drop_last().take(b)
                && (forall|j: int|
                b <= j < s.drop_last().len() ==> is_line_ws(#[trigger] s.drop_last()[j])) && (b > 0
                ==> !is_line_ws(s.drop_last()[b - 1]));
        assert(s.drop_last().take(b0) =~= s.take(b0));
        assert forall|j: int| b0 <= j < s.len() implies is_line_ws(#[trigger] s[j]) by {
            if j < s.len() - 1 {
                assert(s.drop_last()[j] == s[j]);
            }
        }
        assert(b0 > 0 ==> s.drop_last()[b0 - 1] == s[b0 - 1]);
    } else {
        assert(trim_ws_end(s) =~= s.take(s.len() as int));
    }
}

/// Strips trailing spaces, tabs and carriage returns only.
pub fn trim_end_exec(s: &Vec<char>) -> (r: Vec<char>)
    ensures
        r@ == trim_ws_end(s@),
{
    let n = s.len();
    proof {
        lemma_trim_ws_end(s@);
    }
    let mut b: usize = n;
    while b > 0 && (s[b - 1] == ' ' || s[b - 1] == '\t' || s[b - 1] == '\r')
        invariant
            0 <= b <= n,
            n == s@.len(),
            forall|j: int| b <= j < n ==> is_line_ws(#[trigger] s@[j]),
        decreases b,
    {
        b -= 1;
    }
    proof {
        let b0 = choose|x: int|
            0 <= x <= s@.len() && trim_ws_end(s@) =~= s@.take(x) && (forall|j: int|
                x <= j < s@.len() ==> is_line_ws(#[trigger] s@[j])) && (x > 0 ==> !is_line_ws(
                s@[x - 1]));
        assert(b0 == b) by {
            if b0 < b {
                assert(is_line_ws(s@[b - 1]));
            }
            if b0 > b {
                assert(is_line_ws(s@[b0 - 1]));
            }
        }
    }
    let r = sub_chars(s, 0, b);
    proof {
        assert(r@ =~= trim_ws_end(s@));
    }
    r
}

pub fn trim_ws_exec(s: &Vec<char>) -> (r: Vec<char>)
    ensures
        r@ == trim_ws(s@),
{
    let n = s.len();
    proof {
        lemma_trim_ws_start(s@);
    }
    let mut a: usize = 0;
    while a < n && (s[a] == ' ' || s[a] == '\t' || s[a] == '\r')
        invariant
            0 <= a <= n,
            n == s@.len(),
            forall|j: int| 0 <= j < a ==> is_line_ws(#[trigger] s@[j]),
        decreases n - a,
    {
        a += 1;
    }
    proof {
        let a0 = choose|x: int|
            0 <= x <= s@.len() && trim_ws_start(s@) =~= s@.skip(x) && (forall|j: int|
                0 <= j < x ==> is_line_ws(#[trigger] s@[j])) && (x < s@.len() ==> !is_line_ws(
                s@[x]));
        assert(a0 == a) by {
            if a0 < a {
                assert(is_line_ws(s@[a0]));
            }
            if a0 > a {
                assert(is_line_ws(s@[a as int]));
            }
        }
        lemma_trim_ws_end(s@.skip(a as int));
    }
    let ghost mid = s@.skip(a as int);
    let mut b: usize = n;
    while b > a && (s[b - 1] == ' ' || s[b - 1] == '\t' || s[b - 1] == '\r')
        invariant
            a <= b <= n,
            n == s@.len(),
            forall|j: int| b <= j < n ==> is_line_ws(#[trigger] s@[j]),
        decreases b,
    {
        b -= 1;
    }
    proof {
        let b0 = choose|x: int|
            0 <= x <= mid.len() && trim_ws_end(mid) =~= mid.take(x) && (forall|j: int|
                x <= j < mid.len() ==> is_line_ws(#[trigger] mid[j])) && (x > 0 ==> !is_line_ws(
                mid[x - 1]));
        assert forall|j: int| b0 + a <= j < n implies is_line_ws(#[trigger] s@[j]) by {
            assert(mid[j - a] == s@[j]);
        }
        assert(b0 == b - a) by {
            if b0 < b - a {
                assert(is_line_ws(mid[b - a - 1]));
                assert(s@[b - 1] == mid[b - a - 1]);
            }
            if b0 > b - a {
                assert(is_line_ws(s@[a + b0 - 1]));
                assert(mid[b0 - 1] == s@[a + b0 - 1]);
            }
        }
        assert(trim_ws(s@) =~= s@.subrange(a as int, b as int));
    }
    let mut r: Vec<char> = Vec::new();
    let mut k: usize = a;
    while k < b
        invariant
            a <= k <= b <= n,
            n == s@.len(),
            r@ == s@.subrange(a as int, k as int),
        decreases b - k,
    {
        r.push(s[k]);
        proof {
            assert(r@ =~= s@.subrange(a as int, k + 1));
        }
        k += 1;
    }
    proof {
        assert(r@ =~= trim_ws(s@));
    }
    r
}

// ---------- equality with literals ----------

pub fn chars_eq_str(v: &Vec<char>, s: &str) -> (r: bool)
    ensures
        r == (v@ == s@),
{
    let n = s.unicode_len();
    if v.len() != n {
        return false;
    }
    let mut i: usize = 0;
    while i < n
        invariant
            0 <= i <= n,
            n == s@.len(),
            n == v@.len(),
            forall|j: int| 0 <= j < i ==> v@[j] == s@[j],
        decreases n - i,
    {
        if v[i] != s.get_char(i) {
            return false;
        }
        i += 1;
    }
    proof {
        assert(v@ =~= s@);
    }
    true
}

} // verus!
