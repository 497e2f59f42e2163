//! The auto-fix rewriter: an independent pass over the raw lines, driven
//! by the same configuration as the checks but not by their diagnostics.
//! The steps run in a fixed order — indentation truncation, trailing
//! whitespace removal, blank-line normalization, quote normalization —
//! and the result is joined with single newlines plus one final newline.
use vstd::prelude::*;
use crate::config::Config;
use crate::linter::LintReport;
use crate::text;

verus! {

broadcast use
    vstd::std_specs::vec::group_vec_axioms,
    vstd::seq::axiom_seq_index_decreases,
    vstd::seq::axiom_seq_subrange_decreases;

pub open spec fn spaces(n: nat) -> Seq<char> {
    Seq::new(n, |i: int| ' ')
}

/// Indentation truncation of one line: a leading run of spaces is cut
/// down to the nearest multiple of the unit below it; blank lines and
/// lines that do not open with a space are untouched.
pub open spec fn fix_indent_line(l: Seq<char>, unit: nat) -> Seq<char> {
    if text::is_blank(l) || l.len() == 0 || l[0] != ' ' {
        l
    } else {
        spaces((text::leading_spaces(l) / unit) * unit) + l.skip(text::leading_spaces(l) as int)
    }
}

pub open spec fn fix_indent_lines(ls: Seq<Seq<char>>, unit: nat) -> Seq<Seq<char>> {
    ls.map_values(|l: Seq<char>| fix_indent_line(l, unit))
}

/// Trailing-whitespace removal of one line.
pub open spec fn strip_trailing_line(l: Seq<char>) -> Seq<char> {
    text::trim_ws_end(l)
}

pub open spec fn strip_trailing_lines(ls: Seq<Seq<char>>) -> Seq<Seq<char>> {
    ls.map_values(|l: Seq<char>| strip_trailing_line(l))
}

pub open spec fn drop_leading_blank_lines(ls: Seq<Seq<char>>) -> Seq<Seq<char>>
    decreases ls.len(),
{
    if ls.len() > 0 && text::is_blank(ls[0]) {
        drop_leading_blank_lines(ls.subrange(1, ls.len() as int))
    } else {
        ls
    }
}

pub open spec fn drop_trailing_blank_lines(ls: Seq<Seq<char>>) -> Seq<Seq<char>>
    decreases ls.len(),
{
    if ls.len() > 0 && text::is_blank(ls[ls.len() - 1]) {
        drop_trailing_blank_lines(ls.subrange(0, ls.len() - 1))
    } else {
        ls
    }
}

pub open spec fn min_int(a: int, b: int) -> int {
    if a <= b {
        a
    } else {
        b
    }
}

/// Caps every run of blank lines at `maxc` lines, deleting the excess
/// from the front of the run (the tail of the run is kept).
pub open spec fn cap_blank_runs(ls: Seq<Seq<char>>, maxc: nat) -> Seq<Seq<char>>
    decreases ls.len(),
{
    if ls.len() == 0 {
        Seq::empty()
    } else if !text::is_blank(ls[0]) {
        seq![ls[0]] + cap_blank_runs(ls.subrange(1, ls.len() as int), maxc)
    } else {
        let r = min_int(crate::rules::leading_blanks(ls) as int, ls.len() as int);
        let keep = min_int(r, maxc as int);
        ls.subrange(r - keep, r) + cap_blank_runs(ls.subrange(r, ls.len() as int), maxc)
    }
}

/// Blank-line normalization: strip every leading and trailing blank
/// line, cap the interior runs, and append one blank line whenever
/// `max_end` is positive (its numeric value is not otherwise used).
pub open spec fn normalize_blank_lines(ls: Seq<Seq<char>>, maxc: nat, maxe: nat) -> Seq<
    Seq<char>,
> {
    let a = drop_trailing_blank_lines(drop_leading_blank_lines(ls));
    let b = cap_blank_runs(a, maxc);
    if maxe > 0 {
        b.push(Seq::empty())
    } else {
        b
    }
}

// ---------- the executable passes ----------

proof fn lemma_drop_leading_blank(ls: Seq<Seq<char>>)
    ensures
        exists|a: int|
            0 <= a <= ls.len() && drop_leading_blank_lines(ls) =~= ls.skip(a) && (forall|j: int|
                0 <= j < a ==> text::is_blank(#[trigger] ls[j])) && (a < ls.len()
                ==> !text::is_blank(ls[a])),
    decreases ls.len(),
{
    if ls.len() > 0 && text::is_blank(ls[0]) {
        let tail = ls.subrange(1, ls.len() as int);
        lemma_drop_leading_blank(tail);
        let a0 = choose|a: int|
            0 <= a <= tail.len() && drop_leading_blank_lines(tail) =~= tail.skip(a) && (forall|
                j: int,
            |
                0 <= j < a ==> text::is_blank(#[trigger] tail[j])) && (a < tail.len()
                ==> !text::is_blank(tail[a]));
        assert(tail.skip(a0) =~= ls.skip(a0 + 1));
        assert forall|j: int| 0 <= j < a0 + 1 implies text::is_blank(#[trigger] ls[j]) by {
            if j > 0 {
                assert(tail[j - 1] == ls[j]);
            }
        }
        assert(a0 + 1 < ls.len() ==> !text::is_blank(ls[a0 + 1]));
    } else {
        assert(drop_leading_blank_lines(ls) =~= ls.skip(0));
    }
}

proof fn lemma_drop_trailing_blank(ls: Seq<Seq<char>>)
    ensures
        exists|b: int|
            0 <= b <= ls.len() && drop_trailing_blank_lines(ls) =~= ls.take(b) && (forall|j: int|
                b <= j < ls.len() ==> text::is_blank(#[trigger] ls[j])) && (b > 0
                ==> !text::is_blank(ls[b - 1])),
    decreases ls.len(),
{
    if ls.len() > 0 && text::is_blank(ls[ls.len() - 1]) {
        let head = ls.subrange(0, ls.len() - 1);
        lemma_drop_trailing_blank(head);
        let b0 = choose|b: int|
            0 <= b <= head.len() && drop_trailing_blank_lines(head) =~= head.take(b) && (forall|
                j: int,
            |
                b <= j < head.len() ==> text::is_blank(#[trigger] head[j])) && (b > 0
                ==> !text::is_blank(head[b - 1]));
        assert(head.take(b0) =~= ls.take(b0));
        assert forall|j: int| b0 <= j < ls.len() implies text::is_blank(#[trigger] ls[j]) by {
            if j < ls.len() - 1 {
                assert(head[j] == ls[j]);
            }
        }
        assert(b0 > 0 ==> head[b0 - 1] == ls[b0 - 1]);
    } else {
        assert(drop_trailing_blank_lines(ls) =~= ls.take(ls.len() as int));
    }
}

/// Truncates every indenting space run down to a whole number of units.
pub fn fix_indentation(lines: &mut Vec<Vec<char>>, config: &Config)
    requires
        config.wf(),
    ensures
        text::char_views(final(lines)@) == fix_indent_lines(
            text::char_views(old(lines)@),
            config.rules.indentation.spaces as nat,
        ),
{
    let unit = config.rules.indentation.spaces;
    let ghost lv = text::char_views(old(lines)@);
    let mut out: Vec<Vec<char>> = Vec::new();
    let mut i: usize = 0;
    while i < lines.len()
        invariant
            0 <= i <= lines@.len(),
            lines@ == old(lines)@,
            unit == config.rules.indentation.spaces,
            unit >= 1,
            lv == text::char_views(lines@),
            lv.len() == lines@.len(),
            forall|j: int| 0 <= j < lv.len() ==> #[trigger] lv[j] == lines@[j]@,
            out@.len() == i,
            forall|j: int|
                0 <= j < i ==> (#[trigger] out@[j])@ == fix_indent_line(lv[j], unit as nat),
        decreases lines@.len() - i,
    {
        let line = &lines[i];
        if !text::line_is_blank(line) && line.len() > 0 && line[0] == ' ' {
            let k = text::count_leading_spaces(line);
            proof {
                text::lemma_leading_spaces(line@);
                vstd::arithmetic::div_mod::lemma_fundamental_div_mod(k as int, unit as int);
                vstd::arithmetic::div_mod::lemma_mod_bound(k as int, unit as int);
                vstd::arithmetic::mul::lemma_mul_is_commutative(
                    k as int / unit as int,
                    unit as int,
                );
                assert((k as int / unit as int) * (unit as int) <= k as int);
            }
            let m = (k / unit) * unit;
            let mut nl: Vec<char> = Vec::new();
            let mut p: usize = 0;
            while p < m
                invariant
                    0 <= p <= m,
                    nl@ == spaces(p as nat),
                decreases m - p,
            {
                nl.push(' ');
                proof {
                    assert(nl@ =~= spaces((p + 1) as nat));
                }
                p += 1;
            }
            let mut q: usize = k;
            while q < line.len()
                invariant
                    k <= q <= line@.len(),
                    m <= k <= line@.len(),
                    nl@ == spaces(m as nat) + line@.subrange(k as int, q as int),
                decreases line@.len() - q,
            {
                nl.push(line[q]);
                proof {
                    assert(nl@ =~= spaces(m as nat) + line@.subrange(k as int, q + 1));
                }
                q += 1;
            }
            proof {
                assert(line@.subrange(k as int, line@.len() as int) =~= line@.skip(k as int));
                assert(nl@ =~= fix_indent_line(lv[i as int], unit as nat));
            }
            out.push(nl);
        } else {
            let copy = text::sub_chars(line, 0, line.len());
            proof {
                assert(copy@ =~= lv[i as int]);
                assert(lv[i as int] == fix_indent_line(lv[i as int], unit as nat));
            }
            out.push(copy);
        }
        i += 1;
    }
    *lines = out;
    proof {
        assert(text::char_views(lines@) =~= fix_indent_lines(lv, unit as nat));
    }
}

/// Removes trailing spaces and tabs from every line.
pub fn fix_trailing_spaces(lines: &mut Vec<Vec<char>>)
    ensures
        text::char_views(final(lines)@) == strip_trailing_lines(text::char_views(old(lines)@)),
{
    let ghost lv = text::char_views(old(lines)@);
    let mut out: Vec<Vec<char>> = Vec::new();
    let mut i: usize = 0;
    while i < lines.len()
        invariant
            0 <= i <= lines@.len(),
            lines@ == old(lines)@,
            lv == text::char_views(lines@),
            lv.len() == lines@.len(),
            forall|j: int| 0 <= j < lv.len() ==> #[trigger] lv[j] == lines@[j]@,
            out@.len() == i,
            forall|j: int|
                0 <= j < i ==> (#[trigger] out@[j])@ == strip_trailing_line(lv[j]),
        decreases lines@.len() - i,
    {
        let t = text::trim_end_exec(&lines[i]);
        out.push(t);
        i += 1;
    }
    *lines = out;
    proof {
        assert(text::char_views(lines@) =~= strip_trailing_lines(lv));
    }
}

/// Strips leading and trailing blank lines, caps interior blank runs,
/// and appends one final blank line when `max_end` is positive.
pub fn fix_empty_lines(lines: &mut Vec<Vec<char>>, config: &Config)
    ensures
        text::char_views(final(lines)@) == normalize_blank_lines(
            text::char_views(old(lines)@),
            config.rules.empty_lines.max_consecutive as nat,
            config.rules.empty_lines.max_end as nat,
        ),
{
    let maxc = config.rules.empty_lines.max_consecutive;
    let ghost lv = text::char_views(old(lines)@);
    proof {
        assert(lv.len() == lines@.len());
        assert forall|j: int| 0 <= j < lv.len() implies #[trigger] lv[j] == lines@[j]@ by {}
        lemma_drop_leading_blank(lv);
    }
    let n = lines.len();
    let mut a: usize = 0;
    while a < n && text::line_is_blank(&lines[a])
        invariant
            0 <= a <= n,
            n == lines@.len(),
            lines@ == old(lines)@,
            lv == text::char_views(lines@),
            lv.len() == n,
            forall|j: int| 0 <= j < lv.len() ==> #[trigger] lv[j] == lines@[j]@,
            forall|j: int| 0 <= j < a ==> text::is_blank(#[trigger] lv[j]),
        decreases n - a,
    {
        a += 1;
    }
    proof {
        let a0 = choose|x: int|
            0 <= x <= lv.len() && drop_leading_blank_lines(lv) =~= lv.skip(x) && (forall|j: int|
                0 <= j < x ==> text::is_blank(#[trigger] lv[j])) && (x < lv.len()
                ==> !text::is_blank(lv[x]));
        assert(a0 == a) by {
            if a0 < a {
                assert(text::is_blank(lv[a0]));
            }
            if a0 > a {
                assert(text::is_blank(lv[a as int]));
            }
        }
        lemma_drop_trailing_blank(lv.skip(a as int));
    }
    let ghost mid0 = lv.skip(a as int);
    let mut b: usize = n;
    while b > a && text::line_is_blank(&lines[b - 1])
        invariant
            a <= b <= n,
            n == lines@.len(),
            lines@ == old(lines)@,
            lv == text::char_views(lines@),
            lv.len() == n,
            forall|j: int| 0 <= j < lv.len() ==> #[trigger] lv[j] == lines@[j]@,
            forall|j: int| b <= j < n ==> text::is_blank(#[trigger] lv[j]),
        decreases b,
    {
        b -= 1;
    }
    proof {
        let b0 = choose|x: int|
            0 <= x <= mid0.len() && drop_trailing_blank_lines(mid0) =~= mid0.take(x) && (forall|
                j: int,
            |
                x <= j < mid0.len() ==> text::is_blank(#[trigger] mid0[j])) && (x > 0
                ==> !text::is_blank(mid0[x - 1]));
        assert forall|j: int| b0 + a <= j < n implies text::is_blank(#[trigger] lv[j]) by {
            assert(mid0[j - a] == lv[j]);
        }
        assert(b0 == b - a) by {
            if b0 < b - a {
                assert(text::is_blank(mid0[b - a - 1]));
                assert(lv[b - 1] == mid0[b - a - 1]);
            }
            if b0 > b - a {
                assert(text::is_blank(lv[a + b0 - 1]));
                assert(mid0[b0 - 1] == lv[a + b0 - 1]);
            }
        }
        assert(drop_trailing_blank_lines(drop_leading_blank_lines(lv)) =~= lv.subrange(
            a as int,
            b as int,
        ));
    }
    let ghost mid = lv.subrange(a as int, b as int);
    let mut out: Vec<Vec<char>> = Vec::new();
    let mut t: usize = a;
    proof {
        assert(mid.subrange(0, mid.len() as int) =~= mid);
        assert(text::char_views(out@) =~= Seq::<Seq<char>>::empty());
        assert(cap_blank_runs(mid, maxc as nat) =~= text::char_views(out@) + cap_blank_runs(
            lv.subrange(t as int, b as int),
            maxc as nat,
        ));
    }
    while t < b
        invariant
            a <= t <= b <= n,
            n == lines@.len(),
            lines@ == old(lines)@,
            lv == text::char_views(lines@),
            lv.len() == n,
            forall|j: int| 0 <= j < lv.len() ==> #[trigger] lv[j] == lines@[j]@,
            mid == lv.subrange(a as int, b as int),
            maxc == config.rules.empty_lines.max_consecutive,
            cap_blank_runs(mid, maxc as nat) == text::char_views(out@) + cap_blank_runs(
                lv.subrange(t as int, b as int),
                maxc as nat,
            ),
        decreases b - t,
    {
        let ghost seg = lv.subrange(t as int, b as int);
        if !text::line_is_blank(&lines[t]) {
            let copy = text::sub_chars(&lines[t], 0, lines[t].len());
            proof {
                assert(copy@ =~= lv[t as int]);
            }
            let ghost preout = out@;
            out.push(copy);
            proof {
                assert(seg[0] == lv[t as int]);
                assert(seg.subrange(1, seg.len() as int) =~= lv.subrange(t + 1, b as int));
                assert(cap_blank_runs(seg, maxc as nat) == seq![seg[0]] + cap_blank_runs(
                    lv.subrange(t + 1, b as int),
                    maxc as nat,
                ));
                assert(text::char_views(out@) =~= text::char_views(preout).push(lv[t as int]));
                assert(text::char_views(out@) + cap_blank_runs(
                    lv.subrange(t + 1, b as int),
                    maxc as nat,
                ) =~= text::char_views(preout) + cap_blank_runs(seg, maxc as nat));
            }
            t += 1;
        } else {
            // measure the blank run
            let mut e: usize = t;
            while e < b && text::line_is_blank(&lines[e])
                invariant
                    t <= e <= b <= n,
                    n == lines@.len(),
                    lines@ == old(lines)@,
                    lv == text::char_views(lines@),
                    lv.len() == n,
                    forall|j: int| 0 <= j < lv.len() ==> #[trigger] lv[j] == lines@[j]@,
                    forall|j: int| t <= j < e ==> text::is_blank(#[trigger] lv[j]),
                decreases b - e,
            {
                e += 1;
            }
            proof {
                crate::rules::lemma_leading_blanks(seg);
                assert forall|j: int| 0 <= j < e - t implies text::is_blank(
                    #[trigger] seg[j]) by {
                    assert(seg[j] == lv[t + j]);
                }
                if e < b {
                    assert(seg[e - t] == lv[e as int]);
                }
                assert(crate::rules::leading_blanks(seg) == e - t) by {
                    let r = crate::rules::leading_blanks(seg) as int;
                    if r < e - t {
                        assert(text::is_blank(seg[r]));
                    } else if r > e - t {
                        assert(text::is_blank(seg[e - t]));
                    }
                }
            }
            let run = e - t;
            let keep = if run < maxc {
                run
            } else {
                maxc
            };
            let ghost preout = out@;
            let mut c: usize = e - keep;
            proof {
                assert(text::char_views(out@) =~= text::char_views(preout) + lv.subrange(
                    (e - keep) as int,
                    (e - keep) as int,
                ));
            }
            while c < e
                invariant
                    t <= e,
                    keep <= e - t,
                    e - keep <= c <= e <= b <= n,
                    n == lines@.len(),
                    lines@ == old(lines)@,
                    lv == text::char_views(lines@),
                    lv.len() == n,
                    forall|j: int| 0 <= j < lv.len() ==> #[trigger] lv[j] == lines@[j]@,
                    text::char_views(out@) == text::char_views(preout) + lv.subrange(
                        (e - keep) as int,
                        c as int,
                    ),
                decreases e - c,
            {
                let copy = text::sub_chars(&lines[c], 0, lines[c].len());
                proof {
                    assert(copy@ =~= lv[c as int]);
                }
                let ghost prev = out@;
                out.push(copy);
                proof {
                    let ghost cv = copy@;
                    assert(text::char_views(out@) =~= text::char_views(prev).push(cv));
                    assert(text::char_views(prev).push(cv) =~= text::char_views(preout)
                        + lv.subrange((e - keep) as int, c + 1));
                }
                c += 1;
            }
            proof {
                let r = (e - t) as int;
                let kp = keep as int;
                assert(min_int(crate::rules::leading_blanks(seg) as int, seg.len() as int) == r);
                assert(min_int(r, maxc as int) == kp);
                assert(seg.subrange(r - kp, r) =~= lv.subrange((e - keep) as int, e as int));
                assert(seg.subrange(r, seg.len() as int) =~= lv.subrange(e as int, b as int));
                assert(cap_blank_runs(seg, maxc as nat) == seg.subrange(r - kp, r)
                    + cap_blank_runs(lv.subrange(e as int, b as int), maxc as nat));
                assert(text::char_views(out@) + cap_blank_runs(
                    lv.subrange(e as int, b as int),
                    maxc as nat,
                ) =~= text::char_views(preout) + cap_blank_runs(seg, maxc as nat));
            }
            t = e;
        }
    }
    proof {
        assert(lv.subrange(b as int, b as int) =~= Seq::<Seq<char>>::empty());
        assert(cap_blank_runs(lv.subrange(b as int, b as int), maxc as nat)
            =~= Seq::<Seq<char>>::empty());
        assert(text::char_views(out@) =~= cap_blank_runs(mid, maxc as nat));
    }
    if config.rules.empty_lines.max_end > 0 {
        let empty_line: Vec<char> = Vec::new();
        out.push(empty_line);
        proof {
            assert(text::char_views(out@) =~= cap_blank_runs(mid, maxc as nat).push(
                Seq::<char>::empty()));
        }
    }
    *lines = out;
    proof {
        assert(text::char_views(lines@) =~= normalize_blank_lines(
            lv,
            maxc as nat,
            config.rules.empty_lines.max_end as nat,
        ));
    }
}

// ---------- quote normalization ----------

pub open spec fn is_quote(c: char) -> bool {
    c == '"' || c == '\''
}

/// A quote at position `p` that closes later in the line.
pub open spec fn has_close(l: Seq<char>, p: int) -> bool {
    0 <= p < l.len() && is_quote(l[p]) && l.skip(p + 1).contains(l[p])
}

/// The first position of a quoted span: the earliest quote character
/// with a matching close after it (the line's length when none exists).
pub open spec fn span_start(l: Seq<char>) -> nat
    decreases l.len(),
{
    if l.len() == 0 {
        0
    } else if is_quote(l[0]) && l.skip(1).contains(l[0]) {
        0
    } else {
        (1 + span_start(l.skip(1))) as nat
    }
}

proof fn lemma_span_start(l: Seq<char>)
    ensures
        span_start(l) <= l.len(),
        span_start(l) < l.len() ==> has_close(l, span_start(l) as int),
        forall|p: int| 0 <= p < span_start(l) ==> !has_close(l, p),
    decreases l.len(),
{
    if l.len() > 0 && !(is_quote(l[0]) && l.skip(1).contains(l[0]))  {
        let tail = l.skip(1);
        lemma_span_start(tail);
        let ss = span_start(l) as int;
        assert forall|p: int| 0 <= p < ss implies !has_close(l, p) by {
            if p == 0 {
                if has_close(l, 0) {
                    assert(l.skip(0 + 1 as int) == l.skip(1));
                }
            } else {
                assert(!has_close(tail, p - 1));
                if has_close(l, p) {
                    assert(tail[p - 1] == l[p]);
                    assert(tail.skip(p - 1 + 1) =~= l.skip(p + 1));
                    assert(has_close(tail, p - 1));
                }
            }
        }
        if ss < l.len() {
            assert(has_close(tail, ss - 1));
            assert(tail[ss - 1] == l[ss]);
            assert(tail.skip(ss - 1 + 1) =~= l.skip(ss + 1));
        }
    }
}

/// The position of the close matching the first span's opening quote.
pub open spec fn span_close(l: Seq<char>) -> nat {
    (span_start(l) + 1 + text::first_index(
        l.skip(span_start(l) as int + 1),
        l[span_start(l) as int],
    )) as nat
}

/// The text inside the first quoted span.
pub open spec fn span_content(l: Seq<char>) -> Seq<char> {
    l.subrange(span_start(l) as int + 1, span_close(l) as int)
}

/// The first span's content qualifies for quote stripping: non-empty and
/// free of `:` and `#`.
pub open spec fn strippable(l: Seq<char>) -> bool {
    &&& span_start(l) < l.len()
    &&& span_content(l).len() > 0
    &&& !span_content(l).contains(':')
    &&& !span_content(l).contains('#')
}

/// Quote stripping of one line: when the first quoted span qualifies,
/// that one pair of quotes is removed — only the first span of the line
/// is considered; otherwise the line is untouched.
pub open spec fn strip_quotes_line(l: Seq<char>) -> Seq<char> {
    if strippable(l) {
        l.subrange(0, span_start(l) as int) + span_content(l) + l.subrange(
            span_close(l) as int + 1,
            l.len() as int,
        )
    } else {
        l
    }
}

/// Blind replacement of every single quote by a double quote.
pub open spec fn dq_char(c: char) -> char {
    if c == '\'' {
        '"'
    } else {
        c
    }
}

pub open spec fn dq_line(l: Seq<char>) -> Seq<char> {
    l.map_values(|c: char| dq_char(c))
}

pub open spec fn fix_quotes_lines(ls: Seq<Seq<char>>, prefer_double: bool) -> Seq<Seq<char>> {
    if prefer_double {
        ls.map_values(|l: Seq<char>| dq_line(l))
    } else {
        ls.map_values(|l: Seq<char>| strip_quotes_line(l))
    }
}

fn contains_char(v: &Vec<char>, c: char) -> (r: bool)
    ensures
        r == v@.contains(c),
{
    let mut i: usize = 0;
    while i < v.len()
        invariant
            0 <= i <= v@.len(),
            forall|j: int| 0 <= j < i ==> v@[j] != c,
        decreases v@.len() - i,
    {
        if v[i] == c {
            assert(v@[i as int] == c);
            return true;
        }
        i += 1;
    }
    proof {
        if v@.contains(c) {
            let w = choose|w: int| 0 <= w < v@.len() && v@[w] == c;
        }
    }
    false
}

fn find_span(l: &Vec<char>) -> (r: Option<(usize, usize)>)
    ensures
        r matches Some(p) ==> {
            &&& p.0 == span_start(l@)
            &&& p.0 < l@.len()
            &&& p.1 == span_close(l@)
            &&& p.0 < p.1 < l@.len()
        },
        r is None ==> span_start(l@) >= l@.len(),
{
    proof {
        lemma_span_start(l@);
    }
    let n = l.len();
    let mut i: usize = 0;
    while i < n
        invariant
            0 <= i <= n,
            n == l@.len(),
            forall|p: int| 0 <= p < i ==> !has_close(l@, p),
            span_start(l@) <= l@.len(),
            span_start(l@) < l@.len() ==> has_close(l@, span_start(l@) as int),
            forall|p: int| 0 <= p < span_start(l@) ==> !has_close(l@, p),
        decreases n - i,
    {
        let c = l[i];
        if c == '"' || c == '\'' {
            // look for the matching close
            let mut j: usize = i + 1;
            while j < n && l[j] != c
                invariant
                    i + 1 <= j <= n,
                    n == l@.len(),
                    c == l@[i as int],
                    forall|q: int| i + 1 <= q < j ==> l@[q] != c,
                decreases n - j,
            {
                j += 1;
            }
            if j < n {
                proof {
                    let rest = l@.skip(i + 1);
                    assert(rest[j - i - 1] == l@[j as int]);
                    assert(rest.contains(c));
                    assert(has_close(l@, i as int));
                    assert(span_start(l@) == i) by {
                        if span_start(l@) < i {
                            assert(has_close(l@, span_start(l@) as int));
                        }
                        if span_start(l@) > i {
                            assert(!has_close(l@, i as int));
                        }
                    }
                    text::lemma_first_index(rest, c);
                    assert forall|q: int| 0 <= q < j - i - 1 implies rest[q] != c by {
                        assert(rest[q] == l@[i + 1 + q]);
                    }
                    assert(text::first_index(rest, c) == j - i - 1) by {
                        let f = text::first_index(rest, c) as int;
                        if f < j - i - 1 {
                            assert(rest[f] == c);
                        } else if f > j - i - 1 {
                            assert(rest[j - i - 1] != c);
                        }
                    }
                    assert(span_close(l@) == j);
                }
                return Some((i, j));
            }
            proof {
                assert(!has_close(l@, i as int)) by {
                    if has_close(l@, i as int) {
                        let rest = l@.skip(i + 1);
                        let w = choose|w: int| 0 <= w < rest.len() && rest[w] == c;
                        assert(l@[i + 1 + w] == c);
                    }
                }
            }
        } else {
            proof {
                assert(!has_close(l@, i as int));
            }
        }
        i += 1;
    }
    proof {
        assert(span_start(l@) >= l@.len()) by {
            if span_start(l@) < l@.len() {
                assert(!has_close(l@, span_start(l@) as int));
            }
        }
    }
    None
}

/// Quote normalization: with `prefer_double` every single quote becomes
/// a double quote; otherwise the first qualifying quoted span of each
/// line is stripped of its quotes.
pub fn fix_quotes(lines: &mut Vec<Vec<char>>, config: &Config)
    ensures
        text::char_views(final(lines)@) == fix_quotes_lines(
            text::char_views(old(lines)@),
            config.rules.quotes.prefer_double,
        ),
{
    let ghost lv = text::char_views(old(lines)@);
    let mut out: Vec<Vec<char>> = Vec::new();
    let prefer = config.rules.quotes.prefer_double;
    let mut i: usize = 0;
    while i < lines.len()
        invariant
            0 <= i <= lines@.len(),
            lines@ == old(lines)@,
            prefer == config.rules.quotes.prefer_double,
            lv == text::char_views(lines@),
            lv.len() == lines@.len(),
            forall|j: int| 0 <= j < lv.len() ==> #[trigger] lv[j] == lines@[j]@,
            out@.len() == i,
            prefer ==> forall|j: int|
                0 <= j < i ==> (#[trigger] out@[j])@ == dq_line(lv[j]),
            !prefer ==> forall|j: int|
                0 <= j < i ==> (#[trigger] out@[j])@ == strip_quotes_line(lv[j]),
        decreases lines@.len() - i,
    {
        let line = &lines[i];
        if prefer {
            let mut nl: Vec<char> = Vec::new();
            let mut p: usize = 0;
            while p < line.len()
                invariant
                    0 <= p <= line@.len(),
                    nl@.len() == p,
                    forall|q: int| 0 <= q < p ==> #[trigger] nl@[q] == dq_char(line@[q]),
                decreases line@.len() - p,
            {
                let c = line[p];
                if c == '\'' {
                    nl.push('"');
                } else {
                    nl.push(c);
                }
                p += 1;
            }
            proof {
                assert(nl@ =~= dq_line(lv[i as int]));
            }
            out.push(nl);
        } else {
            match find_span(line) {
                Some((s, e)) => {
                    let content = text::sub_chars(line, s + 1, e);
                    proof {
                        assert(content@ == span_content(lv[i as int]));
                    }
                    if content.len() > 0 && !contains_char(&content, ':') && !contains_char(
                        &content,
                        '#',
                    ) {
                        // remove exactly the first span's pair of quotes
                        let mut nl = text::sub_chars(line, 0, s);
                        let ghost head = nl@;
                        let mut q: usize = 0;
                        while q < content.len()
                            invariant
                                0 <= q <= content@.len(),
                                nl@ == head + content@.take(q as int),
                            decreases content@.len() - q,
                        {
                            nl.push(content[q]);
                            proof {
                                assert(nl@ =~= head + content@.take(q + 1));
                            }
                            q += 1;
                        }
                        proof {
                            assert(content@.take(content@.len() as int) =~= content@);
                        }
                        let ghost mid = nl@;
                        let llen = line.len();
                        let mut q2: usize = e + 1;
                        while q2 < llen
                            invariant
                                llen == line@.len(),
                                e + 1 <= q2 <= line@.len(),
                                0 <= i < lines@.len(),
                                lines@ == old(lines)@,
                                e < line@.len(),
                                line == lines@[i as int],
                                nl@ == mid + line@.subrange(e + 1 as int, q2 as int),
                            decreases line@.len() - q2,
                        {
                            nl.push(line[q2]);
                            proof {
                                assert(nl@ =~= mid + line@.subrange(e + 1 as int, q2 + 1));
                            }
                            q2 += 1;
                        }
                        proof {
                            assert(strippable(lv[i as int]));
                            assert(nl@ =~= strip_quotes_line(lv[i as int]));
                        }
                        out.push(nl);
                    } else {
                        let copy = text::sub_chars(line, 0, line.len());
                        proof {
                            assert(copy@ =~= lv[i as int]);
                            assert(!strippable(lv[i as int]));
                            assert(copy@ == strip_quotes_line(lv[i as int]));
                        }
                        out.push(copy);
                    }
                },
                None => {
                    let copy = text::sub_chars(line, 0, line.len());
                    proof {
                        assert(copy@ =~= lv[i as int]);
                        assert(!strippable(lv[i as int]));
                        assert(copy@ == strip_quotes_line(lv[i as int]));
                    }
                    out.push(copy);
                },
            }
        }
        i += 1;
    }
    *lines = out;
    proof {
        if prefer {
            assert(text::char_views(lines@) =~= fix_quotes_lines(lv, prefer));
        } else {
            assert(text::char_views(lines@) =~= fix_quotes_lines(lv, prefer));
        }
    }
}

// ---------- the whole rewrite ----------

/// The rewritten form of a document: the four passes in order, joined
/// with single newlines and one final newline.
pub open spec fn fix_content_spec(content: Seq<char>, cfg: Config) -> Seq<char> {
    let l0 = text::lines_spec(content);
    let l1 = fix_indent_lines(l0, cfg.rules.indentation.spaces as nat);
    let l2 = strip_trailing_lines(l1);
    let l3 = normalize_blank_lines(
        l2,
        cfg.rules.empty_lines.max_consecutive as nat,
        cfg.rules.empty_lines.max_end as nat,
    );
    let l4 = fix_quotes_lines(l3, cfg.rules.quotes.prefer_double);
    text::join_nl(l4).push('\n')
}

pub fn fix_content(content: &str, config: &Config) -> (r: String)
    requires
        config.wf(),
    ensures
        r@ == fix_content_spec(content@, *config),
{
    let mut lines = text::split_lines(content);
    proof {
        assert(text::char_views(lines@) =~= text::lines_spec(content@));
    }
    fix_indentation(&mut lines, config);
    fix_trailing_spaces(&mut lines);
    fix_empty_lines(&mut lines, config);
    fix_quotes(&mut lines, config);
    let mut out = text::join_lines(&lines);
    proof {
        assert(lines@.map_values(|l: Vec<char>| l@) =~= text::char_views(lines@));
    }
    out.push('\n');
    let s = text::chars_to_string(&out);
    proof {
        assert(s@ =~= fix_content_spec(content@, *config));
    }
    s
}

/// The files an auto-fix run rewrites: those whose reports carry at
/// least one diagnostic, in report order.
pub open spec fn files_to_fix(reports: Seq<LintReport>) -> Seq<Seq<char>>
    decreases reports.len(),
{
    if reports.len() == 0 {
        Seq::empty()
    } else {
        files_to_fix(reports.drop_last()) + (if reports.last().results@.len() > 0 {
            seq![reports.last().file@]
        } else {
            Seq::empty()
        })
    }
}

/// Selects the files that need rewriting: exactly those whose report
/// holds at least one diagnostic.  Reading and rewriting each file is
/// the caller's part.
pub fn auto_fix_files(reports: &Vec<LintReport>) -> (files: Vec<String>)
    ensures
        crate::config::str_views(files@) == files_to_fix(reports@),
{
    let mut files: Vec<String> = Vec::new();
    let mut i: usize = 0;
    proof {
        assert(crate::config::str_views(files@) =~= files_to_fix(reports@.take(0)));
    }
    while i < reports.len()
        invariant
            0 <= i <= reports@.len(),
            crate::config::str_views(files@) == files_to_fix(reports@.take(i as int)),
        decreases reports@.len() - i,
    {
        proof {
            assert(reports@.take(i + 1).drop_last() =~= reports@.take(i as int));
            assert(reports@.take(i + 1).last() == reports@[i as int]);
        }
        if reports[i].results.len() > 0 {
            files.push(reports[i].file.clone());
        }
        proof {
            assert(crate::config::str_views(files@) =~= files_to_fix(reports@.take(i + 1)));
        }
        i += 1;
    }
    proof {
        assert(reports@.take(reports@.len() as int) =~= reports@);
    }
    files
}

// ---------- stability of the rewrite ----------

/// Trimming trailing whitespace is idempotent.
proof fn lemma_trim_end_stable_iff(l: Seq<char>)
    ensures
        (text::trim_ws_end(l) == l) <==> (l.len() == 0 || !text::is_line_ws(l[l.len() - 1])),
{
    text::lemma_trim_ws_end(l);
    let b0 = choose|x: int|
        0 <= x <= l.len() && text::trim_ws_end(l) =~= l.take(x) && (forall|j: int|
            x <= j < l.len() ==> text::is_line_ws(#[trigger] l[j])) && (x > 0
            ==> !text::is_line_ws(l[x - 1]));
    if l.len() == 0 || !text::is_line_ws(l[l.len() - 1]) {
        assert(b0 == l.len());
        assert(text::trim_ws_end(l) =~= l);
    } else {
        if text::trim_ws_end(l) == l {
            assert(l.take(b0).len() == l.len());
        }
    }
}

/// The leading-space count of a space prefix followed by text that does
/// not open with a space.
proof fn lemma_leading_spaces_concat(m: nat, rest: Seq<char>)
    requires
        rest.len() > 0 ==> rest[0] != ' ',
    ensures
        text::leading_spaces(spaces(m) + rest) == m,
    decreases m,
{
    let s = spaces(m) + rest;
    if m == 0 {
        assert(s =~= rest);
        if rest.len() > 0 {
            assert(text::leading_spaces(rest) == 0);
        }
    } else {
        assert(s.len() > 0 && s[0] == ' ');
        lemma_leading_spaces_concat((m - 1) as nat, rest);
        assert(s.drop_first() =~= spaces((m - 1) as nat) + rest);
    }
}

/// A line already in normalized-indentation shape is untouched by the
/// indentation pass.
proof fn lemma_indent_line_stable(l: Seq<char>, u: nat)
    requires
        u >= 1,
        text::is_blank(l) || l.len() == 0 || l[0] != ' ' || text::leading_spaces(l) % u == 0,
    ensures
        fix_indent_line(l, u) == l,
{
    if !(text::is_blank(l) || l.len() == 0 || l[0] != ' ') {
        let k = text::leading_spaces(l);
        text::lemma_leading_spaces(l);
        vstd::arithmetic::div_mod::lemma_fundamental_div_mod(k as int, u as int);
        vstd::arithmetic::mul::lemma_mul_is_commutative(k as int / u as int, u as int);
        assert((k / u) * u == k);
        assert(spaces(k) + l.skip(k as int) =~= l);
    }
}

/// What one application of the indentation pass leaves behind is stable
/// under a second one, and keeps the line's blankness and content shape.
proof fn lemma_indent_output_shape(l: Seq<char>, u: nat)
    requires
        u >= 1,
    ensures
        ({
            let y = fix_indent_line(l, u);
            &&& (text::is_blank(y) <==> text::is_blank(l))
            &&& (text::is_blank(y) || y.len() == 0 || y[0] != ' ' || text::leading_spaces(y) % u
                == 0)
            &&& (!l.contains('\n') ==> !y.contains('\n'))
            &&& (y.len() > 0 && !text::is_blank(l) ==> y[y.len() - 1] == l[l.len() - 1])
        }),
{
    let y = fix_indent_line(l, u);
    if text::is_blank(l) || l.len() == 0 || l[0] != ' ' {
        assert(y == l);
    } else {
        let k = text::leading_spaces(l);
        text::lemma_leading_spaces(l);
        let m = (k / u) * u;
        vstd::arithmetic::div_mod::lemma_fundamental_div_mod(k as int, u as int);
        vstd::arithmetic::div_mod::lemma_mod_bound(k as int, u as int);
        vstd::arithmetic::mul::lemma_mul_is_commutative(k as int / u as int, u as int);
        assert(m <= k);
        vstd::arithmetic::div_mod::lemma_mod_multiples_basic(k as int / u as int, u as int);
        assert(m % u == 0) by {
            assert((u as int * (k as int / u as int)) % (u as int) == 0);
        }
        assert(k < l.len()) by {
            if k == l.len() {
                assert forall|j: int| 0 <= j < l.len() implies text::is_line_ws(
                    #[trigger] l[j]) by {
                    assert(l[j] == ' ');
                }
                assert(text::is_blank(l));
            }
        }
        let rest = l.skip(k as int);
        assert(rest[0] == l[k as int]);
        assert(rest[0] != ' ');
        lemma_leading_spaces_concat(m as nat, rest);
        // a witness that the line's content survives
        assert(!text::is_blank(l));
        let p = choose|p: int| 0 <= p < l.len() && !text::is_line_ws(l[p]);
        assert(p >= k) by {
            if p < k {
                assert(l[p] == ' ');
            }
        }
        assert(y[m + p - k] == l[p]);
        assert(!text::is_blank(y));
        if m > 0 {
            assert(y[0] == ' ');
            assert(text::leading_spaces(y) == m);
        }
        if !l.contains('\n') {
            assert(!y.contains('\n')) by {
                if y.contains('\n') {
                    let w = choose|w: int| 0 <= w < y.len() && y[w] == '\n';
                    if w < m {
                        assert(y[w] == ' ');
                    } else {
                        assert(y[w] == l[k + w - m]);
                    }
                }
            }
        }
        assert(y.len() > 0);
        assert(y[y.len() - 1] == l[l.len() - 1]);
    }
}

/// Trimming a non-blank line keeps its first character, its leading
/// spaces, and its non-blankness; a blank line trims to an empty one.
proof fn lemma_trim_end_shape(l: Seq<char>)
    ensures
        text::is_blank(l) ==> text::is_blank(text::trim_ws_end(l)),
        !text::is_blank(l) ==> ({
            let z = text::trim_ws_end(l);
            &&& z.len() > 0
            &&& z[0] == l[0]
            &&& text::leading_spaces(z) == text::leading_spaces(l)
            &&& !text::is_blank(z)
            &&& (!l.contains('\n') ==> !z.contains('\n'))
        }),
{
    text::lemma_trim_ws_end(l);
    let b0 = choose|x: int|
        0 <= x <= l.len() && text::trim_ws_end(l) =~= l.take(x) && (forall|j: int|
            x <= j < l.len() ==> text::is_line_ws(#[trigger] l[j])) && (x > 0
            ==> !text::is_line_ws(l[x - 1]));
    let z = text::trim_ws_end(l);
    if text::is_blank(l) {
        assert forall|j: int| 0 <= j < z.len() implies text::is_line_ws(#[trigger] z[j]) by {
            assert(z[j] == l[j]);
        }
    } else {
        let p = choose|p: int| 0 <= p < l.len() && !text::is_line_ws(l[p]);
        assert(p < b0) by {
            if p >= b0 {
                assert(text::is_line_ws(l[p]));
            }
        }
        assert(z[p] == l[p]);
        assert(!text::is_blank(z));
        assert(z[0] == l[0]);
        let k = text::leading_spaces(l);
        text::lemma_leading_spaces(l);
        assert(k <= b0) by {
            if k > b0 {
                assert(l[b0] == ' ');
                assert(!text::is_line_ws(l[b0 - 1]) || b0 == 0);
                if b0 > 0 {
                    assert(l[b0 - 1] == ' ');
                }
                if b0 == 0 {
                    assert(l[0] == ' ');
                    assert(text::is_line_ws(l[b0]));
                }
                assert(false);
            }
        }
        assert(k < b0) by {
            if k == b0 {
                assert forall|j: int| 0 <= j < z.len() implies text::is_line_ws(
                    #[trigger] z[j]) by {
                    assert(z[j] == l[j]);
                    assert(l[j] == ' ');
                }
                assert(text::is_blank(z));
            }
        }
        text::lemma_leading_spaces(z);
        assert(text::leading_spaces(z) == k) by {
            let lz = text::leading_spaces(z) as int;
            if lz < k {
                assert(z[lz] == l[lz]);
                assert(l[lz] == ' ');
            }
            if lz > k {
                assert(z[k as int] == l[k as int]);
                assert(l[k as int] != ' ');
                assert(z[k as int] == ' ');
            }
        }
        if !l.contains('\n') {
            assert(!z.contains('\n')) by {
                if z.contains('\n') {
                    let w = choose|w: int| 0 <= w < z.len() && z[w] == '\n';
                    assert(l[w] == '\n');
                }
            }
        }
    }
}

proof fn lemma_leading_blanks_concat(x: Seq<Seq<char>>, y: Seq<Seq<char>>)
    requires
        forall|j: int| 0 <= j < x.len() ==> text::is_blank(#[trigger] x[j]),
        y.len() > 0 ==> !text::is_blank(y[0]),
    ensures
        crate::rules::leading_blanks(x + y) == x.len(),
    decreases x.len(),
{
    let s = x + y;
    if x.len() == 0 {
        assert(s =~= y);
        if y.len() > 0 {
            assert(crate::rules::leading_blanks(y) == 0);
        }
    } else {
        assert(s[0] == x[0]);
        let xt = x.drop_first();
        assert forall|j: int| 0 <= j < xt.len() implies text::is_blank(#[trigger] xt[j]) by {
            assert(xt[j] == x[j + 1]);
        }
        lemma_leading_blanks_concat(xt, y);
        assert(s.drop_first() =~= xt + y);
    }
}

proof fn lemma_all_blank_leading(x: Seq<Seq<char>>)
    requires
        forall|j: int| 0 <= j < x.len() ==> text::is_blank(#[trigger] x[j]),
    ensures
        crate::rules::leading_blanks(x) == x.len(),
{
    crate::rules::lemma_leading_blanks(x);
    if crate::rules::leading_blanks(x) < x.len() {
        assert(text::is_blank(x[crate::rules::leading_blanks(x) as int]));
    }
}

proof fn lemma_cap_first(b: Seq<Seq<char>>, maxc: nat)
    requires
        b.len() > 0,
        !text::is_blank(b[0]),
    ensures
        cap_blank_runs(b, maxc).len() > 0,
        cap_blank_runs(b, maxc)[0] == b[0],
{
}

proof fn lemma_cap_last(b: Seq<Seq<char>>, maxc: nat)
    requires
        b.len() > 0,
        !text::is_blank(b[b.len() - 1]),
    ensures
        cap_blank_runs(b, maxc).len() > 0,
        cap_blank_runs(b, maxc).last() == b.last(),
    decreases b.len(),
{
    crate::rules::lemma_leading_blanks(b);
    if !text::is_blank(b[0]) {
        let tail = b.subrange(1, b.len() as int);
        if tail.len() == 0 {
            assert(cap_blank_runs(tail, maxc) =~= Seq::<Seq<char>>::empty());
            assert(cap_blank_runs(b, maxc) =~= seq![b[0]]);
        } else {
            assert(tail.last() == b.last());
            lemma_cap_last(tail, maxc);
        }
    } else {
        let r0 = crate::rules::leading_blanks(b) as int;
        assert(r0 >= 1);
        assert(r0 < b.len()) by {
            if r0 == b.len() {
                assert(text::is_blank(b[b.len() - 1]));
            }
        }
        let rest = b.subrange(r0, b.len() as int);
        assert(rest.len() > 0);
        assert(rest.last() == b.last());
        lemma_cap_last(rest, maxc);
        assert(min_int(r0, b.len() as int) == r0);
        assert(cap_blank_runs(b, maxc) == b.subrange(r0 - min_int(r0, maxc as int), r0)
            + cap_blank_runs(rest, maxc));
        assert(cap_blank_runs(b, maxc).last() == cap_blank_runs(rest, maxc).last());
    }
}

proof fn lemma_cap_preserves(b: Seq<Seq<char>>, maxc: nat, q: spec_fn(Seq<char>) -> bool)
    requires
        forall|j: int| 0 <= j < b.len() ==> q(#[trigger] b[j]),
    ensures
        forall|i: int|
            0 <= i < cap_blank_runs(b, maxc).len() ==> q(#[trigger] cap_blank_runs(b, maxc)[i]),
    decreases b.len(),
{
    crate::rules::lemma_leading_blanks(b);
    if b.len() == 0 {
    } else if !text::is_blank(b[0]) {
        let tail = b.subrange(1, b.len() as int);
        assert forall|j: int| 0 <= j < tail.len() implies q(#[trigger] tail[j]) by {
            assert(tail[j] == b[j + 1]);
        }
        lemma_cap_preserves(tail, maxc, q);
        let c = cap_blank_runs(b, maxc);
        assert forall|i: int| 0 <= i < c.len() implies q(#[trigger] c[i]) by {
            if i == 0 {
                assert(c[0] == b[0]);
            } else {
                assert(c[i] == cap_blank_runs(tail, maxc)[i - 1]);
            }
        }
    } else {
        let r0 = crate::rules::leading_blanks(b) as int;
        assert(r0 >= 1);
        assert(min_int(r0, b.len() as int) == r0);
        let keep = min_int(r0, maxc as int);
        let rest = b.subrange(r0, b.len() as int);
        assert forall|j: int| 0 <= j < rest.len() implies q(#[trigger] rest[j]) by {
            assert(rest[j] == b[r0 + j]);
        }
        lemma_cap_preserves(rest, maxc, q);
        let kept = b.subrange(r0 - keep, r0);
        let c = cap_blank_runs(b, maxc);
        assert(c == kept + cap_blank_runs(rest, maxc));
        assert forall|i: int| 0 <= i < c.len() implies q(#[trigger] c[i]) by {
            if i < keep {
                assert(c[i] == b[r0 - keep + i]);
            } else {
                assert(c[i] == cap_blank_runs(rest, maxc)[i - keep]);
            }
        }
    }
}

/// Capping blank runs is idempotent.
proof fn lemma_cap_idempotent(b: Seq<Seq<char>>, maxc: nat)
    ensures
        cap_blank_runs(cap_blank_runs(b, maxc), maxc) == cap_blank_runs(b, maxc),
    decreases b.len(),
{
    crate::rules::lemma_leading_blanks(b);
    if b.len() == 0 {
        assert(cap_blank_runs(b, maxc) == Seq::<Seq<char>>::empty());
    } else if !text::is_blank(b[0]) {
        let tail = b.subrange(1, b.len() as int);
        lemma_cap_idempotent(tail, maxc);
        let ct = cap_blank_runs(tail, maxc);
        let c = cap_blank_runs(b, maxc);
        assert(c == seq![b[0]] + ct);
        assert(c.len() > 0 && c[0] == b[0]);
        assert(c.subrange(1, c.len() as int) =~= ct);
        assert(cap_blank_runs(c, maxc) == seq![c[0]] + cap_blank_runs(
            c.subrange(1, c.len() as int),
            maxc,
        ));
        assert(cap_blank_runs(c, maxc) =~= c);
    } else {
        let r0 = crate::rules::leading_blanks(b) as int;
        assert(r0 >= 1);
        assert(min_int(r0, b.len() as int) == r0);
        let keep = min_int(r0, maxc as int);
        let kept = b.subrange(r0 - keep, r0);
        assert forall|j: int| 0 <= j < kept.len() implies text::is_blank(#[trigger] kept[j]) by {
            assert(kept[j] == b[r0 - keep + j]);
        }
        let rest = b.subrange(r0, b.len() as int);
        let c = cap_blank_runs(b, maxc);
        assert(c == kept + cap_blank_runs(rest, maxc));
        if r0 == b.len() {
            assert(rest.len() == 0);
            assert(cap_blank_runs(rest, maxc) == Seq::<Seq<char>>::empty());
            assert(c =~= kept);
            if keep == 0 {
                assert(c.len() == 0);
                assert(cap_blank_runs(c, maxc) == Seq::<Seq<char>>::empty());
            } else {
                assert(text::is_blank(c[0]));
                lemma_all_blank_leading(kept);
                assert(crate::rules::leading_blanks(c) == keep);
                assert(min_int(keep, c.len() as int) == keep);
                assert(min_int(keep, maxc as int) == keep);
                assert(c.subrange(keep - keep, keep) =~= c);
                assert(c.subrange(keep, c.len() as int).len() == 0);
                assert(cap_blank_runs(c.subrange(keep, c.len() as int), maxc)
                    == Seq::<Seq<char>>::empty());
                assert(cap_blank_runs(c, maxc) =~= c);
            }
        } else {
            let crest = cap_blank_runs(rest, maxc);
            assert(rest.len() > 0);
            assert(rest[0] == b[r0]);
            assert(!text::is_blank(rest[0]));
            lemma_cap_first(rest, maxc);
            lemma_cap_idempotent(rest, maxc);
            if keep == 0 {
                assert(c =~= crest);
                assert(cap_blank_runs(c, maxc) == cap_blank_runs(crest, maxc));
                assert(cap_blank_runs(crest, maxc) == crest);
            } else {
                assert(c[0] == kept[0]);
                assert(text::is_blank(c[0]));
                lemma_leading_blanks_concat(kept, crest);
                assert(crate::rules::leading_blanks(c) == keep);
                assert(min_int(keep, c.len() as int) == keep);
                assert(min_int(keep, maxc as int) == keep);
                assert(c.subrange(keep - keep, keep) =~= kept);
                assert(c.subrange(keep, c.len() as int) =~= crest);
                assert(cap_blank_runs(c, maxc) == c.subrange(keep - keep, keep) + cap_blank_runs(
                    c.subrange(keep, c.len() as int),
                    maxc,
                ));
                assert(cap_blank_runs(c.subrange(keep, c.len() as int), maxc) == cap_blank_runs(
                    crest,
                    maxc,
                ));
                assert(cap_blank_runs(c, maxc) =~= c);
            }
        }
    }
}

/// Splitting the joined lines back recovers them, provided no line holds
/// a newline and none ends in a carriage return.
proof fn lemma_lines_of_join(ls: Seq<Seq<char>>)
    requires
        ls.len() > 0,
        forall|i: int| 0 <= i < ls.len() ==> !(#[trigger] ls[i]).contains('\n'),
        forall|i: int|
            0 <= i < ls.len() ==> ((#[trigger] ls[i]).len() > 0 ==> ls[i][ls[i].len() - 1]
                != '\r'),
    ensures
        text::lines_spec(text::join_nl(ls).push('\n')) == ls,
    decreases ls.len(),
{
    let s = text::join_nl(ls).push('\n');
    text::lemma_first_index(s, '\n');
    let l0 = ls[0];
    assert forall|j: int| 0 <= j < l0.len() implies l0[j] != '\n' by {
        if l0[j] == '\n' {
            assert(l0.contains('\n'));
        }
    }
    if ls.len() == 1 {
        assert(text::join_nl(ls) == l0);
        assert(s =~= l0 + seq!['\n']);
        assert(s[l0.len() as int] == '\n');
        assert forall|j: int| 0 <= j < l0.len() implies s[j] != '\n' by {
            assert(s[j] == l0[j]);
        }
        assert(text::first_index(s, '\n') == l0.len()) by {
            let f = text::first_index(s, '\n') as int;
            if f < l0.len() {
                assert(s[f] == '\n');
            } else if f > l0.len() {
                assert(s[l0.len() as int] != '\n');
            }
        }
        let f = l0.len() as int;
        assert(s.take(f) =~= l0);
        assert(text::strip_cr(l0) == l0);
        assert(s.skip(f + 1) =~= Seq::<char>::empty());
        assert(text::lines_spec(Seq::<char>::empty()) == Seq::<Seq<char>>::empty());
        assert(text::lines_spec(s) =~= ls);
    } else {
        let rest = ls.drop_first();
        assert forall|i: int| 0 <= i < rest.len() implies !(#[trigger] rest[i]).contains(
            '\n') by {
            assert(rest[i] == ls[i + 1]);
        }
        assert forall|i: int|
            0 <= i < rest.len() implies ((#[trigger] rest[i]).len() > 0 ==> rest[i][rest[i].len()
            - 1] != '\r') by {
            assert(rest[i] == ls[i + 1]);
        }
        lemma_lines_of_join(rest);
        assert(text::join_nl(ls) == l0 + seq!['\n'] + text::join_nl(rest));
        let srest = text::join_nl(rest).push('\n');
        assert(s =~= l0 + seq!['\n'] + srest);
        assert(s[l0.len() as int] == '\n');
        assert forall|j: int| 0 <= j < l0.len() implies s[j] != '\n' by {
            assert(s[j] == l0[j]);
        }
        assert(text::first_index(s, '\n') == l0.len()) by {
            let f = text::first_index(s, '\n') as int;
            if f < l0.len() {
                assert(s[f] == '\n');
            } else if f > l0.len() {
                assert(s[l0.len() as int] != '\n');
            }
        }
        let f = l0.len() as int;
        assert(f < s.len());
        assert(s.take(f) =~= l0);
        assert(text::strip_cr(l0) == l0);
        assert(s.skip(f + 1) =~= srest);
        assert(text::lines_spec(s) == seq![l0] + text::lines_spec(srest));
        assert(text::lines_spec(s) =~= ls);
    }
}

/// The lines the quote pass receives: the document's lines after
/// indentation truncation, trailing-whitespace removal and blank-line
/// normalization.
pub open spec fn normalized_lines(content: Seq<char>, cfg: Config) -> Seq<Seq<char>> {
    normalize_blank_lines(
        strip_trailing_lines(
            fix_indent_lines(text::lines_spec(content), cfg.rules.indentation.spaces as nat),
        ),
        cfg.rules.empty_lines.max_consecutive as nat,
        cfg.rules.empty_lines.max_end as nat,
    )
}

/// A line the rewrite has fully normalized: stable under trailing
/// trimming and indentation truncation, free of newlines, and not ending
/// in a carriage return.
pub open spec fn settled_line(l: Seq<char>, u: nat) -> bool {
    &&& text::trim_ws_end(l) == l
    &&& (text::is_blank(l) || l.len() == 0 || l[0] != ' ' || text::leading_spaces(l) % u == 0)
    &&& !l.contains('\n')
    &&& (l.len() > 0 ==> l[l.len() - 1] != '\r')
}

proof fn lemma_pass_output_settled(l: Seq<char>, u: nat)
    requires
        u >= 1,
        !l.contains('\n'),
    ensures
        settled_line(strip_trailing_line(fix_indent_line(l, u)), u),
{
    let y = fix_indent_line(l, u);
    let z = text::trim_ws_end(y);
    lemma_indent_output_shape(l, u);
    lemma_trim_end_shape(y);
    text::lemma_trim_ws_end(y);
    let b0 = choose|x: int|
        0 <= x <= y.len() && text::trim_ws_end(y) =~= y.take(x) && (forall|j: int|
            x <= j < y.len() ==> text::is_line_ws(#[trigger] y[j])) && (x > 0
            ==> !text::is_line_ws(y[x - 1]));
    lemma_trim_end_stable_iff(z);
    assert(z.len() == b0);
    if z.len() > 0 {
        assert(z[z.len() - 1] == y[b0 - 1]);
        assert(!text::is_line_ws(z[z.len() - 1]));
        assert(z[z.len() - 1] != '\r');
    }
    assert(text::trim_ws_end(z) == z);
    if text::is_blank(y) {
        assert(text::is_blank(z));
    }
    assert(!z.contains('\n')) by {
        if z.contains('\n') {
            let w = choose|w: int| 0 <= w < z.len() && z[w] == '\n';
            assert(y[w] == '\n');
            assert(y.contains('\n'));
        }
    }
}

proof fn lemma_settled_indent_identity(l: Seq<char>, u: nat)
    requires
        u >= 1,
        settled_line(l, u),
    ensures
        fix_indent_line(l, u) == l,
        strip_trailing_line(l) == l,
{
    lemma_indent_line_stable(l, u);
}

/// Blank-line normalization is idempotent.
proof fn lemma_normalize_idempotent(ls: Seq<Seq<char>>, maxc: nat, maxe: nat)
    ensures
        normalize_blank_lines(normalize_blank_lines(ls, maxc, maxe), maxc, maxe)
            == normalize_blank_lines(ls, maxc, maxe),
{
    let a = drop_leading_blank_lines(ls);
    let bb = drop_trailing_blank_lines(a);
    let cc = cap_blank_runs(bb, maxc);
    let l3 = normalize_blank_lines(ls, maxc, maxe);
    lemma_drop_leading_blank(ls);
    let a0 = choose|x: int|
        0 <= x <= ls.len() && drop_leading_blank_lines(ls) =~= ls.skip(x) && (forall|j: int|
            0 <= j < x ==> text::is_blank(#[trigger] ls[j])) && (x < ls.len() ==> !text::is_blank(
            ls[x]));
    lemma_drop_trailing_blank(a);
    let b0 = choose|x: int|
        0 <= x <= a.len() && drop_trailing_blank_lines(a) =~= a.take(x) && (forall|j: int|
            x <= j < a.len() ==> text::is_blank(#[trigger] a[j])) && (x > 0 ==> !text::is_blank(
            a[x - 1]));
    lemma_cap_idempotent(bb, maxc);
    if bb.len() > 0 {
        assert(bb[0] == a[0]);
        assert(a[0] == ls[a0]);
        assert(a0 < ls.len());
        assert(!text::is_blank(bb[0]));
        assert(!text::is_blank(bb[bb.len() - 1])) by {
            assert(bb[bb.len() - 1] == a[b0 - 1]);
        }
        lemma_cap_first(bb, maxc);
        lemma_cap_last(bb, maxc);
    } else {
        assert(cc =~= Seq::<Seq<char>>::empty());
        assert(cap_blank_runs(bb, maxc).len() == 0);
    }
    if maxe > 0 {
        assert(l3 == cc.push(Seq::<char>::empty()));
        if cc.len() == 0 {
            assert(l3 =~= seq![Seq::<char>::empty()]);
            assert(text::is_blank(l3[0]));
            assert(l3.subrange(1, 1).len() == 0);
            assert(drop_leading_blank_lines(l3.subrange(1, 1)) =~= Seq::<Seq<char>>::empty());
            assert(drop_leading_blank_lines(l3) =~= Seq::<Seq<char>>::empty());
            assert(drop_trailing_blank_lines(Seq::<Seq<char>>::empty())
                == Seq::<Seq<char>>::empty());
            assert(cap_blank_runs(Seq::<Seq<char>>::empty(), maxc) == Seq::<Seq<char>>::empty());
            assert(normalize_blank_lines(l3, maxc, maxe) =~= l3);
        } else {
            assert(l3[0] == cc[0]);
            assert(!text::is_blank(l3[0]));
            assert(drop_leading_blank_lines(l3) == l3);
            assert(text::is_blank(l3.last()));
            assert(l3.subrange(0, l3.len() - 1) =~= cc);
            assert(drop_trailing_blank_lines(l3) == drop_trailing_blank_lines(cc));
            assert(!text::is_blank(cc.last()));
            assert(drop_trailing_blank_lines(cc) == cc);
            assert(cap_blank_runs(cc, maxc) == cc);
            assert(normalize_blank_lines(l3, maxc, maxe) == cc.push(Seq::<char>::empty()));
        }
    } else {
        assert(l3 == cc);
        if cc.len() == 0 {
            assert(drop_leading_blank_lines(l3) == l3);
            assert(drop_trailing_blank_lines(l3) == l3);
            assert(cap_blank_runs(l3, maxc) =~= l3);
            assert(normalize_blank_lines(l3, maxc, maxe) =~= l3);
        } else {
            assert(!text::is_blank(l3[0]));
            assert(drop_leading_blank_lines(l3) == l3);
            assert(!text::is_blank(l3.last()));
            assert(drop_trailing_blank_lines(l3) == l3);
            assert(cap_blank_runs(l3, maxc) == l3);
            assert(normalize_blank_lines(l3, maxc, maxe) == l3);
        }
    }
}

/// The rewrite is a fixed point of itself: applying it twice yields the
/// same text as applying it once.  This holds whenever the quote pass
/// leaves the normalized lines unchanged — stripping a quoted span can
/// reshape a line (exposing another span, new indentation or trailing
/// whitespace), and such inputs are the rule's known edge case.
pub proof fn lemma_rewrite_idempotent(content: Seq<char>, cfg: Config)
    requires
        cfg.wf(),
        !cfg.rules.quotes.prefer_double,
        fix_quotes_lines(normalized_lines(content, cfg), false) == normalized_lines(
            content,
            cfg,
        ),
    ensures
        fix_content_spec(fix_content_spec(content, cfg), cfg) == fix_content_spec(content, cfg),
{
    let u = cfg.rules.indentation.spaces as nat;
    let maxc = cfg.rules.empty_lines.max_consecutive as nat;
    let maxe = cfg.rules.empty_lines.max_end as nat;
    let l0 = text::lines_spec(content);
    let l1 = fix_indent_lines(l0, u);
    let l2 = strip_trailing_lines(l1);
    let l3 = normalize_blank_lines(l2, maxc, maxe);
    assert(l3 == normalized_lines(content, cfg));
    let l4 = fix_quotes_lines(l3, false);
    assert(l4 == l3);
    let out = text::join_nl(l3).push('\n');
    assert(fix_content_spec(content, cfg) == out);
    // every normalized line is settled
    text::lemma_lines_no_nl(content);
    assert forall|i: int| 0 <= i < l2.len() implies settled_line(#[trigger] l2[i], u) by {
        assert(l1[i] == fix_indent_line(l0[i], u));
        assert(l2[i] == strip_trailing_line(l1[i]));
        lemma_pass_output_settled(l0[i], u);
    }
    let q = |l: Seq<char>| settled_line(l, u);
    let a = drop_leading_blank_lines(l2);
    let bb = drop_trailing_blank_lines(a);
    lemma_drop_leading_blank(l2);
    let a0 = choose|x: int|
        0 <= x <= l2.len() && drop_leading_blank_lines(l2) =~= l2.skip(x) && (forall|j: int|
            0 <= j < x ==> text::is_blank(#[trigger] l2[j])) && (x < l2.len() ==> !text::is_blank(
            l2[x]));
    lemma_drop_trailing_blank(a);
    let b0 = choose|x: int|
        0 <= x <= a.len() && drop_trailing_blank_lines(a) =~= a.take(x) && (forall|j: int|
            x <= j < a.len() ==> text::is_blank(#[trigger] a[j])) && (x > 0 ==> !text::is_blank(
            a[x - 1]));
    assert forall|j: int| 0 <= j < bb.len() implies q(#[trigger] bb[j]) by {
        assert(bb[j] == a[j]);
        assert(a[j] == l2[a0 + j]);
    }
    lemma_cap_preserves(bb, maxc, q);
    let cc = cap_blank_runs(bb, maxc);
    assert(settled_line(Seq::<char>::empty(), u));
    assert forall|j: int| 0 <= j < l3.len() implies settled_line(#[trigger] l3[j], u) by {
        if maxe > 0 {
            if j < cc.len() {
                assert(l3[j] == cc[j]);
                assert(q(cc[j]));
            } else {
                assert(l3[j] =~= Seq::<char>::empty());
            }
        } else {
            assert(l3[j] == cc[j]);
            assert(q(cc[j]));
        }
    }
    // the second run
    if l3.len() == 0 {
        assert(maxe == 0);
        assert(text::join_nl(l3) == Seq::<char>::empty());
        assert(out =~= seq!['\n']);
        let m0 = text::lines_spec(out);
        assert(out[0] == '\n');
        assert(text::first_index(out, '\n') == 0);
        assert(out.take(0) =~= Seq::<char>::empty());
        assert(text::strip_cr(Seq::<char>::empty()) =~= Seq::<char>::empty());
        assert(out.skip(0 + 1 as int) =~= Seq::<char>::empty());
        assert(text::lines_spec(Seq::<char>::empty()) == Seq::<Seq<char>>::empty());
        assert(m0 =~= seq![Seq::<char>::empty()]);
        let e = Seq::<char>::empty();
        assert(text::is_blank(e));
        assert(fix_indent_line(e, u) == e);
        assert(fix_indent_lines(m0, u) =~= m0);
        assert(text::trim_ws_end(e) == e);
        assert(strip_trailing_lines(m0) =~= m0);
        assert(text::is_blank(m0[0]));
        assert(m0.subrange(1, 1).len() == 0);
        assert(drop_leading_blank_lines(m0.subrange(1, 1)) =~= Seq::<Seq<char>>::empty());
        assert(drop_leading_blank_lines(m0) =~= Seq::<Seq<char>>::empty());
        assert(drop_trailing_blank_lines(Seq::<Seq<char>>::empty()) == Seq::<Seq<char>>::empty());
        assert(cap_blank_runs(Seq::<Seq<char>>::empty(), maxc) == Seq::<Seq<char>>::empty());
        assert(normalize_blank_lines(m0, maxc, maxe) =~= Seq::<Seq<char>>::empty());
        assert(fix_quotes_lines(Seq::<Seq<char>>::empty(), false)
            =~= Seq::<Seq<char>>::empty());
        assert(text::join_nl(Seq::<Seq<char>>::empty()) == Seq::<char>::empty());
        assert(fix_content_spec(out, cfg) =~= out);
    } else {
        assert forall|i: int| 0 <= i < l3.len() implies !(#[trigger] l3[i]).contains('\n') by {
            assert(settled_line(l3[i], u));
        }
        assert forall|i: int|
            0 <= i < l3.len() implies ((#[trigger] l3[i]).len() > 0 ==> l3[i][l3[i].len() - 1]
            != '\r') by {
            assert(settled_line(l3[i], u));
        }
        lemma_lines_of_join(l3);
        let m0 = text::lines_spec(out);
        assert(m0 == l3);
        assert forall|i: int|
            0 <= i < l3.len() implies #[trigger] fix_indent_line(l3[i], u) == l3[i] by {
            lemma_settled_indent_identity(l3[i], u);
        }
        assert(fix_indent_lines(l3, u) =~= l3);
        assert forall|i: int|
            0 <= i < l3.len() implies #[trigger] strip_trailing_line(l3[i]) == l3[i] by {
            assert(settled_line(l3[i], u));
        }
        assert(strip_trailing_lines(l3) =~= l3);
        lemma_normalize_idempotent(l2, maxc, maxe);
        assert(normalize_blank_lines(l3, maxc, maxe) == l3);
        assert(fix_quotes_lines(l3, false) == l3);
        assert(fix_content_spec(out, cfg) == text::join_nl(l3).push('\n'));
    }
}

// ---------- the double-quote mode ----------

proof fn lemma_dq_char_props(c: char)
    ensures
        (dq_char(c) == ' ') <==> (c == ' '),
        text::is_line_ws(dq_char(c)) <==> text::is_line_ws(c),
        (dq_char(c) == '\n') <==> (c == '\n'),
        (dq_char(c) == '\r') <==> (c == '\r'),
        dq_char(dq_char(c)) == dq_char(c),
{
}

proof fn lemma_dq_line_props(l: Seq<char>)
    ensures
        dq_line(l).len() == l.len(),
        forall|i: int| 0 <= i < l.len() ==> #[trigger] dq_line(l)[i] == dq_char(l[i]),
        text::is_blank(dq_line(l)) <==> text::is_blank(l),
        dq_line(dq_line(l)) == dq_line(l),
{
    let y = dq_line(l);
    assert forall|i: int| 0 <= i < l.len() implies #[trigger] y[i] == dq_char(l[i]) by {}
    if text::is_blank(l) {
        assert forall|i: int| 0 <= i < y.len() implies text::is_line_ws(#[trigger] y[i]) by {
            lemma_dq_char_props(l[i]);
        }
    }
    if text::is_blank(y) {
        assert forall|i: int| 0 <= i < l.len() implies text::is_line_ws(#[trigger] l[i]) by {
            lemma_dq_char_props(l[i]);
            assert(text::is_line_ws(y[i]));
        }
    }
    assert forall|i: int| 0 <= i < y.len() implies #[trigger] dq_line(y)[i] == y[i] by {
        lemma_dq_char_props(l[i]);
    }
    assert(dq_line(y) =~= y);
}

proof fn lemma_dq_leading_spaces(l: Seq<char>)
    ensures
        text::leading_spaces(dq_line(l)) == text::leading_spaces(l),
{
    let y = dq_line(l);
    lemma_dq_line_props(l);
    text::lemma_leading_spaces(l);
    text::lemma_leading_spaces(y);
    let k = text::leading_spaces(l) as int;
    let ky = text::leading_spaces(y) as int;
    assert(ky == k) by {
        if ky < k {
            assert(y[ky] == dq_char(l[ky]));
            assert(l[ky] == ' ');
            lemma_dq_char_props(l[ky]);
        }
        if ky > k {
            assert(y[k] == dq_char(l[k]));
            assert(l[k] != ' ');
            lemma_dq_char_props(l[k]);
            assert(y[k] == ' ');
        }
    }
}

proof fn lemma_dq_settled(l: Seq<char>, u: nat)
    requires
        settled_line(l, u),
    ensures
        settled_line(dq_line(l), u),
{
    let y = dq_line(l);
    lemma_dq_line_props(l);
    lemma_dq_leading_spaces(l);
    lemma_trim_end_stable_iff(l);
    lemma_trim_end_stable_iff(y);
    if y.len() > 0 {
        lemma_dq_char_props(l[l.len() - 1]);
        assert(y[y.len() - 1] == dq_char(l[l.len() - 1]));
    }
    assert(!y.contains('\n')) by {
        if y.contains('\n') {
            let w = choose|w: int| 0 <= w < y.len() && y[w] == '\n';
            lemma_dq_char_props(l[w]);
            assert(l[w] == '\n');
        }
    }
    if !(text::is_blank(y) || y.len() == 0 || y[0] != ' ') {
        assert(l[0] == ' ') by {
            lemma_dq_char_props(l[0]);
        }
    }
}

proof fn lemma_dq_map_subrange(x: Seq<Seq<char>>, a: int, b: int)
    requires
        0 <= a <= b <= x.len(),
    ensures
        x.map_values(|l: Seq<char>| dq_line(l)).subrange(a, b) == x.subrange(a, b).map_values(
            |l: Seq<char>| dq_line(l),
        ),
{
    assert(x.map_values(|l: Seq<char>| dq_line(l)).subrange(a, b) =~= x.subrange(
        a,
        b,
    ).map_values(|l: Seq<char>| dq_line(l)));
}

proof fn lemma_dq_leading_blanks(x: Seq<Seq<char>>)
    ensures
        crate::rules::leading_blanks(x.map_values(|l: Seq<char>| dq_line(l)))
            == crate::rules::leading_blanks(x),
{
    let y = x.map_values(|l: Seq<char>| dq_line(l));
    crate::rules::lemma_leading_blanks(x);
    crate::rules::lemma_leading_blanks(y);
    let rx = crate::rules::leading_blanks(x) as int;
    let ry = crate::rules::leading_blanks(y) as int;
    assert(ry == rx) by {
        if ry < rx {
            assert(text::is_blank(x[ry]));
            lemma_dq_line_props(x[ry]);
            assert(y[ry] == dq_line(x[ry]));
            assert(text::is_blank(y[ry]));
        }
        if ry > rx {
            assert(text::is_blank(y[rx]));
            lemma_dq_line_props(x[rx]);
            assert(y[rx] == dq_line(x[rx]));
            assert(text::is_blank(x[rx]));
        }
    }
}

proof fn lemma_dq_drop_leading(x: Seq<Seq<char>>)
    ensures
        drop_leading_blank_lines(x.map_values(|l: Seq<char>| dq_line(l)))
            == drop_leading_blank_lines(x).map_values(|l: Seq<char>| dq_line(l)),
    decreases x.len(),
{
    let y = x.map_values(|l: Seq<char>| dq_line(l));
    if x.len() > 0 {
        lemma_dq_line_props(x[0]);
        assert(y[0] == dq_line(x[0]));
        if text::is_blank(x[0]) {
            lemma_dq_drop_leading(x.subrange(1, x.len() as int));
            lemma_dq_map_subrange(x, 1, x.len() as int);
            assert(y.subrange(1, y.len() as int) == x.subrange(1, x.len() as int).map_values(
                |l: Seq<char>| dq_line(l),
            ));
        }
    } else {
        assert(y.len() == 0);
        assert(drop_leading_blank_lines(y) =~= drop_leading_blank_lines(x).map_values(
            |l: Seq<char>| dq_line(l),
        ));
    }
}

proof fn lemma_dq_drop_trailing(x: Seq<Seq<char>>)
    ensures
        drop_trailing_blank_lines(x.map_values(|l: Seq<char>| dq_line(l)))
            == drop_trailing_blank_lines(x).map_values(|l: Seq<char>| dq_line(l)),
    decreases x.len(),
{
    let y = x.map_values(|l: Seq<char>| dq_line(l));
    if x.len() > 0 {
        lemma_dq_line_props(x[x.len() - 1]);
        assert(y[y.len() - 1] == dq_line(x[x.len() - 1]));
        if text::is_blank(x[x.len() - 1]) {
            lemma_dq_drop_trailing(x.subrange(0, x.len() - 1));
            lemma_dq_map_subrange(x, 0, x.len() - 1);
        }
    } else {
        assert(y.len() == 0);
        assert(drop_trailing_blank_lines(y) =~= drop_trailing_blank_lines(x).map_values(
            |l: Seq<char>| dq_line(l),
        ));
    }
}

proof fn lemma_dq_cap(x: Seq<Seq<char>>, maxc: nat)
    ensures
        cap_blank_runs(x.map_values(|l: Seq<char>| dq_line(l)), maxc) == cap_blank_runs(
            x,
            maxc,
        ).map_values(|l: Seq<char>| dq_line(l)),
    decreases x.len(),
{
    let f = |l: Seq<char>| dq_line(l);
    let y = x.map_values(f);
    crate::rules::lemma_leading_blanks(x);
    if x.len() == 0 {
        assert(cap_blank_runs(y, maxc) =~= cap_blank_runs(x, maxc).map_values(f));
    } else {
        lemma_dq_line_props(x[0]);
        assert(y[0] == dq_line(x[0]));
        if !text::is_blank(x[0]) {
            assert(!text::is_blank(y[0]));
            lemma_dq_cap(x.subrange(1, x.len() as int), maxc);
            lemma_dq_map_subrange(x, 1, x.len() as int);
            assert(cap_blank_runs(y, maxc) == seq![y[0]] + cap_blank_runs(
                y.subrange(1, y.len() as int),
                maxc,
            ));
            assert(cap_blank_runs(y, maxc) =~= cap_blank_runs(x, maxc).map_values(f));
        } else {
            assert(text::is_blank(y[0]));
            lemma_dq_leading_blanks(x);
            let r0 = crate::rules::leading_blanks(x) as int;
            assert(r0 >= 1);
            assert(min_int(r0, x.len() as int) == r0);
            assert(min_int(r0, y.len() as int) == r0);
            let keep = min_int(r0, maxc as int);
            lemma_dq_cap(x.subrange(r0, x.len() as int), maxc);
            lemma_dq_map_subrange(x, r0, x.len() as int);
            lemma_dq_map_subrange(x, r0 - keep, r0);
            assert(cap_blank_runs(y, maxc) == y.subrange(r0 - keep, r0) + cap_blank_runs(
                y.subrange(r0, y.len() as int),
                maxc,
            ));
            assert(cap_blank_runs(y, maxc) =~= cap_blank_runs(x, maxc).map_values(f));
        }
    }
}

/// In the double-quote mode the rewrite is unconditionally a fixed
/// point: once every single quote has become a double quote, a second
/// run changes nothing.
pub proof fn lemma_rewrite_idempotent_double(content: Seq<char>, cfg: Config)
    requires
        cfg.wf(),
        cfg.rules.quotes.prefer_double,
    ensures
        fix_content_spec(fix_content_spec(content, cfg), cfg) == fix_content_spec(content, cfg),
{
    let u = cfg.rules.indentation.spaces as nat;
    let maxc = cfg.rules.empty_lines.max_consecutive as nat;
    let maxe = cfg.rules.empty_lines.max_end as nat;
    let f = |l: Seq<char>| dq_line(l);
    let l0 = text::lines_spec(content);
    let l1 = fix_indent_lines(l0, u);
    let l2 = strip_trailing_lines(l1);
    let l3 = normalize_blank_lines(l2, maxc, maxe);
    let l4 = fix_quotes_lines(l3, true);
    assert(l4 == l3.map_values(f));
    let out = text::join_nl(l4).push('\n');
    assert(fix_content_spec(content, cfg) == out);
    // every line of l3 is settled, hence every line of l4 too
    text::lemma_lines_no_nl(content);
    assert forall|i: int| 0 <= i < l2.len() implies settled_line(#[trigger] l2[i], u) by {
        assert(l1[i] == fix_indent_line(l0[i], u));
        assert(l2[i] == strip_trailing_line(l1[i]));
        lemma_pass_output_settled(l0[i], u);
    }
    let q = |l: Seq<char>| settled_line(l, u);
    let a = drop_leading_blank_lines(l2);
    let bb = drop_trailing_blank_lines(a);
    lemma_drop_leading_blank(l2);
    let a0 = choose|x: int|
        0 <= x <= l2.len() && drop_leading_blank_lines(l2) =~= l2.skip(x) && (forall|j: int|
            0 <= j < x ==> text::is_blank(#[trigger] l2[j])) && (x < l2.len() ==> !text::is_blank(
            l2[x]));
    lemma_drop_trailing_blank(a);
    assert forall|j: int| 0 <= j < bb.len() implies q(#[trigger] bb[j]) by {
        assert(bb[j] == a[j]);
        assert(a[j] == l2[a0 + j]);
    }
    lemma_cap_preserves(bb, maxc, q);
    let cc = cap_blank_runs(bb, maxc);
    assert(settled_line(Seq::<char>::empty(), u));
    assert forall|j: int| 0 <= j < l3.len() implies settled_line(#[trigger] l3[j], u) by {
        if maxe > 0 {
            if j < cc.len() {
                assert(l3[j] == cc[j]);
                assert(q(cc[j]));
            } else {
                assert(l3[j] =~= Seq::<char>::empty());
            }
        } else {
            assert(l3[j] == cc[j]);
            assert(q(cc[j]));
        }
    }
    assert forall|j: int| 0 <= j < l4.len() implies settled_line(#[trigger] l4[j], u) by {
        assert(l4[j] == dq_line(l3[j]));
        lemma_dq_settled(l3[j], u);
    }
    // the second run
    if l4.len() == 0 {
        assert(l3.len() == 0);
        assert(maxe == 0);
        assert(text::join_nl(l4) == Seq::<char>::empty());
        assert(out =~= seq!['\n']);
        let m0 = text::lines_spec(out);
        assert(out[0] == '\n');
        assert(text::first_index(out, '\n') == 0);
        assert(out.take(0) =~= Seq::<char>::empty());
        assert(text::strip_cr(Seq::<char>::empty()) =~= Seq::<char>::empty());
        assert(out.skip(0 + 1 as int) =~= Seq::<char>::empty());
        assert(text::lines_spec(Seq::<char>::empty()) == Seq::<Seq<char>>::empty());
        assert(m0 =~= seq![Seq::<char>::empty()]);
        let e = Seq::<char>::empty();
        assert(text::is_blank(e));
        assert(fix_indent_line(e, u) == e);
        assert(fix_indent_lines(m0, u) =~= m0);
        assert(text::trim_ws_end(e) == e);
        assert(strip_trailing_lines(m0) =~= m0);
        assert(text::is_blank(m0[0]));
        assert(m0.subrange(1, 1).len() == 0);
        assert(drop_leading_blank_lines(m0.subrange(1, 1)) =~= Seq::<Seq<char>>::empty());
        assert(drop_leading_blank_lines(m0) =~= Seq::<Seq<char>>::empty());
        assert(drop_trailing_blank_lines(Seq::<Seq<char>>::empty()) == Seq::<Seq<char>>::empty());
        assert(cap_blank_runs(Seq::<Seq<char>>::empty(), maxc) == Seq::<Seq<char>>::empty());
        assert(normalize_blank_lines(m0, maxc, maxe) =~= Seq::<Seq<char>>::empty());
        assert(fix_quotes_lines(Seq::<Seq<char>>::empty(), true) =~= Seq::<Seq<char>>::empty());
        assert(text::join_nl(Seq::<Seq<char>>::empty()) == Seq::<char>::empty());
        assert(fix_content_spec(out, cfg) =~= out);
    } else {
        assert forall|i: int| 0 <= i < l4.len() implies !(#[trigger] l4[i]).contains('\n') by {
            assert(settled_line(l4[i], u));
        }
        assert forall|i: int|
            0 <= i < l4.len() implies ((#[trigger] l4[i]).len() > 0 ==> l4[i][l4[i].len() - 1]
            != '\r') by {
            assert(settled_line(l4[i], u));
        }
        lemma_lines_of_join(l4);
        let m0 = text::lines_spec(out);
        assert(m0 == l4);
        assert forall|i: int|
            0 <= i < l4.len() implies #[trigger] fix_indent_line(l4[i], u) == l4[i] by {
            lemma_settled_indent_identity(l4[i], u);
        }
        assert(fix_indent_lines(l4, u) =~= l4);
        assert forall|i: int|
            0 <= i < l4.len() implies #[trigger] strip_trailing_line(l4[i]) == l4[i] by {
            assert(settled_line(l4[i], u));
        }
        assert(strip_trailing_lines(l4) =~= l4);
        // blank-line normalization commutes with the quote map and is
        // already settled on the normalized lines
        lemma_dq_drop_leading(l3);
        lemma_dq_drop_trailing(drop_leading_blank_lines(l3));
        lemma_dq_cap(drop_trailing_blank_lines(drop_leading_blank_lines(l3)), maxc);
        lemma_normalize_idempotent(l2, maxc, maxe);
        assert(normalize_blank_lines(l3, maxc, maxe) == l3);
        let n4 = normalize_blank_lines(l4, maxc, maxe);
        assert(drop_leading_blank_lines(l4) == drop_leading_blank_lines(l3).map_values(f));
        assert(drop_trailing_blank_lines(drop_leading_blank_lines(l4))
            == drop_trailing_blank_lines(drop_leading_blank_lines(l3)).map_values(f));
        assert(cap_blank_runs(drop_trailing_blank_lines(drop_leading_blank_lines(l4)), maxc)
            == cap_blank_runs(
            drop_trailing_blank_lines(drop_leading_blank_lines(l3)),
            maxc,
        ).map_values(f));
        if maxe > 0 {
            assert(dq_line(Seq::<char>::empty()) =~= Seq::<char>::empty());
            assert(n4 =~= normalize_blank_lines(l3, maxc, maxe).map_values(f));
        } else {
            assert(n4 =~= normalize_blank_lines(l3, maxc, maxe).map_values(f));
        }
        assert(n4 == l3.map_values(f));
        assert(n4 == l4);
        // the quote map is idempotent
        assert forall|i: int| 0 <= i < l4.len() implies #[trigger] dq_line(l4[i]) == l4[i] by {
            assert(l4[i] == dq_line(l3[i]));
            lemma_dq_line_props(l3[i]);
        }
        assert(fix_quotes_lines(l4, true) =~= l4);
        assert(fix_content_spec(out, cfg) == text::join_nl(l4).push('\n'));
    }
}

} // verus!
