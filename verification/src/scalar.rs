//! Classification of scalar text: number syntax (the grammar that
//! `i64`/`f64` parsing accepts: an optional sign, digits with at most one
//! dot, an optional exponent, or the special words `inf`, `infinity` and
//! `nan`), boolean-like words, and null literals.
use vstd::prelude::*;
use crate::text;

verus! {

pub open spec fn is_digit(c: char) -> bool {
    '0' <= c && c <= '9'
}

pub open spec fn all_digits(s: Seq<char>) -> bool {
    forall|i: int| 0 <= i < s.len() ==> is_digit(#[trigger] s[i])
}

/// The text with one leading `+` or `-` removed.
pub open spec fn after_sign(s: Seq<char>) -> Seq<char> {
    if s.len() > 0 && (s[0] == '+' || s[0] == '-') {
        s.skip(1)
    } else {
        s
    }
}

/// The words that float parsing accepts besides ordinary numbers,
/// compared ASCII case-insensitively.
pub open spec fn special_float(b: Seq<char>) -> bool {
    ||| text::lower_seq(b) == "inf"@
    ||| text::lower_seq(b) == "infinity"@
    ||| text::lower_seq(b) == "nan"@
}

pub open spec fn min_nat(a: nat, b: nat) -> nat {
    if a <= b {
        a
    } else {
        b
    }
}

/// Index of the first exponent marker (`e` or `E`), or the length.
pub open spec fn first_exp(b: Seq<char>) -> nat {
    min_nat(text::first_index(b, 'e'), text::first_index(b, 'E'))
}

/// Digits with at most one dot and at least one digit on some side of it.
pub open spec fn mantissa_ok(m: Seq<char>) -> bool {
    let d = text::first_index(m, '.');
    if d >= m.len() {
        m.len() > 0 && all_digits(m)
    } else {
        &&& all_digits(m.take(d as int))
        &&& all_digits(m.skip(d as int + 1))
        &&& (d > 0 || m.len() > d + 1)
    }
}

/// An exponent body: an optional sign followed by at least one digit.
pub open spec fn exp_ok(x: Seq<char>) -> bool {
    after_sign(x).len() > 0 && all_digits(after_sign(x))
}

pub open spec fn num_core(b: Seq<char>) -> bool {
    let e = first_exp(b);
    if e >= b.len() {
        mantissa_ok(b)
    } else {
        mantissa_ok(b.take(e as int)) && exp_ok(b.skip(e as int + 1))
    }
}

/// The text parses as an integer or floating-point number.
pub open spec fn is_number(s: Seq<char>) -> bool {
    special_float(after_sign(s)) || num_core(after_sign(s))
}

/// The text reads as a boolean word, ASCII case-insensitively.
pub open spec fn bool_like(s: Seq<char>) -> bool {
    ||| text::lower_seq(s) == "true"@
    ||| text::lower_seq(s) == "false"@
    ||| text::lower_seq(s) == "yes"@
    ||| text::lower_seq(s) == "no"@
}

/// The unquoted scalars read as null.
pub open spec fn null_lit(s: Seq<char>) -> bool {
    s == "~"@ || text::lower_seq(s) == "null"@
}

// ---------- executable recognizers ----------

fn all_digits_range(v: &Vec<char>, from: usize, to: usize) -> (r: bool)
    requires
        from <= to <= v@.len(),
    ensures
        r == all_digits(v@.subrange(from as int, to as int)),
{
    let ghost seg = v@.subrange(from as int, to as int);
    let mut k: usize = from;
    while k < to
        invariant
            from <= k <= to <= v@.len(),
            seg == v@.subrange(from as int, to as int),
            forall|j: int| 0 <= j < k - from ==> is_digit(#[trigger] seg[j]),
        decreases to - k,
    {
        let c = v[k];
        proof {
            assert(seg[k - from] == v@[k as int]);
        }
        if !('0' <= c && c <= '9') {
            return false;
        }
        k += 1;
    }
    true
}

fn scan_first2(v: &Vec<char>, from: usize, c1: char, c2: char) -> (p: usize)
    requires
        from <= v@.len(),
    ensures
        from <= p <= v@.len(),
        forall|j: int| from <= j < p ==> v@[j] != c1 && v@[j] != c2,
        p < v@.len() ==> (v@[p as int] == c1 || v@[p as int] == c2),
{
    let mut k: usize = from;
    while k < v.len() && v[k] != c1 && v[k] != c2
        invariant
            from <= k <= v@.len(),
            forall|j: int| from <= j < k ==> v@[j] != c1 && v@[j] != c2,
        decreases v@.len() - k,
    {
        k += 1;
    }
    k
}

fn lower_range(v: &Vec<char>, from: usize, to: usize) -> (r: Vec<char>)
    requires
        from <= to <= v@.len(),
    ensures
        r@ == text::lower_seq(v@.subrange(from as int, to as int)),
{
    let ghost seg = v@.subrange(from as int, to as int);
    let mut r: Vec<char> = Vec::new();
    let mut k: usize = from;
    while k < to
        invariant
            from <= k <= to <= v@.len(),
            seg == v@.subrange(from as int, to as int),
            r@ == text::lower_seq(seg.take(k - from)),
        decreases to - k,
    {
        r.push(text::ascii_lower(v[k]));
        proof {
            assert(seg[k - from] == v@[k as int]);
            assert(r@ =~= text::lower_seq(seg.take(k - from + 1)));
        }
        k += 1;
    }
    proof {
        assert(seg.take(to - from) =~= seg);
    }
    r
}

/// Whether the whole text matches the number grammar that integer and
/// float parsing accept.
pub fn is_number_chars(v: &Vec<char>) -> (r: bool)
    ensures
        r == is_number(v@),
{
    let n = v.len();
    let start: usize = if n > 0 && (v[0] == '+' || v[0] == '-') {
        1
    } else {
        0
    };
    let ghost b = after_sign(v@);
    proof {
        assert(b =~= v@.subrange(start as int, n as int));
    }
    // the special words inf / infinity / nan
    let low = lower_range(v, start, n);
    if text::chars_eq_str(&low, "inf") || text::chars_eq_str(&low, "infinity")
        || text::chars_eq_str(&low, "nan") {
        return true;
    }
    // mantissa up to the first exponent marker
    let epos = scan_first2(v, start, 'e', 'E');
    proof {
        text::lemma_first_index(b, 'e');
        text::lemma_first_index(b, 'E');
        assert forall|j: int| 0 <= j < epos - start implies b[j] != 'e' && b[j] != 'E' by {
            assert(b[j] == v@[start + j]);
        }
        if epos < n {
            assert(b[epos - start] == v@[epos as int]);
        }
        assert(first_exp(b) == epos - start) by {
            let fe = text::first_index(b, 'e') as int;
            let fee = text::first_index(b, 'E') as int;
            if fe < epos - start {
                assert(b[fe] == 'e');
            }
            if fee < epos - start {
                assert(b[fee] == 'E');
            }
            if epos < n {
                if v@[epos as int] == 'e' {
                    assert(fe == epos - start);
                } else {
                    assert(fee == epos - start);
                }
            } else {
                assert(fe >= b.len() && fee >= b.len());
            }
        }
    }
    let ghost m = if epos - start >= b.len() { b } else { b.take(epos - start) };
    proof {
        assert(m =~= v@.subrange(start as int, epos as int));
    }
    let dpos = scan_first2(v, start, '.', '.');
    let mantissa_good: bool = if dpos >= epos {
        // no dot inside the mantissa
        proof {
            text::lemma_first_index(m, '.');
            assert forall|j: int| 0 <= j < m.len() implies m[j] != '.' by {
                assert(m[j] == v@[start + j]);
            }
            if text::first_index(m, '.') < m.len() {
                assert(m[text::first_index(m, '.') as int] == '.');
            }
        }
        epos > start && all_digits_range(v, start, epos)
    } else {
        proof {
            text::lemma_first_index(m, '.');
            assert forall|j: int| 0 <= j < dpos - start implies m[j] != '.' by {
                assert(m[j] == v@[start + j]);
            }
            assert(m[dpos - start] == v@[dpos as int]);
            assert(text::first_index(m, '.') == dpos - start) by {
                let fd = text::first_index(m, '.') as int;
                if fd < dpos - start {
                    assert(m[fd] == '.');
                }
            }
            assert(m.take(dpos - start) =~= v@.subrange(start as int, dpos as int));
            assert(m.skip(dpos - start + 1) =~= v@.subrange(dpos + 1 as int, epos as int));
        }
        all_digits_range(v, start, dpos) && all_digits_range(v, dpos + 1, epos) && (dpos > start
            || epos > dpos + 1)
    };
    if !mantissa_good {
        proof {
            if epos >= n {
                assert(!mantissa_ok(b));
            } else {
                assert(!mantissa_ok(b.take(first_exp(b) as int)));
            }
        }
        return false;
    }
    if epos >= n {
        proof {
            assert(mantissa_ok(b));
        }
        return true;
    }
    // exponent: optional sign, then at least one digit
    let ghost x = b.skip((epos - start) as int + 1);
    proof {
        assert(x =~= v@.subrange(epos + 1 as int, n as int));
    }
    let xstart: usize = if epos + 1 < n && (v[epos + 1] == '+' || v[epos + 1] == '-') {
        epos + 2
    } else {
        epos + 1
    };
    proof {
        assert(after_sign(x) =~= v@.subrange(xstart as int, n as int));
    }
    let exp_good = xstart < n && all_digits_range(v, xstart, n);
    proof {
        if exp_good {
            assert(exp_ok(x));
        } else {
            assert(!exp_ok(x));
        }
    }
    exp_good
}

/// Whether the text is one of the boolean-like words.
pub fn is_bool_like(v: &Vec<char>) -> (r: bool)
    ensures
        r == bool_like(v@),
{
    let low = lower_range(v, 0, v.len());
    proof {
        assert(v@.subrange(0, v@.len() as int) =~= v@);
    }
    text::chars_eq_str(&low, "true") || text::chars_eq_str(&low, "false") || text::chars_eq_str(
        &low,
        "yes",
    ) || text::chars_eq_str(&low, "no")
}

/// Whether the text is a null literal.
pub fn is_null_lit(v: &Vec<char>) -> (r: bool)
    ensures
        r == null_lit(v@),
{
    if text::chars_eq_str(v, "~") {
        return true;
    }
    let low = lower_range(v, 0, v.len());
    proof {
        assert(v@.subrange(0, v@.len() as int) =~= v@);
    }
    text::chars_eq_str(&low, "null")
}

} // verus!
