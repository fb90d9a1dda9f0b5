//! Recognising numeric literals in text: the syntax that `f64::from_str`
//! accepts, and decimal `usize` values as `usize::from_str` reads them.

use vstd::prelude::*;

use crate::text::{copy_range, find_char, lemma_find_seq, occurs_at};

verus! {

pub open spec fn is_digit(c: char) -> bool {
    '0' <= c && c <= '9'
}

pub open spec fn all_digits(s: Seq<char>) -> bool {
    forall|i: int| 0 <= i < s.len() ==> is_digit(#[trigger] s[i])
}

pub open spec fn is_sign(c: char) -> bool {
    c == '+' || c == '-'
}

/// `s` without one leading sign.
pub open spec fn unsigned_part(s: Seq<char>) -> Seq<char> {
    if s.len() > 0 && is_sign(s[0]) {
        s.drop_first()
    } else {
        s
    }
}

/// `s` spells `lower` with ASCII letters in either case (`upper` is `lower`
/// in upper case).
pub open spec fn spells(s: Seq<char>, lower: Seq<char>, upper: Seq<char>) -> bool {
    &&& s.len() == lower.len()
    &&& lower.len() == upper.len()
    &&& forall|i: int| 0 <= i < s.len() ==> #[trigger] s[i] == lower[i] || s[i] == upper[i]
}

/// `inf`, `infinity` or `nan`, in any case.
pub open spec fn is_special_float(t: Seq<char>) -> bool {
    ||| spells(t, seq!['i', 'n', 'f'], seq!['I', 'N', 'F'])
    ||| spells(
        t,
        seq!['i', 'n', 'f', 'i', 'n', 'i', 't', 'y'],
        seq!['I', 'N', 'F', 'I', 'N', 'I', 'T', 'Y'],
    )
    ||| spells(t, seq!['n', 'a', 'n'], seq!['N', 'A', 'N'])
}

/// `Digit+ | Digit+ '.' Digit* | Digit* '.' Digit+`
pub open spec fn is_mantissa(m: Seq<char>) -> bool {
    ||| (m.len() > 0 && all_digits(m))
    ||| exists|k: int|
        0 <= k < m.len() && m[k] == '.' && all_digits(m.take(k)) && all_digits(m.skip(k + 1))
            && m.len() > 1
}

/// `Sign? Digit+`
pub open spec fn is_exponent(x: Seq<char>) -> bool {
    unsigned_part(x).len() > 0 && all_digits(unsigned_part(x))
}

pub open spec fn is_exp_mark(c: char) -> bool {
    c == 'e' || c == 'E'
}

/// `Mantissa Exp?` where `Exp ::= ('e' | 'E') Sign? Digit+`
pub open spec fn is_number(t: Seq<char>) -> bool {
    ||| is_mantissa(t)
    ||| exists|k: int|
        0 <= k < t.len() && is_exp_mark(t[k]) && is_mantissa(t.take(k)) && is_exponent(
            t.skip(k + 1),
        )
}

/// The strings that `f64::from_str` accepts:
/// `Sign? ('inf' | 'infinity' | 'nan' | Number)`, letters in either case.
pub open spec fn is_float_literal(s: Seq<char>) -> bool {
    is_special_float(unsigned_part(s)) || is_number(unsigned_part(s))
}

fn digits_only(v: &[char]) -> (r: bool)
    ensures
        r == all_digits(v@),
{
    let mut i: usize = 0;
    while i < v.len()
        invariant
            i <= v@.len(),
            forall|j: int| 0 <= j < i ==> is_digit(#[trigger] v@[j]),
        decreases v.len() - i,
    {
        if !('0' <= v[i] && v[i] <= '9') {
            return false;
        }
        i += 1;
    }
    true
}

fn spells_exec(v: &[char], lower: &[char], upper: &[char]) -> (r: bool)
    ensures
        r == spells(v@, lower@, upper@),
{
    if v.len() != lower.len() || lower.len() != upper.len() {
        return false;
    }
    let mut i: usize = 0;
    while i < v.len()
        invariant
            v@.len() == lower@.len() == upper@.len(),
            i <= v@.len(),
            forall|j: int| 0 <= j < i ==> #[trigger] v@[j] == lower@[j] || v@[j] == upper@[j],
        decreases v.len() - i,
    {
        if v[i] != lower[i] && v[i] != upper[i] {
            return false;
        }
        i += 1;
    }
    true
}

fn mantissa_exec(m: &[char]) -> (r: bool)
    ensures
        r == is_mantissa(m@),
{
    match find_char(m, '.') {
        None => {
            proof {
                lemma_find_seq(m@, seq!['.']);
                assert forall|k: int| 0 <= k < m@.len() && m@[k] == '.' implies false by {
                    assert(m@.subrange(k, k + 1) =~= seq!['.']);
                    assert(occurs_at(m@, seq!['.'], k));
                }
            }
            m.len() > 0 && digits_only(m)
        },
        Some(k) => {
            proof {
                lemma_find_seq(m@, seq!['.']);
                assert(occurs_at(m@, seq!['.'], k as int));
                assert(m@.subrange(k as int, k + 1)[0] == '.');
                assert(!all_digits(m@)) by {
                    assert(!is_digit(m@[k as int]));
                }
            }
            let n = m.len();
            let before = copy_range(m, 0, k);
            let after = copy_range(m, k + 1, n);
            assert(before@ =~= m@.take(k as int));
            assert(after@ =~= m@.skip(k + 1));
            let r = digits_only(before.as_slice()) && digits_only(after.as_slice()) && n > 1;
            proof {
                if !r {
                    assert forall|k2: int|
                        0 <= k2 < m@.len() && m@[k2] == '.' && all_digits(m@.take(k2))
                            && all_digits(m@.skip(k2 + 1)) && m@.len() > 1 implies false by {
                        if k2 < k {
                            assert(m@.skip(k2 + 1)[k - k2 - 1] == m@[k as int]);
                        } else if k2 > k {
                            assert(m@.take(k2)[k as int] == m@[k as int]);
                        }
                    }
                }
            }
            r
        },
    }
}

fn exponent_exec(x: &[char]) -> (r: bool)
    ensures
        r == is_exponent(x@),
{
    if x.len() > 0 && (x[0] == '+' || x[0] == '-') {
        let rest = copy_range(x, 1, x.len());
        assert(rest@ =~= x@.drop_first());
        rest.len() > 0 && digits_only(rest.as_slice())
    } else {
        x.len() > 0 && digits_only(x)
    }
}

proof fn lemma_mantissa_has_no_exp_mark(m: Seq<char>, i: int)
    requires
        is_mantissa(m),
        0 <= i < m.len(),
    ensures
        !is_exp_mark(m[i]),
{
    if m.len() > 0 && all_digits(m) {
        assert(is_digit(m[i]));
    } else {
        let k = choose|k: int|
            0 <= k < m.len() && m[k] == '.' && all_digits(m.take(k)) && all_digits(m.skip(k + 1))
                && m.len() > 1;
        if i < k {
            assert(is_digit(m.take(k)[i]));
        } else if i > k {
            assert(is_digit(m.skip(k + 1)[i - k - 1]));
        }
    }
}

fn first_exp_mark(t: &[char]) -> (r: Option<usize>)
    ensures
        r matches Some(k) ==> k < t@.len() && is_exp_mark(t@[k as int]) && forall|j: int|
            0 <= j < k ==> !is_exp_mark(#[trigger] t@[j]),
        r is None ==> forall|j: int| 0 <= j < t@.len() ==> !is_exp_mark(#[trigger] t@[j]),
{
    let mut i: usize = 0;
    while i < t.len()
        invariant
            i <= t@.len(),
            forall|j: int| 0 <= j < i ==> !is_exp_mark(#[trigger] t@[j]),
        decreases t.len() - i,
    {
        if t[i] == 'e' || t[i] == 'E' {
            return Some(i);
        }
        i += 1;
    }
    None
}

fn number_exec(t: &[char]) -> (r: bool)
    ensures
        r == is_number(t@),
{
    match first_exp_mark(t) {
        None => {
            proof {
                if exists|k: int|
                    0 <= k < t@.len() && is_exp_mark(t@[k]) && is_mantissa(t@.take(k))
                        && is_exponent(t@.skip(k + 1)) {
                    let k = choose|k: int|
                        0 <= k < t@.len() && is_exp_mark(t@[k]) && is_mantissa(t@.take(k))
                            && is_exponent(t@.skip(k + 1));
                    assert(!is_exp_mark(t@[k]));
                }
            }
            mantissa_exec(t)
        },
        Some(k) => {
            proof {
                if is_mantissa(t@) {
                    lemma_mantissa_has_no_exp_mark(t@, k as int);
                }
                if exists|k2: int|
                    0 <= k2 < t@.len() && is_exp_mark(t@[k2]) && is_mantissa(t@.take(k2))
                        && is_exponent(t@.skip(k2 + 1)) {
                    let k2 = choose|k2: int|
                        0 <= k2 < t@.len() && is_exp_mark(t@[k2]) && is_mantissa(t@.take(k2))
                            && is_exponent(t@.skip(k2 + 1));
                    if k2 > k {
                        lemma_mantissa_has_no_exp_mark(t@.take(k2), k as int);
                    }
                    assert(k2 == k);
                }
            }
            let n = t.len();
            let m = copy_range(t, 0, k);
            let x = copy_range(t, k + 1, n);
            assert(m@ =~= t@.take(k as int));
            assert(x@ =~= t@.skip(k + 1));
            mantissa_exec(m.as_slice()) && exponent_exec(x.as_slice())
        },
    }
}

/// Whether `v` is text that `f64::from_str` would accept.
pub fn is_float_text(v: &[char]) -> (r: bool)
    ensures
        r == is_float_literal(v@),
{
    let t = if v.len() > 0 && (v[0] == '+' || v[0] == '-') {
        copy_range(v, 1, v.len())
    } else {
        copy_range(v, 0, v.len())
    };
    assert(t@ =~= unsigned_part(v@));
    let inf_l = vec!['i', 'n', 'f'];
    let inf_u = vec!['I', 'N', 'F'];
    let infinity_l = vec!['i', 'n', 'f', 'i', 'n', 'i', 't', 'y'];
    let infinity_u = vec!['I', 'N', 'F', 'I', 'N', 'I', 'T', 'Y'];
    let nan_l = vec!['n', 'a', 'n'];
    let nan_u = vec!['N', 'A', 'N'];
    assert(inf_l@ =~= seq!['i', 'n', 'f'] && inf_u@ =~= seq!['I', 'N', 'F']);
    assert(infinity_l@ =~= seq!['i', 'n', 'f', 'i', 'n', 'i', 't', 'y']);
    assert(infinity_u@ =~= seq!['I', 'N', 'F', 'I', 'N', 'I', 'T', 'Y']);
    assert(nan_l@ =~= seq!['n', 'a', 'n'] && nan_u@ =~= seq!['N', 'A', 'N']);
    spells_exec(t.as_slice(), inf_l.as_slice(), inf_u.as_slice()) || spells_exec(
        t.as_slice(),
        infinity_l.as_slice(),
        infinity_u.as_slice(),
    ) || spells_exec(t.as_slice(), nan_l.as_slice(), nan_u.as_slice()) || number_exec(
        t.as_slice(),
    )
}


/// The value of a string of decimal digits.
pub open spec fn digits_value(s: Seq<char>) -> nat
    decreases s.len(),
{
    if s.len() == 0 {
        0
    } else {
        digits_value(s.drop_last()) * 10 + ((s.last() as int) - ('0' as int)) as nat
    }
}

/// What `usize::from_str` gives: an optional `+` (not alone), then decimal
/// digits whose value fits a `usize`.
pub open spec fn parse_usize(s: Seq<char>) -> Option<nat> {
    let d = if s.len() > 1 && s[0] == '+' {
        s.drop_first()
    } else {
        s
    };
    if d.len() > 0 && all_digits(d) && digits_value(d) <= usize::MAX {
        Some(digits_value(d))
    } else {
        None
    }
}

proof fn lemma_digits_value_grows(s: Seq<char>, i: int)
    requires
        0 <= i <= s.len(),
        all_digits(s),
    ensures
        digits_value(s.take(i)) <= digits_value(s),
    decreases s.len() - i,
{
    if i < s.len() {
        lemma_digits_value_grows(s, i + 1);
        assert(s.take(i + 1).drop_last() =~= s.take(i));
        assert(is_digit(s[i]));
    } else {
        assert(s.take(i) =~= s);
    }
}

/// Reads a `usize` as `usize::from_str` does.
pub fn parse_usize_text(v: &[char]) -> (r: Option<usize>)
    ensures
        match parse_usize(v@) {
            Some(n) => r == Some(n as usize),
            None => r is None,
        },
{
    let d = if v.len() > 1 && v[0] == '+' {
        copy_range(v, 1, v.len())
    } else {
        copy_range(v, 0, v.len())
    };
    assert(d@ =~= (if v@.len() > 1 && v@[0] == '+' {
        v@.drop_first()
    } else {
        v@
    }));
    if d.len() == 0 || !digits_only(d.as_slice()) {
        return None;
    }
    let mut value: usize = 0;
    let mut i: usize = 0;
    while i < d.len()
        invariant
            i <= d@.len(),
            d@.len() > 0,
            all_digits(d@),
            d@ == (if v@.len() > 1 && v@[0] == '+' {
                v@.drop_first()
            } else {
                v@
            }),
            value == digits_value(d@.take(i as int)),
        decreases d.len() - i,
    {
        proof {
            assert(d@.take(i + 1).drop_last() =~= d@.take(i as int));
            assert(is_digit(d@[i as int]));
        }
        let digit = (d[i] as u32 - 48) as usize;
        if value > (usize::MAX - digit) / 10 {
            proof {
                lemma_digits_value_grows(d@, i + 1);
                assert(digits_value(d@.take(i + 1)) == value * 10 + digit);
                assert(value * 10 + digit > usize::MAX) by (nonlinear_arith)
                    requires
                        value > (usize::MAX - digit) / 10,
                        digit <= 9,
                ;
            }
            return None;
        }
        proof {
            assert(value * 10 + digit <= usize::MAX) by (nonlinear_arith)
                requires
                    value <= (usize::MAX - digit) / 10,
                    digit <= 9,
            ;
        }
        value = value * 10 + digit;
        i += 1;
    }
    assert(d@.take(d@.len() as int) =~= d@);
    Some(value)
}

} // verus!
