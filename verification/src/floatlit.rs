//! The grammar of floating-point literals, as std documents it for
//! float parsing: an optional sign, then `inf`, `infinity` or `nan`
//! (case-insensitively) or a decimal number with an optional fraction and
//! an optional exponent. A sample value is kept only when its text matches
//! this grammar; the numeric reading itself never enters the library.

use crate::numeric::{all_digits, is_digit, sign_digits_shape, unsigned_part};
use vstd::prelude::*;

verus! {

/// Case-insensitive match of one character against a lowercase letter.
pub open spec fn eq_ci(c: char, l: char) -> bool {
    c == l || c as u32 + 32 == l as u32
}

/// Case-insensitive match of a sequence against a lowercase word.
pub open spec fn match_ci(s: Seq<char>, lit: Seq<char>) -> bool {
    s.len() == lit.len() && forall|i: int| 0 <= i < s.len() ==> eq_ci(#[trigger] s[i], lit[i])
}

/// The special words the float grammar accepts besides numbers.
pub open spec fn is_special(s: Seq<char>) -> bool {
    match_ci(s, "inf"@) || match_ci(s, "infinity"@) || match_ci(s, "nan"@)
}

/// Count of dot characters.
pub open spec fn num_dots(s: Seq<char>) -> int
    decreases s.len(),
{
    if s.len() == 0 {
        0
    } else {
        num_dots(s.drop_last()) + if s.last() == '.' {
            1int
        } else {
            0int
        }
    }
}

/// Count of decimal digits.
pub open spec fn num_digits(s: Seq<char>) -> int
    decreases s.len(),
{
    if s.len() == 0 {
        0
    } else {
        num_digits(s.drop_last()) + if is_digit(s.last()) {
            1int
        } else {
            0int
        }
    }
}

/// The mantissa shape: digits with at most one dot among them, and at
/// least one digit.
pub open spec fn mantissa_ok(s: Seq<char>) -> bool {
    &&& s.len() > 0
    &&& forall|i: int| 0 <= i < s.len() ==> is_digit(#[trigger] s[i]) || s[i] == '.'
    &&& num_dots(s) <= 1
    &&& num_digits(s) >= 1
}

/// An exponent marker.
pub open spec fn is_exp_mark(c: char) -> bool {
    c == 'e' || c == 'E'
}

/// The number shape: a mantissa, optionally followed by an exponent
/// marker and a signed digit count.
pub open spec fn number_shape(s: Seq<char>) -> bool {
    ||| mantissa_ok(s)
    ||| exists|i: int|
        0 <= i < s.len() && is_exp_mark(#[trigger] s[i]) && mantissa_ok(s.take(i))
            && sign_digits_shape(s.skip(i + 1))
}

/// The strings that match the documented float grammar.
pub open spec fn is_float_str(s: Seq<char>) -> bool {
    is_special(unsigned_part(s)) || number_shape(unsigned_part(s))
}

fn match_ci_at(s: &str, from: usize, lit: &str) -> (b: bool)
    requires
        from <= s@.len(),
    ensures
        b == match_ci(s@.skip(from as int), lit@),
{
    let n = s.unicode_len();
    let m = lit.unicode_len();
    if n - from != m {
        return false;
    }
    let mut j: usize = 0;
    while j < m
        invariant
            0 <= j <= m,
            m == lit@.len(),
            n == s@.len(),
            from + m == n,
            forall|k: int| 0 <= k < j ==> eq_ci(#[trigger] s@[from + k], lit@[k]),
        decreases m - j,
    {
        let c = s.get_char(from + j);
        let l = lit.get_char(j);
        if !(c == l || (l as u32 >= 32 && c as u32 == l as u32 - 32)) {
            proof {
                assert(!eq_ci(s@[from + j], lit@[j as int]));
                assert(s@.skip(from as int)[j as int] == s@[from + j]);
            }
            return false;
        }
        j = j + 1;
    }
    proof {
        assert forall|i: int| 0 <= i < s@.skip(from as int).len() implies eq_ci(
            #[trigger] s@.skip(from as int)[i],
            lit@[i],
        ) by {
            assert(s@.skip(from as int)[i] == s@[from + i]);
        }
    }
    true
}

fn check_mantissa(s: &str, from: usize, to: usize) -> (b: bool)
    requires
        from <= to <= s@.len(),
    ensures
        b == mantissa_ok(s@.subrange(from as int, to as int)),
{
    if to == from {
        return false;
    }
    let mut dots: usize = 0;
    let mut digs: usize = 0;
    let mut j: usize = from;
    while j < to
        invariant
            from <= j <= to <= s@.len(),
            dots == num_dots(s@.subrange(from as int, j as int)),
            digs == num_digits(s@.subrange(from as int, j as int)),
            dots <= j - from,
            digs <= j - from,
            forall|k: int| from <= k < j ==> is_digit(#[trigger] s@[k]) || s@[k] == '.',
        decreases to - j,
    {
        let c = s.get_char(j);
        let cv = c as u32;
        proof {
            assert(s@.subrange(from as int, j + 1).drop_last() =~= s@.subrange(
                from as int,
                j as int,
            ));
            assert(s@.subrange(from as int, j + 1).last() == s@[j as int]);
        }
        if cv == 46 {
            dots = dots + 1;
        } else if 48 <= cv && cv <= 57 {
            digs = digs + 1;
        } else {
            proof {
                let t = s@.subrange(from as int, to as int);
                assert(t[j - from] == s@[j as int]);
                assert(!(is_digit(t[j - from]) || t[j - from] == '.'));
            }
            return false;
        }
        j = j + 1;
    }
    proof {
        let t = s@.subrange(from as int, to as int);
        assert(t =~= s@.subrange(from as int, j as int));
        assert forall|i: int| 0 <= i < t.len() implies is_digit(#[trigger] t[i]) || t[i] == '.' by {
            assert(t[i] == s@[from + i]);
        }
    }
    dots <= 1 && digs >= 1
}

fn check_sign_digits(s: &str, from: usize, to: usize) -> (b: bool)
    requires
        from <= to <= s@.len(),
    ensures
        b == sign_digits_shape(s@.subrange(from as int, to as int)),
{
    let ghost t = s@.subrange(from as int, to as int);
    if to == from {
        proof {
            assert(unsigned_part(t) == t);
            assert(!sign_digits_shape(t));
        }
        return false;
    }
    let c0 = s.get_char(from);
    let dstart: usize = if c0 == '+' || c0 == '-' {
        from + 1
    } else {
        from
    };
    proof {
        assert(t[0] == s@[from as int]);
        assert(unsigned_part(t) =~= s@.subrange(dstart as int, to as int));
    }
    if dstart == to {
        proof {
            assert(unsigned_part(t).len() == 0);
        }
        return false;
    }
    let mut j: usize = dstart;
    while j < to
        invariant
            from <= dstart <= j <= to <= s@.len(),
            unsigned_part(s@.subrange(from as int, to as int)) == s@.subrange(
                dstart as int,
                to as int,
            ),
            forall|k: int| dstart <= k < j ==> is_digit(#[trigger] s@[k]),
        decreases to - j,
    {
        let c = s.get_char(j);
        let cv = c as u32;
        if cv < 48 || cv > 57 {
            proof {
                let u = s@.subrange(dstart as int, to as int);
                assert(u[j - dstart] == s@[j as int]);
                assert(!is_digit(u[j - dstart]));
            }
            return false;
        }
        j = j + 1;
    }
    proof {
        let u = s@.subrange(dstart as int, to as int);
        assert forall|i: int| 0 <= i < u.len() implies is_digit(#[trigger] u[i]) by {
            assert(u[i] == s@[dstart + i]);
        }
        assert(all_digits(u));
    }
    true
}

/// Decides whether a string matches the documented float grammar.
pub fn is_float_literal(s: &str) -> (b: bool)
    ensures
        b == is_float_str(s@),
{
    let n = s.unicode_len();
    if n == 0 {
        proof {
            reveal_strlit("inf");
            reveal_strlit("infinity");
            reveal_strlit("nan");
            assert(unsigned_part(s@) =~= s@);
        }
        return false;
    }
    let c0 = s.get_char(0);
    let start: usize = if c0 == '+' || c0 == '-' {
        1
    } else {
        0
    };
    let ghost up = unsigned_part(s@);
    proof {
        assert(up =~= s@.skip(start as int));
    }
    if match_ci_at(s, start, "inf") || match_ci_at(s, start, "infinity") || match_ci_at(
        s,
        start,
        "nan",
    ) {
        return true;
    }
    // find the first exponent marker, if any
    let mut fi: Option<usize> = None;
    let mut j: usize = start;
    while j < n
        invariant
            start <= j <= n,
            n == s@.len(),
            match fi {
                Option::None => forall|k: int| start <= k < j ==> !is_exp_mark(#[trigger] s@[k]),
                Option::Some(f) => start <= f < j && is_exp_mark(s@[f as int]) && forall|k: int|
                    start <= k < f ==> !is_exp_mark(#[trigger] s@[k]),
            },
        decreases n - j,
    {
        let c = s.get_char(j);
        if (c == 'e' || c == 'E') && fi.is_none() {
            fi = Some(j);
        }
        j = j + 1;
    }
    match fi {
        None => {
            let b = check_mantissa(s, start, n);
            proof {
                assert(up =~= s@.subrange(start as int, n as int));
                if !b {
                    assert forall|i: int|
                        !(0 <= i < up.len() && is_exp_mark(#[trigger] up[i]) && mantissa_ok(
                            up.take(i),
                        ) && sign_digits_shape(up.skip(i + 1))) by {
                        if 0 <= i < up.len() {
                            assert(up[i] == s@[start + i]);
                        }
                    }
                }
            }
            b
        },
        Some(f) => {
            let b = check_mantissa(s, start, f) && check_sign_digits(s, f + 1, n);
            proof {
                let gi = f - start;
                assert(up.take(gi) =~= s@.subrange(start as int, f as int));
                assert(up.skip(gi + 1) =~= s@.subrange(f + 1, n as int));
                assert(up[gi] == s@[f as int]);
                // the marker makes the whole sequence fail the mantissa shape
                assert(!mantissa_ok(up)) by {
                    assert(!(is_digit(up[gi]) || up[gi] == '.'));
                }
                if b {
                    assert(number_shape(up));
                } else {
                    assert forall|i: int|
                        !(0 <= i < up.len() && is_exp_mark(#[trigger] up[i]) && mantissa_ok(
                            up.take(i),
                        ) && sign_digits_shape(up.skip(i + 1))) by {
                        if 0 <= i < up.len() && is_exp_mark(up[i]) {
                            assert(up[i] == s@[start + i]);
                            if i < gi {
                                assert(!is_exp_mark(s@[start + i]));
                            } else if i > gi {
                                // an earlier marker sits inside this mantissa
                                assert(up.take(i)[gi] == up[gi]);
                                assert(!mantissa_ok(up.take(i)));
                            }
                        }
                    }
                }
            }
            b
        },
    }
}

} // verus!
