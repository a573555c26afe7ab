//! Decimal parsing and rendering on plain integers: the numeric shape that
//! query-parameter components and sample addresses must have, and the
//! decimal text used for positional columns in the delimited output.

use vstd::prelude::*;

verus! {

/// A character is an ASCII decimal digit.
pub open spec fn is_digit(c: char) -> bool {
    48 <= c as u32 <= 57
}

/// Numeric value of a digit character.
pub open spec fn digit_val(c: char) -> int {
    c as u32 - 48
}

/// Every character of the sequence is a decimal digit.
pub open spec fn all_digits(s: Seq<char>) -> bool {
    forall|i: int| 0 <= i < s.len() ==> is_digit(#[trigger] s[i])
}

/// The value of a digit sequence read in base 10.
pub open spec fn digits_val(s: Seq<char>) -> int
    decreases s.len(),
{
    if s.len() == 0 {
        0
    } else {
        digits_val(s.drop_last()) * 10 + digit_val(s.last())
    }
}

/// The sequence starts with an explicit sign character.
pub open spec fn has_sign(s: Seq<char>) -> bool {
    s.len() > 0 && (s[0] == '+' || s[0] == '-')
}

/// The sequence with its optional leading sign removed.
pub open spec fn unsigned_part(s: Seq<char>) -> Seq<char> {
    if has_sign(s) {
        s.drop_first()
    } else {
        s
    }
}

/// The shape that integer parsing accepts: an optional single leading sign
/// followed by at least one decimal digit, and nothing else.
pub open spec fn sign_digits_shape(s: Seq<char>) -> bool {
    unsigned_part(s).len() > 0 && all_digits(unsigned_part(s))
}

/// The strings accepted as a numeric component, as unsigned parsing
/// accepts them: an optional `+` (never a `-`), then only digits, with a
/// value representable in 32 unsigned bits.
pub open spec fn parses_to_u32(s: Seq<char>) -> bool {
    &&& sign_digits_shape(s)
    &&& !(s.len() > 0 && s[0] == '-')
    &&& digits_val(unsigned_part(s)) <= u32::MAX
}

/// The value of a string accepted by `parses_to_u32`.
pub open spec fn u32_val(s: Seq<char>) -> int {
    digits_val(unsigned_part(s))
}

proof fn lemma_digits_val_nonneg(s: Seq<char>)
    requires
        all_digits(s),
    ensures
        digits_val(s) >= 0,
    decreases s.len(),
{
    if s.len() > 0 {
        assert(all_digits(s.drop_last()));
        lemma_digits_val_nonneg(s.drop_last());
    }
}

proof fn lemma_digits_val_take_le(s: Seq<char>, j: int)
    requires
        all_digits(s),
        0 <= j <= s.len(),
    ensures
        digits_val(s.take(j)) <= digits_val(s),
    decreases s.len() - j,
{
    if j < s.len() {
        assert(s.take(j + 1).drop_last() =~= s.take(j));
        assert(all_digits(s.take(j + 1)));
        assert(all_digits(s.take(j)));
        lemma_digits_val_nonneg(s.take(j));
        assert(digits_val(s.take(j + 1)) == digits_val(s.take(j)) * 10 + digit_val(s.take(j + 1).last()));
        assert(digits_val(s.take(j)) <= digits_val(s.take(j + 1)));
        lemma_digits_val_take_le(s, j + 1);
        assert(s.take(s.len() as int) =~= s);
    } else {
        assert(s.take(j) =~= s);
    }
}

/// Parses a string as an unsigned 32-bit decimal number, accepting an
/// optional leading `+` and rejecting any `-`: the result exists exactly
/// when the string has that shape and its value is representable.
pub fn parse_u32(s: &str) -> (r: Option<u32>)
    ensures
        r is Some <==> parses_to_u32(s@),
        r matches Some(v) ==> v == u32_val(s@),
{
    let n = s.unicode_len();
    if n == 0 {
        return None;
    }
    let c0 = s.get_char(0);
    if c0 == '-' {
        return None;
    }
    let signed = c0 == '+';
    let start: usize = if signed {
        1
    } else {
        0
    };
    if start == n {
        // a lone sign has no digits
        return None;
    }
    let mut acc: u64 = 0;
    let mut i: usize = start;
    while i < n
        invariant
            start <= i <= n,
            n == s@.len(),
            signed == has_sign(s@),
            s@[0] != '-',
            start == if has_sign(s@) { 1int } else { 0int },
            all_digits(s@.subrange(start as int, i as int)),
            acc == digits_val(s@.subrange(start as int, i as int)),
            acc <= u32::MAX,
        decreases n - i,
    {
        let c = s.get_char(i);
        let cv = c as u32;
        if cv < 48 || cv > 57 {
            proof {
                assert(!is_digit(s@[i as int]));
                assert(unsigned_part(s@)[i - start] == s@[i as int]);
                assert(!all_digits(unsigned_part(s@)));
            }
            return None;
        }
        let d: u64 = (cv - 48) as u64;
        let next: u64 = acc * 10 + d;
        proof {
            assert(s@.subrange(start as int, i + 1).drop_last() =~= s@.subrange(
                start as int,
                i as int,
            ));
            assert(s@.subrange(start as int, i + 1).last() == s@[i as int]);
        }
        if next > 0xFFFF_FFFF {
            proof {
                let u = unsigned_part(s@);
                if all_digits(u) {
                    assert(u.take(i + 1 - start) =~= s@.subrange(start as int, i + 1));
                    lemma_digits_val_take_le(u, i + 1 - start);
                    assert(digits_val(u) > u32::MAX);
                    lemma_digits_val_nonneg(u);
                    assert(!parses_to_u32(s@));
                }
            }
            return None;
        }
        acc = next;
        i = i + 1;
    }
    proof {
        assert(s@.subrange(start as int, n as int) =~= unsigned_part(s@));
    }
    Some(acc as u32)
}

/// The digit character of a value below ten.
pub open spec fn digit_char(d: int) -> char {
    if d == 0 {
        '0'
    } else if d == 1 {
        '1'
    } else if d == 2 {
        '2'
    } else if d == 3 {
        '3'
    } else if d == 4 {
        '4'
    } else if d == 5 {
        '5'
    } else if d == 6 {
        '6'
    } else if d == 7 {
        '7'
    } else if d == 8 {
        '8'
    } else {
        '9'
    }
}

/// The decimal rendering of a natural number, without sign or padding.
pub open spec fn dec_str(n: nat) -> Seq<char>
    decreases n,
{
    if n < 10 {
        seq![digit_char(n as int)]
    } else {
        dec_str(n / 10).push(digit_char((n % 10) as int))
    }
}

fn digit_string(d: u64) -> (r: String)
    requires
        d < 10,
    ensures
        r@ == seq![digit_char(d as int)],
{
    let t: &str = if d == 0 {
        "0"
    } else if d == 1 {
        "1"
    } else if d == 2 {
        "2"
    } else if d == 3 {
        "3"
    } else if d == 4 {
        "4"
    } else if d == 5 {
        "5"
    } else if d == 6 {
        "6"
    } else if d == 7 {
        "7"
    } else if d == 8 {
        "8"
    } else {
        "9"
    };
    proof {
        reveal_strlit("0");
        reveal_strlit("1");
        reveal_strlit("2");
        reveal_strlit("3");
        reveal_strlit("4");
        reveal_strlit("5");
        reveal_strlit("6");
        reveal_strlit("7");
        reveal_strlit("8");
        reveal_strlit("9");
        assert(t@ =~= seq![digit_char(d as int)]);
    }
    String::from_str(t)
}

/// Renders a number in decimal, matching `dec_str`.
pub fn u64_to_string(n: u64) -> (r: String)
    ensures
        r@ == dec_str(n as nat),
    decreases n,
{
    if n < 10 {
        digit_string(n)
    } else {
        let mut s = u64_to_string(n / 10);
        let d = digit_string(n % 10);
        s.append(d.as_str());
        proof {
            assert(dec_str((n / 10) as nat) + seq![digit_char((n % 10) as int)] =~= dec_str(
                (n / 10) as nat,
            ).push(digit_char((n % 10) as int)));
        }
        s
    }
}

} // verus!
