//! The size grammar of a query: a decimal number, fraction allowed, with
//! an optional unit to the base 1024. The value is the number times the
//! unit, cut down to a whole count of bytes.

use vstd::prelude::*;
use vstd::string::*;
use vstd::arithmetic::div_mod::{lemma_div_denominator, lemma_hoist_over_denominator};
use vstd::arithmetic::power::{lemma_pow_positive, pow};
use crate::text::chars_of;

verus! {

/// What a unit letter multiplies by.
pub open spec fn unit_multiplier(c: char) -> Option<u64> {
    if c == 'k' {
        Some(1024u64)
    } else if c == 'm' {
        Some(1048576u64)
    } else if c == 'g' {
        Some(1073741824u64)
    } else {
        None
    }
}

/// A lower-case size text split into its number and the multiplier of
/// its unit. The units are `k`, `m`, `g`, each with or without a `b`
/// behind it; a text without a unit counts bytes.
pub open spec fn unit_split(s: Seq<char>) -> (Seq<char>, u64) {
    let n = s.len() as int;
    if n >= 2 && s[n - 1] == 'b' && unit_multiplier(s[n - 2]) is Some {
        (s.take(n - 2), unit_multiplier(s[n - 2])->0)
    } else if n >= 1 && unit_multiplier(s[n - 1]) is Some {
        (s.take(n - 1), unit_multiplier(s[n - 1])->0)
    } else {
        (s, 1u64)
    }
}

/// A decimal digit.
pub open spec fn is_digit(c: char) -> bool {
    '0' <= c && c <= '9'
}

/// The value of a decimal digit.
pub open spec fn digit_value(c: char) -> nat {
    (c as int - '0' as int) as nat
}

/// Every character is a decimal digit.
pub open spec fn all_digits(s: Seq<char>) -> bool {
    forall|i: int| 0 <= i < s.len() ==> is_digit(#[trigger] s[i])
}

/// The number that a run of digits writes.
pub open spec fn digits_value(s: Seq<char>) -> nat
    decreases s.len(),
{
    if s.len() == 0 {
        0
    } else {
        10 * digits_value(s.drop_last()) + digit_value(s.last())
    }
}

/// First position at or after `from` that holds a point, or the length
/// of the text when none follows.
pub open spec fn point_from(s: Seq<char>, from: int) -> int
    decreases s.len() - from,
{
    if 0 <= from < s.len() && s[from] != '.' {
        point_from(s, from + 1)
    } else {
        from
    }
}

/// The digits before the point.
pub open spec fn whole_part(s: Seq<char>) -> Seq<char> {
    s.take(point_from(s, 0))
}

/// The digits behind the point; none when there is no point.
pub open spec fn fraction_part(s: Seq<char>) -> Seq<char> {
    if point_from(s, 0) < s.len() {
        s.skip(point_from(s, 0) + 1)
    } else {
        Seq::empty()
    }
}

/// A decimal number: digits, at most one point among them, and at least
/// one digit before or behind it. No sign, no exponent.
pub open spec fn is_decimal(s: Seq<char>) -> bool {
    &&& all_digits(whole_part(s))
    &&& all_digits(fraction_part(s))
    &&& whole_part(s).len() + fraction_part(s).len() > 0
}

/// The decimal number times `multiplier`, cut down to a whole number.
pub open spec fn scaled_value(s: Seq<char>, multiplier: u64) -> nat {
    (digits_value(whole_part(s) + fraction_part(s)) * multiplier / pow(
        10,
        fraction_part(s).len(),
    )) as nat
}

/// The byte count that a decimal number with a multiplier stands for:
/// the scaled value, or the largest count when that is beyond it. A text
/// that is no decimal number stands for none.
pub open spec fn decimal_size(s: Seq<char>, multiplier: u64) -> Result<u64, ()> {
    if !is_decimal(s) {
        Err(())
    } else if scaled_value(s, multiplier) > u64::MAX {
        Ok(u64::MAX)
    } else {
        Ok(scaled_value(s, multiplier) as u64)
    }
}

/// The search for the point never goes backward, and stops within the
/// text.
pub proof fn lemma_point_from_bounds(s: Seq<char>, from: int)
    requires
        0 <= from <= s.len(),
    ensures
        from <= point_from(s, from) <= s.len(),
    decreases s.len() - from,
{
    if from < s.len() && s[from] != '.' {
        lemma_point_from_bounds(s, from + 1);
    }
}

/// One more digit at the end: ten times the value so far, plus the digit.
pub proof fn lemma_digits_push(s: Seq<char>, c: char)
    ensures
        digits_value(s.push(c)) == 10 * digits_value(s) + digit_value(c),
{
    assert(s.push(c).drop_last() =~= s);
}

/// The value of two runs of digits written one behind the other.
pub proof fn lemma_digits_concat(a: Seq<char>, b: Seq<char>)
    ensures
        digits_value(a + b) == digits_value(a) * pow(10, b.len()) + digits_value(b),
    decreases b.len(),
{
    if b.len() == 0 {
        assert(a + b =~= a);
        assert(pow(10, 0) == 1) by {
            reveal(pow);
        }
    } else {
        assert((a + b).drop_last() =~= a + b.drop_last());
        lemma_digits_concat(a, b.drop_last());
        let p = pow(10, (b.len() - 1) as nat);
        assert(pow(10, b.len()) == 10 * p) by {
            reveal(pow);
        }
        let x = digits_value(a) as int;
        assert(10 * (x * p) == x * (10 * p)) by (nonlinear_arith);
    }
}

/// A whole number and a fraction over `p`, scaled: the whole number
/// scales exactly, and only the fraction is cut.
pub proof fn lemma_scale_split(w: int, f: int, p: int, m: int)
    requires
        p > 0,
    ensures
        ((w * p + f) * m) / p == w * m + (f * m) / p,
{
    lemma_hoist_over_denominator(f * m, w * m, p as nat);
    assert((w * p + f) * m == f * m + (w * m) * p) by (nonlinear_arith);
}

/// Scaling a fraction with one more leading digit `d`: the carry out of
/// the rest, plus the scaled digit, over ten.
pub proof fn lemma_carry_step(d: int, t: int, p: int, m: int)
    requires
        p > 0,
        d >= 0,
        t >= 0,
        m >= 0,
    ensures
        ((d * p + t) * m) / (p * 10) == (d * m + (t * m) / p) / 10,
{
    lemma_scale_split(d, t, p, m);
    assert(0 <= (d * p + t) * m) by (nonlinear_arith)
        requires
            p > 0,
            d >= 0,
            t >= 0,
            m >= 0,
    ;
    lemma_div_denominator((d * p + t) * m, p, 10);
}

/// Splits the unit off a lower-case size text.
pub fn split_unit(s: &str) -> (r: (&str, u64))
    ensures
        (r.0@, r.1) == unit_split(s@),
{
    let chars = chars_of(s);
    let n: usize = chars.len();
    if n >= 2 && chars[n - 1] == 'b' {
        let c = chars[n - 2];
        if c == 'k' {
            return (s.substring_char(0, n - 2), 1024);
        } else if c == 'm' {
            return (s.substring_char(0, n - 2), 1048576);
        } else if c == 'g' {
            return (s.substring_char(0, n - 2), 1073741824);
        }
    }
    if n >= 1 {
        let c = chars[n - 1];
        if c == 'k' {
            return (s.substring_char(0, n - 1), 1024);
        } else if c == 'm' {
            return (s.substring_char(0, n - 1), 1048576);
        } else if c == 'g' {
            return (s.substring_char(0, n - 1), 1073741824);
        }
    }
    (s, 1)
}

/// Reads a decimal number and scales it by `multiplier`.
pub fn parse_decimal(text: &str, multiplier: u64) -> (r: Result<u64, ()>)
    ensures
        r == decimal_size(text@, multiplier),
{
    let chars = chars_of(text);
    let n: usize = chars.len();
    let ghost s = chars@;
    let mut i: usize = 0;
    let mut whole: u128 = 0;
    let mut huge = false;
    assert(s.take(0) =~= Seq::<char>::empty());
    while i < n && chars[i] != '.'
        invariant
            i <= n,
            n == s.len(),
            s == chars@,
            s == text@,
            point_from(s, 0) == point_from(s, i as int),
            all_digits(s.take(i as int)),
            !huge ==> whole == digits_value(s.take(i as int)) && whole <= u64::MAX,
            huge ==> digits_value(s.take(i as int)) > u64::MAX,
        decreases n - i,
    {
        let c = chars[i];
        if !(c >= '0' && c <= '9') {
            proof {
                assert(point_from(s, i as int) == point_from(s, i + 1));
                lemma_point_from_bounds(s, i + 1);
                assert(whole_part(s)[i as int] == c);
            }
            return Err(());
        }
        proof {
            assert(s.take(i + 1) =~= s.take(i as int).push(c));
            lemma_digits_push(s.take(i as int), c);
        }
        if !huge {
            whole = whole * 10 + ((c as u8) - ('0' as u8)) as u128;
            if whole > u64::MAX as u128 {
                huge = true;
            }
        }
        i = i + 1;
    }
    let point: usize = i;
    assert(whole_part(s) == s.take(point as int));
    let mut k: usize = n;
    let mut carry: u128 = 0;
    proof {
        assert(s.subrange(n as int, n as int) =~= Seq::<char>::empty());
        assert(pow(10, 0) == 1) by {
            reveal(pow);
        }
    }
    while k - point > 1
        invariant
            point < k <= n || (point == n && k == n),
            n == s.len(),
            s == chars@,
            s == text@,
            point_from(s, 0) == point,
            all_digits(s.subrange(k as int, n as int)),
            carry == (digits_value(s.subrange(k as int, n as int)) * multiplier) / pow(
                10,
                (n - k) as nat,
            ),
            carry <= multiplier,
        decreases k,
    {
        let c = chars[k - 1];
        let ghost rest = s.subrange(k as int, n as int);
        if !(c >= '0' && c <= '9') {
            proof {
                assert(fraction_part(s) =~= s.subrange(point + 1, n as int));
                assert(fraction_part(s)[k - 1 - (point + 1)] == c);
            }
            return Err(());
        }
        let d: u128 = ((c as u8) - ('0' as u8)) as u128;
        proof {
            let p = pow(10, (n - k) as nat);
            lemma_pow_positive(10, (n - k) as nat);
            assert(pow(10, (n - k + 1) as nat) == 10 * p) by {
                reveal(pow);
            }
            assert(s.subrange(k - 1, n as int) =~= seq![c] + rest);
            lemma_digits_concat(seq![c], rest);
            assert(digits_value(seq![c]) == digit_value(c)) by {
                assert(seq![c].drop_last() =~= Seq::<char>::empty());
                reveal_with_fuel(digits_value, 2);
            }
            lemma_carry_step(d as int, digits_value(rest) as int, p, multiplier as int);
            assert(p * 10 == 10 * p);
            assert(all_digits(s.subrange(k - 1, n as int))) by {
                assert forall|j: int| 0 <= j < n - k + 1 implies is_digit(
                    #[trigger] s.subrange(k - 1, n as int)[j],
                ) by {
                    if j > 0 {
                        assert(rest[j - 1] == s.subrange(k - 1, n as int)[j]);
                    }
                }
            }
        }
        assert(d * multiplier <= 9 * multiplier) by (nonlinear_arith)
            requires
                d <= 9,
        ;
        carry = (d * (multiplier as u128) + carry) / 10;
        k = k - 1;
    }
    proof {
        if point < n {
            assert(fraction_part(s) =~= s.subrange(point + 1, n as int));
        } else {
            assert(fraction_part(s) =~= s.subrange(n as int, n as int));
        }
    }
    let digits: usize = if point < n {
        n - 1
    } else {
        n
    };
    if digits == 0 {
        return Err(());
    }
    proof {
        let f = fraction_part(s);
        let p = pow(10, f.len());
        lemma_pow_positive(10, f.len());
        lemma_digits_concat(whole_part(s), f);
        lemma_scale_split(
            digits_value(whole_part(s)) as int,
            digits_value(f) as int,
            p,
            multiplier as int,
        );
        let w = digits_value(whole_part(s));
        if huge && multiplier > 0 {
            assert(w * multiplier >= w) by (nonlinear_arith)
                requires
                    multiplier >= 1,
            ;
        }
        if !huge {
            assert(w * multiplier <= u64::MAX * u64::MAX) by (nonlinear_arith)
                requires
                    w <= u64::MAX,
                    multiplier <= u64::MAX,
            ;
        }
        if multiplier == 0 {
            assert(w * multiplier == 0) by (nonlinear_arith)
                requires
                    multiplier == 0,
            ;
        }
    }
    if huge {
        if multiplier == 0 {
            Ok(0)
        } else {
            Ok(u64::MAX)
        }
    } else {
        let total: u128 = whole * (multiplier as u128) + carry;
        if total > u64::MAX as u128 {
            Ok(u64::MAX)
        } else {
            Ok(total as u64)
        }
    }
}

} // verus!
