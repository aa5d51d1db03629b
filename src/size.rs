use vstd::arithmetic::div_mod::{
    lemma_div_denominator, lemma_fundamental_div_mod, lemma_fundamental_div_mod_converse,
};
use vstd::prelude::*;
use vstd::string::*;

use crate::error::RollingError;
use crate::naming::{
    all_digits, decimal_value, digit_value, is_digit, lemma_decimal_value_append, pow10,
};

verus! {

/// The factor that a unit letter stands for: `k`, `m` and `g`, in either
/// case, are 1024, 1024² and 1024³.
pub open spec fn unit_multiplier(c: char) -> Option<nat> {
    if c == 'k' || c == 'K' {
        Some(1024)
    } else if c == 'm' || c == 'M' {
        Some(1024 * 1024)
    } else if c == 'g' || c == 'G' {
        Some(1024 * 1024 * 1024)
    } else {
        None
    }
}

/// The number of decimal digits at the start of `s`.
pub open spec fn leading_digits(s: Seq<char>) -> nat
    decreases s.len(),
{
    if s.len() > 0 && is_digit(s[0]) {
        1 + leading_digits(s.drop_first())
    } else {
        0
    }
}

/// The whole and fractional digits of a decimal numeral: digits, then
/// optionally `.` and more digits, with at least one digit in all.
pub open spec fn numeral_parts(s: Seq<char>) -> Option<(Seq<char>, Seq<char>)> {
    let p = leading_digits(s);
    let rest = s.skip(p as int);
    if rest.len() == 0 {
        if p > 0 {
            Some((s, Seq::empty()))
        } else {
            None
        }
    } else if rest[0] == '.' && all_digits(rest.drop_first()) && p + rest.len() > 1 {
        Some((s.take(p as int), rest.drop_first()))
    } else {
        None
    }
}

/// The byte count that a size string denotes: a decimal numeral, possibly
/// with a fraction, times the factor of an optional unit letter at its end,
/// rounded down. `None` for a malformed string.
pub open spec fn size_in_bytes(s: Seq<char>) -> Option<nat> {
    let (num, m) = if s.len() > 0 && unit_multiplier(s.last()) is Some {
        (s.drop_last(), unit_multiplier(s.last())->0)
    } else {
        (s, 1nat)
    };
    match numeral_parts(num) {
        Some((whole, frac)) => Some(
            decimal_value(whole) * m + decimal_value(frac) * m / pow10(frac.len()),
        ),
        None => None,
    }
}

proof fn lemma_leading_digits(s: Seq<char>)
    ensures
        leading_digits(s) <= s.len(),
        all_digits(s.take(leading_digits(s) as int)),
        leading_digits(s) < s.len() ==> !is_digit(s[leading_digits(s) as int]),
    decreases s.len(),
{
    if s.len() > 0 && is_digit(s[0]) {
        let t = s.drop_first();
        lemma_leading_digits(t);
        let p = leading_digits(s) as int;
        assert forall|i: int| 0 <= i < p implies is_digit(#[trigger] s.take(p)[i]) by {
            if i > 0 {
                assert(s.take(p)[i] == t.take(p - 1)[i - 1]);
            }
        }
        if p < s.len() {
            assert(s[p] == t[p - 1]);
        }
    }
}

/// Where the scan for digits stops, the count of leading digits is reached.
proof fn lemma_leading_digits_at(s: Seq<char>, i: int)
    requires
        0 <= i <= s.len(),
        all_digits(s.take(i)),
        i == s.len() || !is_digit(s[i]),
    ensures
        leading_digits(s) == i,
    decreases i,
{
    if i > 0 {
        let t = s.drop_first();
        assert(s.take(i)[0] == s[0]);
        assert forall|j: int| 0 <= j < i - 1 implies is_digit(#[trigger] t.take(i - 1)[j]) by {
            assert(t.take(i - 1)[j] == s.take(i)[j + 1]);
        }
        if i < s.len() {
            assert(t[i - 1] == s[i]);
        }
        lemma_leading_digits_at(t, i - 1);
    }
}

/// One step of reading a fraction from its last digit back: the rounded-down
/// value of `0.d rest` times `m` comes from that of `0.rest` times `m`.
proof fn lemma_fraction_step(c: char, rest: Seq<char>, m: nat)
    ensures
        decimal_value(seq![c] + rest) * m / pow10(rest.len() + 1) == (digit_value(c) * m + (
        decimal_value(rest) * m / pow10(rest.len()))) / 10,
{
    let p = pow10(rest.len());
    let v = decimal_value(rest);
    let d = digit_value(c);
    crate::naming::lemma_pow10_positive(rest.len());
    lemma_decimal_value_append(seq![c], rest);
    assert(seq![c].drop_last() =~= Seq::<char>::empty());
    assert(seq![c].last() == c);
    assert(decimal_value(Seq::<char>::empty()) == 0);
    assert(decimal_value(seq![c]) == d);
    assert(pow10(rest.len() + 1) == 10 * p);
    let x = (d * p + v) * m;
    lemma_fundamental_div_mod((v * m) as int, p as int);
    let q = (v * m) / p;
    let r = (v * m) % p;
    assert(x == (d * m + q) * p + r) by (nonlinear_arith)
        requires
            x == (d * p + v) * m,
            v * m == p * q + r,
    ;
    lemma_fundamental_div_mod_converse(x as int, p as int, (d * m + q) as int, r as int);
    lemma_div_denominator(x as int, p as int, 10);
    assert(p * 10 == 10 * p);
}

/// A size written as whole digits stands for that many bytes, and with a
/// unit letter after it for that many times the unit's factor.
pub proof fn lemma_whole_sizes(digits: Seq<char>, unit: char)
    requires
        digits.len() > 0,
        all_digits(digits),
    ensures
        size_in_bytes(digits) == Some(decimal_value(digits)),
        unit_multiplier(unit) is Some ==> size_in_bytes(digits.push(unit)) == Some(
            decimal_value(digits) * unit_multiplier(unit)->0,
        ),
{
    assert(digits.take(digits.len() as int) =~= digits);
    lemma_leading_digits_at(digits, digits.len() as int);
    assert(is_digit(digits.last()));
    assert(digits.skip(digits.len() as int) =~= Seq::<char>::empty());
    assert(decimal_value(Seq::<char>::empty()) == 0);
    assert(pow10(0) == 1);
    if unit_multiplier(unit) is Some {
        let t = digits.push(unit);
        assert(t.drop_last() =~= digits);
        assert(t.last() == unit);
    }
}

fn is_digit_char(c: char) -> (r: bool)
    ensures
        r == is_digit(c),
{
    '0' <= c && c <= '9'
}

/// Parses a human-readable size such as `25M`, `1.5k` or `4096` into a byte
/// count: a decimal numeral, possibly with a fraction, followed by an
/// optional unit letter (`k`, `m`, `g`, either case, for 1024, 1024², 1024³).
/// The result is rounded down, and a count past `usize::MAX` is held there.
/// Any other string is a `ParseError`.
pub fn parse_bytes(bytes_string: &str) -> (r: Result<usize, RollingError>)
    ensures
        match size_in_bytes(bytes_string@) {
            Some(v) => r == Ok::<usize, RollingError>(
                if v > usize::MAX {
                    usize::MAX
                } else {
                    v as usize
                },
            ),
            None => r matches Err(RollingError::ParseError),
        },
{
    let ghost s = bytes_string@;
    let n = bytes_string.unicode_len();
    let mut multiple: u128 = 1;
    let mut num_len: usize = n;
    if n > 0 {
        let c = bytes_string.get_char(n - 1);
        if c == 'k' || c == 'K' {
            multiple = 1024;
            num_len = n - 1;
        } else if c == 'm' || c == 'M' {
            multiple = 1024 * 1024;
            num_len = n - 1;
        } else if c == 'g' || c == 'G' {
            multiple = 1024 * 1024 * 1024;
            num_len = n - 1;
        }
    }
    let ghost num = s.take(num_len as int);
    let ghost m = multiple as nat;
    assert(if s.len() > 0 && unit_multiplier(s.last()) is Some {
        num == s.drop_last() && m == unit_multiplier(s.last())->0
    } else {
        num =~= s && m == 1
    });
    let cap: u128 = usize::MAX as u128 + 1;
    // The whole part, held at `cap` once it reaches it.
    let mut whole: u128 = 0;
    let mut i: usize = 0;
    while i < num_len && is_digit_char(bytes_string.get_char(i))
        invariant
            s == bytes_string@,
            num_len <= s.len(),
            num == s.take(num_len as int),
            i <= num_len,
            cap == usize::MAX + 1,
            whole <= cap,
            all_digits(num.take(i as int)),
            whole == if decimal_value(num.take(i as int)) < cap {
                decimal_value(num.take(i as int))
            } else {
                cap as nat
            },
        decreases num_len - i,
    {
        let c = bytes_string.get_char(i);
        let d: u128 = (c as u32 - '0' as u32) as u128;
        assert(d <= 9);
        assert(num[i as int] == c);
        assert(num.take(i + 1).drop_last() =~= num.take(i as int));
        assert(num.take(i + 1).last() == c);
        let ghost v = decimal_value(num.take(i as int));
        assert(decimal_value(num.take(i + 1)) == v * 10 + d);
        whole = if whole * 10 + d >= cap {
            cap
        } else {
            whole * 10 + d
        };
        i = i + 1;
        assert forall|j: int| 0 <= j < i implies is_digit(#[trigger] num.take(i as int)[j]) by {
            if j < i - 1 {
                assert(num.take(i as int)[j] == num.take(i - 1)[j]);
            }
        }
    }
    proof {
        if i < num_len {
            assert(num[i as int] == s[i as int]);
        }
        lemma_leading_digits_at(num, i as int);
        lemma_leading_digits(num);
    }
    let ghost rest = num.skip(i as int);
    if i == num_len {
        if i == 0 {
            return Err(RollingError::ParseError);
        }
        assert(num.take(i as int) =~= num);
        proof {
            assert(decimal_value(Seq::<char>::empty()) == 0);
            assert(pow10(0) == 1);
            assert(0 * m / 1 == 0);
            assert(decimal_value(Seq::<char>::empty()) * m / pow10(0) == 0);
        }
        return Ok(saturate(whole, cap, multiple, 0, Ghost(decimal_value(num)), Ghost(m)));
    }
    if bytes_string.get_char(i) != '.' {
        assert(rest[0] == num[i as int]);
        return Err(RollingError::ParseError);
    }
    assert(rest[0] == '.');
    let frac_start: usize = i + 1;
    if frac_start == num_len && i == 0 {
        return Err(RollingError::ParseError);
    }
    let ghost frac = rest.drop_first();
    let ghost expected = if all_digits(frac) {
        Some(decimal_value(num.take(i as int)) * m + decimal_value(frac) * m / pow10(frac.len()))
    } else {
        None
    };
    assert(frac =~= num.subrange(frac_start as int, num_len as int));
    assert(size_in_bytes(s) == expected);
    // The fraction's contribution, read from its last digit back.
    let mut part: u128 = 0;
    let mut j: usize = num_len;
    assert(frac.skip(frac.len() as int) =~= Seq::<char>::empty());
    assert(decimal_value(Seq::<char>::empty()) == 0);
    assert(pow10(0) == 1);
    assert(0 * m / 1 == 0);
    while j > frac_start
        invariant
            frac_start <= j <= num_len,
            s == bytes_string@,
            num_len <= s.len(),
            num == s.take(num_len as int),
            frac == num.subrange(frac_start as int, num_len as int),
            all_digits(frac.skip(j - frac_start)),
            1 <= m <= 1024 * 1024 * 1024,
            part < m,
            multiple == m,
            size_in_bytes(s) == expected,
            expected == if all_digits(frac) {
                Some(
                    decimal_value(num.take(i as int)) * m + decimal_value(frac) * m / pow10(
                        frac.len(),
                    ),
                )
            } else {
                None::<nat>
            },
            part == decimal_value(frac.skip(j - frac_start)) * m / pow10(
                frac.skip(j - frac_start).len(),
            ),
        decreases j,
    {
        let c = bytes_string.get_char(j - 1);
        if !('0' <= c && c <= '9') {
            assert(frac[j - 1 - frac_start] == c);
            assert(!all_digits(frac));
            return Err(RollingError::ParseError);
        }
        let d: u128 = (c as u32 - '0' as u32) as u128;
        assert(d <= 9);
        let ghost after = frac.skip(j - frac_start);
        assert(frac.skip(j - 1 - frac_start) =~= seq![c] + after);
        proof {
            lemma_fraction_step(c, after, m);
            assert(d * m + part < 10 * m) by (nonlinear_arith)
                requires
                    d <= 9,
                    part < m,
            ;
        }
        part = (d * multiple + part) / 10;
        j = j - 1;
        assert forall|k: int| 0 <= k < frac.skip(j - frac_start).len() implies is_digit(
            #[trigger] frac.skip(j - frac_start)[k],
        ) by {
            if k > 0 {
                assert(frac.skip(j - frac_start)[k] == after[k - 1]);
            }
        }
    }
    assert(frac.skip(0) =~= frac);
    assert(num.take(i as int) == num.take(leading_digits(num) as int));
    Ok(saturate(whole, cap, multiple, part, Ghost(decimal_value(num.take(i as int))), Ghost(m)))
}

/// `whole_value * m + part`, held at `usize::MAX`, from `whole`, which is
/// `whole_value` held at `cap`.
fn saturate(whole: u128, cap: u128, multiple: u128, part: u128, whole_value: Ghost<nat>, m: Ghost<nat>) -> (r: usize)
    requires
        cap == usize::MAX + 1,
        whole == if whole_value@ < cap {
            whole_value@
        } else {
            cap as nat
        },
        multiple == m@,
        1 <= m@ <= 1024 * 1024 * 1024,
        part < m@,
    ensures
        r == if whole_value@ * m@ + part > usize::MAX {
            usize::MAX
        } else {
            (whole_value@ * m@ + part) as usize
        },
{
    proof {
        assert(whole * multiple <= cap * (1024 * 1024 * 1024)) by (nonlinear_arith)
            requires
                whole <= cap,
                multiple <= 1024 * 1024 * 1024,
        ;
        assert(cap <= 0x1_0000_0000_0000_0000);
        if whole_value@ >= cap {
            assert(whole_value@ * m@ >= cap * m@) by (nonlinear_arith)
                requires
                    whole_value@ >= cap,
                    m@ >= 1,
            ;
            assert(cap * m@ >= cap) by (nonlinear_arith)
                requires
                    m@ >= 1,
                    cap >= 1,
            ;
        }
    }
    let total = whole * multiple + part;
    if total > usize::MAX as u128 {
        usize::MAX
    } else {
        total as usize
    }
}

} // verus!
