//! Decimal and scientific numerals (`1`, `-0.25`, `.5`, `3.`, `1.5e-3`), as
//! branch lengths are written in tree descriptions.
use crate::model::vertex::Decimal;
use vstd::prelude::*;

verus! {

/// Largest exponent digit value, and largest number of fraction digits, that
/// a numeral may have.
pub const EXP_LIMIT: u64 = 0x4000_0000_0000_0000;

/// `0` to `9`.
pub open spec fn is_digit(b: u8) -> bool {
    48 <= b <= 57
}

/// Bytes that can occur in a numeral: digits, `.`, `-`, `+`, `e` and `E`.
pub open spec fn is_numeral_byte(b: u8) -> bool {
    is_digit(b) || b == 46 || b == 45 || b == 43 || b == 101 || b == 69
}

/// End of the run of digits that starts at `i`.
pub open spec fn digit_run_end(s: Seq<u8>, i: int) -> int
    decreases s.len() - i,
{
    if i >= s.len() || !is_digit(s[i]) {
        i
    } else {
        digit_run_end(s, i + 1)
    }
}

/// End of the run of numeral bytes that starts at `i`.
pub open spec fn numeral_run_end(s: Seq<u8>, i: int) -> int
    decreases s.len() - i,
{
    if i >= s.len() || !is_numeral_byte(s[i]) {
        i
    } else {
        numeral_run_end(s, i + 1)
    }
}

/// The number that a string of decimal digits denotes.
pub open spec fn digits_value(s: Seq<u8>) -> nat
    decreases s.len(),
{
    if s.len() == 0 {
        0
    } else {
        digits_value(s.drop_last()) * 10 + (s.last() - 48) as nat
    }
}

/// 1 when `t` starts with `+` or `-`, else 0.
pub open spec fn sign_len(t: Seq<u8>) -> int {
    if t.len() > 0 && (t[0] == 43 || t[0] == 45) {
        1
    } else {
        0
    }
}

/// The decimal that the numeral `t` denotes: an optional sign, digits with
/// an optional `.` among or after them (at least one digit in all), then
/// optionally `e` or `E`, an optional sign and at least one digit. `None`
/// when `t` is not of that form, when its digits denote a mantissa beyond
/// `u64`, or when its exponent digits or its fraction digits exceed
/// [`EXP_LIMIT`].
pub open spec fn spec_decimal(t: Seq<u8>) -> Option<Decimal> {
    let sl = sign_len(t);
    let a = digit_run_end(t, sl);
    let fs = if a < t.len() && t[a] == 46 {
        a + 1
    } else {
        a
    };
    let b = digit_run_end(t, fs);
    let has_exp = b < t.len() && (t[b] == 101 || t[b] == 69);
    let exp_negative = has_exp && b + 1 < t.len() && t[b + 1] == 45;
    let c = if has_exp {
        b + 1 + sign_len(t.subrange(b + 1, t.len() as int))
    } else {
        b
    };
    let d = digit_run_end(t, c);
    let sig = significant(t.subrange(sl, a) + t.subrange(fs, b));
    let exp_digits = digits_value(t.subrange(c, d));
    let scale = b - fs;
    let exponent = (if exp_negative {
        -exp_digits
    } else {
        exp_digits as int
    }) - scale + sig.2;
    if (a - sl) + (b - fs) == 0 || (has_exp && (d != t.len() || d == c)) || (!has_exp && b
        != t.len()) || exp_digits > EXP_LIMIT || scale > EXP_LIMIT || exponent < i64::MIN
        || exponent > i64::MAX {
        None
    } else {
        Some(Decimal { negative: sl == 1 && t[0] == 45, mantissa: sig.0 as u64, exponent: exponent as i64 })
    }
}

/// How many significant digits a mantissa keeps.
pub const SIGNIFICANT_DIGITS: u64 = 19;

/// `10` to the power `n`.
pub open spec fn pow10(n: nat) -> nat
    decreases n,
{
    if n == 0 {
        1
    } else {
        10 * pow10((n - 1) as nat)
    }
}

/// Reading the digits `ds` as a float parse does: leading zeros are skipped,
/// the first [`SIGNIFICANT_DIGITS`] significant digits make the mantissa,
/// and each later digit only raises the exponent by one. Gives the mantissa,
/// the number of significant digits kept, and the number dropped.
pub open spec fn significant(ds: Seq<u8>) -> (nat, nat, nat)
    decreases ds.len(),
{
    if ds.len() == 0 {
        (0, 0, 0)
    } else {
        let (m, k, x) = significant(ds.drop_last());
        let d = (ds.last() - 48) as nat;
        if k == 0 && d == 0 {
            (m, k, x)
        } else if k < SIGNIFICANT_DIGITS {
            (m * 10 + d, k + 1, x)
        } else {
            (m, k, x + 1)
        }
    }
}

pub proof fn lemma_pow10_mono(a: nat, b: nat)
    requires
        a <= b,
    ensures
        pow10(a) <= pow10(b),
    decreases b,
{
    if a < b {
        lemma_pow10_mono(a, (b - 1) as nat);
    }
}

proof fn lemma_pow10_18()
    ensures
        pow10(18) == 1_000_000_000_000_000_000,
{
    reveal_with_fuel(pow10, 19);
}

proof fn lemma_digit_run_digits(s: Seq<u8>, i: int)
    requires
        0 <= i <= s.len(),
    ensures
        i <= digit_run_end(s, i) <= s.len(),
        forall|j: int| i <= j < digit_run_end(s, i) ==> is_digit(#[trigger] s[j]),
    decreases s.len() - i,
{
    if i < s.len() && is_digit(s[i]) {
        lemma_digit_run_digits(s, i + 1);
    }
}

/// Folds the digits `t[lo..hi]` into the significant-digit reading of
/// `prefix`, given as `(m, k, x)`.
fn fold_significant(t: &[u8], lo: usize, hi: usize, m: u64, k: u64, x: usize, Ghost(prefix): Ghost<Seq<u8>>) -> (r: (u64, u64, usize))
    requires
        lo <= hi <= t@.len(),
        forall|j: int| lo <= j < hi ==> is_digit(#[trigger] t@[j]),
        (m as nat, k as nat, x as nat) == significant(prefix),
        k <= SIGNIFICANT_DIGITS,
        m < pow10(k as nat),
        x <= prefix.len(),
        prefix.len() + (hi - lo) <= usize::MAX,
    ensures
        (r.0 as nat, r.1 as nat, r.2 as nat) == significant(prefix + t@.subrange(lo as int, hi as int)),
        r.1 <= SIGNIFICANT_DIGITS,
        r.0 < pow10(r.1 as nat),
        r.2 <= prefix.len() + (hi - lo),
{
    let mut j = lo;
    let mut m = m;
    let mut k = k;
    let mut x = x;
    assert(prefix + t@.subrange(lo as int, lo as int) =~= prefix);
    while j < hi
        invariant
            lo <= j <= hi <= t@.len(),
            forall|q: int| lo <= q < hi ==> is_digit(#[trigger] t@[q]),
            (m as nat, k as nat, x as nat) == significant(prefix + t@.subrange(lo as int, j as int)),
            k <= SIGNIFICANT_DIGITS,
            m < pow10(k as nat),
            x <= prefix.len() + (j - lo),
            prefix.len() + (hi - lo) <= usize::MAX,
        decreases hi - j,
    {
        let ghost before = prefix + t@.subrange(lo as int, j as int);
        assert(prefix + t@.subrange(lo as int, j + 1) =~= before.push(t@[j as int]));
        assert(before.push(t@[j as int]).drop_last() =~= before);
        assert(is_digit(t@[j as int]));
        let d = (t[j] - 48) as u64;
        if k == 0 && d == 0 {
        } else if k < SIGNIFICANT_DIGITS {
            proof {
                lemma_pow10_mono(k as nat, 18);
                lemma_pow10_18();
                assert(pow10((k + 1) as nat) == 10 * pow10(k as nat));
                assert(m * 10 + d < 10 * pow10(k as nat)) by (nonlinear_arith)
                    requires
                        m < pow10(k as nat),
                        d <= 9,
                ;
                assert(10 * pow10(k as nat) <= 10_000_000_000_000_000_000) by (nonlinear_arith)
                    requires
                        pow10(k as nat) <= 1_000_000_000_000_000_000,
                ;
            }
            m = m * 10 + d;
            k = k + 1;
        } else {
            x = x + 1;
        }
        j = j + 1;
    }
    (m, k, x)
}

/// `v` when it is at most `limit`.
pub open spec fn capped(v: nat, limit: u64) -> Option<u64> {
    if v <= limit {
        Some(v as u64)
    } else {
        None
    }
}

proof fn lemma_digits_value_push(s: Seq<u8>, x: u8)
    ensures
        digits_value(s.push(x)) == digits_value(s) * 10 + (x - 48) as nat,
{
    assert(s.push(x).drop_last() =~= s);
}

/// Reads the run of digits of `t` that starts at `i`, continuing the number
/// whose digits are `prefix` (given as `acc`, capped at `limit`); returns
/// where the run ends and the capped value of all the digits.
pub(crate) fn accumulate_digits(t: &[u8], i: usize, acc: Option<u64>, limit: u64, Ghost(prefix): Ghost<Seq<u8>>)
    -> (r: (usize, Option<u64>))
    requires
        i <= t@.len(),
        acc == capped(digits_value(prefix), limit),
    ensures
        r.0 == digit_run_end(t@, i as int),
        i <= r.0 <= t@.len(),
        r.1 == capped(digits_value(prefix + t@.subrange(i as int, r.0 as int)), limit),
{
    let mut j = i;
    let mut cur = acc;
    while j < t.len() && t[j] >= 48 && t[j] <= 57
        invariant
            i <= j <= t@.len(),
            digit_run_end(t@, j as int) == digit_run_end(t@, i as int),
            cur == capped(digits_value(prefix + t@.subrange(i as int, j as int)), limit),
        decreases t@.len() - j,
    {
        let d = (t[j] - 48) as u64;
        let ghost before = prefix + t@.subrange(i as int, j as int);
        proof {
            assert(prefix + t@.subrange(i as int, j + 1) =~= before.push(t@[j as int]));
            lemma_digits_value_push(before, t@[j as int]);
        }
        cur = match cur {
            Some(m) => {
                if d <= limit && m <= (limit - d) / 10 {
                    assert(m * 10 + d <= limit) by (nonlinear_arith)
                        requires
                            d <= limit,
                            m <= (limit - d) / 10,
                    ;
                    Some(m * 10 + d)
                } else {
                    assert(m * 10 + d > limit) by (nonlinear_arith)
                        requires
                            !(d <= limit && m <= (limit - d) / 10),
                    ;
                    None
                }
            },
            None => None,
        };
        j = j + 1;
    }
    (j, cur)
}

#[verifier::rlimit(80)]
/// Reads the numeral `t` as a decimal; `None` when [`spec_decimal`] says so.
pub fn parse_decimal(t: &[u8]) -> (r: Option<Decimal>)
    ensures
        r == spec_decimal(t@),
{
    let n = t.len();
    let sl: usize = if n > 0 && (t[0] == 43 || t[0] == 45) {
        1
    } else {
        0
    };
    let negative = sl == 1 && t[0] == 45;
    proof {
        assert(Seq::<u8>::empty() =~= Seq::<u8>::empty());
    }
    let (a, m1) = accumulate_digits(t, sl, Some(0), u64::MAX, Ghost(Seq::<u8>::empty()));
    assert(Seq::<u8>::empty() + t@.subrange(sl as int, a as int) =~= t@.subrange(sl as int, a as int));
    let fs = if a < n && t[a] == 46 {
        a + 1
    } else {
        a
    };
    let (b, _) = accumulate_digits(t, fs, m1, u64::MAX, Ghost(t@.subrange(sl as int, a as int)));
    proof {
        lemma_digit_run_digits(t@, sl as int);
        lemma_digit_run_digits(t@, fs as int);
        assert(Seq::<u8>::empty() + t@.subrange(sl as int, a as int) =~= t@.subrange(sl as int, a as int));
    }
    let (m0, k0, x0) = fold_significant(t, sl, a, 0, 0, 0, Ghost(Seq::<u8>::empty()));
    let (mantissa, _, extra) = fold_significant(t, fs, b, m0, k0, x0, Ghost(t@.subrange(sl as int, a as int)));
    if (a - sl) + (b - fs) == 0 {
        return None;
    }
    let has_exp = b < n && (t[b] == 101 || t[b] == 69);
    let exp_negative = has_exp && b + 1 < n && t[b + 1] == 45;
    let c = if has_exp {
        if b + 1 < n && (t[b + 1] == 43 || t[b + 1] == 45) {
            b + 2
        } else {
            b + 1
        }
    } else {
        b
    };
    proof {
        if has_exp {
            let rest = t@.subrange(b + 1, n as int);
            assert(rest.len() > 0 ==> rest[0] == t@[b + 1]);
        }
    }
    let (d, exp_digits) = accumulate_digits(t, c, Some(0), EXP_LIMIT, Ghost(Seq::<u8>::empty()));
    assert(Seq::<u8>::empty() + t@.subrange(c as int, d as int) =~= t@.subrange(c as int, d as int));
    if has_exp && (d != n || d == c) {
        return None;
    }
    if !has_exp && b != n {
        return None;
    }
    let scale = b - fs;
    match exp_digits {
        Some(e) => {
            if scale as u64 > EXP_LIMIT {
                return None;
            }
            let signed: i128 = if exp_negative {
                -(e as i128)
            } else {
                e as i128
            };
            let exponent: i128 = signed - scale as i128 + extra as i128;
            if exponent < i64::MIN as i128 || exponent > i64::MAX as i128 {
                return None;
            }
            Some(Decimal::new(negative, mantissa, exponent as i64))
        },
        None => None,
    }
}

} // verus!
