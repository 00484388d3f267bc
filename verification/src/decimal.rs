//! Decimal fixed-point arithmetic for macro quantities.
//!
//! A quantity is a count of ten-thousandths of a gram held in a `u64`, so
//! every value with at most four decimal digits is represented exactly and
//! the two decimals shown to the user never suffer rounding surprises.
//! This module holds the digit-sequence model shared by the quantity parser
//! and the recipe codec: the value of a run of decimal digits, the digits of
//! a number, and the scaling of a digit run by a power of ten.

use vstd::prelude::*;
use vstd::arithmetic::div_mod::lemma_fundamental_div_mod_converse;
use vstd::arithmetic::mul::lemma_mul_inequality;

verus! {

/// Number of fixed-point units in one gram (four decimal digits).
pub const UNITS_PER_GRAM: u64 = 10_000;

/// Exclusive upper bound on a quantity, in units.  Values at or beyond
/// this bound are not representable and sanitize to the largest quantity
/// that is.
pub const QUANTITY_LIMIT: u64 = 10_000_000_000_000_000;

/// Ten to the `n`-th power.
pub open spec fn pow10(n: nat) -> nat
    decreases n,
{
    if n == 0 {
        1
    } else {
        10 * pow10((n - 1) as nat)
    }
}

/// Every digit of the sequence is a decimal digit value.
pub open spec fn all_digits(ds: Seq<u8>) -> bool {
    forall|i: int| 0 <= i < ds.len() ==> ds[i] <= 9
}

/// The number denoted by a run of decimal digit values, most significant
/// digit first.  The empty run denotes zero.
pub open spec fn digits_value(ds: Seq<u8>) -> int
    decreases ds.len(),
{
    if ds.len() == 0 {
        0
    } else {
        digits_value(ds.drop_last()) * 10 + ds.last()
    }
}

/// The decimal digits of `n`, most significant first, without leading
/// zeros (`0` itself is the single digit `0`).
pub open spec fn spec_digits_of(n: nat) -> Seq<u8>
    decreases n,
{
    if n < 10 {
        seq![n as u8]
    } else {
        spec_digits_of(n / 10).push((n % 10) as u8)
    }
}

/// A digit run scaled by ten to the `k`-th: the whole-unit value of a
/// mantissa whose decimal point sits `k` places from its right end.
/// Negative `k` truncates toward zero.
pub open spec fn scaled_value(ds: Seq<u8>, k: int) -> int {
    if k >= 0 {
        digits_value(ds) * pow10(k as nat)
    } else {
        digits_value(ds) / pow10((-k) as nat) as int
    }
}

pub proof fn lemma_pow10_pos(n: nat)
    ensures
        pow10(n) >= 1,
    decreases n,
{
    if n > 0 {
        lemma_pow10_pos((n - 1) as nat);
    }
}

pub proof fn lemma_pow10_adds(a: nat, b: nat)
    ensures
        pow10(a + b) == pow10(a) * pow10(b),
    decreases a,
{
    if a == 0 {
        assert(a + b == b);
        assert(pow10(a) == 1);
        assert(pow10(a + b) == pow10(a) * pow10(b));
    } else {
        let a1 = (a - 1) as nat;
        lemma_pow10_adds(a1, b);
        assert(pow10(a + b) == 10 * pow10(a1 + b));
        assert(pow10(a + b) == 10 * (pow10(a1) * pow10(b)));
        assert(pow10(a) == 10 * pow10(a1));
        lemma_pow10_pos(a);
        lemma_pow10_pos(b);
        assert(pow10(a + b) == pow10(a) * pow10(b) && pow10(a) * pow10(b) >= 0)
            by (nonlinear_arith)
            requires
                pow10(a + b) == 10 * (pow10(a1) * pow10(b)),
                pow10(a) == 10 * pow10(a1),
                pow10(a) >= 1,
                pow10(b) >= 1,
        ;
    }
}

pub proof fn lemma_pow10_increases(a: nat, b: nat)
    ensures
        a <= b ==> pow10(a) <= pow10(b),
{
    if a <= b {
        lemma_pow10_adds(a, (b - a) as nat);
        lemma_pow10_pos(a);
        lemma_pow10_pos((b - a) as nat);
        lemma_mul_inequality(1, pow10((b - a) as nat) as int, pow10(a) as int);
    }
}

pub proof fn lemma_digits_value_nonneg(ds: Seq<u8>)
    ensures
        digits_value(ds) >= 0,
    decreases ds.len(),
{
    if ds.len() > 0 {
        lemma_digits_value_nonneg(ds.drop_last());
    }
}

/// A run of `n` decimal digits denotes a value below ten to the `n`-th.
pub proof fn lemma_digits_value_bound(ds: Seq<u8>)
    requires
        all_digits(ds),
    ensures
        0 <= digits_value(ds) < pow10(ds.len()),
    decreases ds.len(),
{
    if ds.len() == 0 {
    } else {
        lemma_digits_value_bound(ds.drop_last());
        assert(ds.last() <= 9);
    }
}

pub proof fn lemma_digits_value_push(ds: Seq<u8>, d: u8)
    ensures
        digits_value(ds.push(d)) == digits_value(ds) * 10 + d,
{
    assert(ds.push(d).drop_last() =~= ds);
}

/// Splitting a digit run: the whole value is the prefix value shifted left
/// by the suffix length, plus the suffix value.
pub proof fn lemma_digits_value_split(ds: Seq<u8>, m: nat)
    requires
        m <= ds.len(),
    ensures
        digits_value(ds) == digits_value(ds.take(ds.len() - m)) * pow10(m) + digits_value(
            ds.skip(ds.len() - m),
        ),
    decreases m,
{
    let n = ds.len() as int;
    if m == 0 {
        assert(ds.take(n) =~= ds);
        assert(ds.skip(n) =~= Seq::<u8>::empty());
        assert(pow10(m) == 1);
        assert(digits_value(ds) == digits_value(ds.take(ds.len() - m)) * pow10(m)
            + digits_value(ds.skip(ds.len() - m)));
    } else {
        let dl = ds.drop_last();
        let m1 = (m - 1) as nat;
        let p = digits_value(ds.take(n - m));
        lemma_digits_value_split(dl, m1);
        assert(dl.take(n - m) =~= ds.take(n - m));
        assert(dl.skip(n - m).push(ds.last()) =~= ds.skip(n - m));
        lemma_digits_value_push(dl.skip(n - m), ds.last());
        let r = digits_value(dl.skip(n - m));
        assert(digits_value(ds) == (p * pow10(m1) + r) * 10 + ds.last());
        assert(digits_value(ds.skip(n - m)) == r * 10 + ds.last());
        assert(pow10(m) == 10 * pow10(m1));
        assert(digits_value(ds) == p * pow10(m) + digits_value(ds.skip(n - m)))
            by (nonlinear_arith)
            requires
                digits_value(ds) == (p * pow10(m1) + r) * 10 + ds.last(),
                digits_value(ds.skip(n - m)) == r * 10 + ds.last(),
                pow10(m) == 10 * pow10(m1),
        ;
        assert(ds.take(n - m) =~= ds.take(ds.len() - m));
        assert(ds.skip(n - m) =~= ds.skip(ds.len() - m));
    }
}

/// Dropping the last `m` digits of a run divides its value by ten to the
/// `m`-th, rounding toward zero.
pub proof fn lemma_digits_value_prefix_div(ds: Seq<u8>, m: nat)
    requires
        all_digits(ds),
        m <= ds.len(),
    ensures
        digits_value(ds) / pow10(m) as int == digits_value(ds.take(ds.len() - m)),
{
    let n = ds.len() as int;
    lemma_digits_value_split(ds, m);
    lemma_digits_value_bound(ds.skip(n - m));
    lemma_digits_value_nonneg(ds.take(n - m));
    assert(ds.skip(n - m).len() == m);
    lemma_fundamental_div_mod_converse(
        digits_value(ds),
        pow10(m) as int,
        digits_value(ds.take(n - m)),
        digits_value(ds.skip(n - m)),
    );
}

/// A digit run denotes zero exactly when every digit is zero.
pub proof fn lemma_digits_value_zero(ds: Seq<u8>)
    requires
        all_digits(ds),
    ensures
        digits_value(ds) == 0 <==> (forall|i: int| 0 <= i < ds.len() ==> ds[i] == 0),
    decreases ds.len(),
{
    if ds.len() > 0 {
        lemma_digits_value_zero(ds.drop_last());
        lemma_digits_value_nonneg(ds.drop_last());
        if digits_value(ds) == 0 {
            assert(forall|i: int| 0 <= i < ds.len() - 1 ==> ds[i] == ds.drop_last()[i]);
        } else {
            if forall|i: int| 0 <= i < ds.len() ==> ds[i] == 0 {
                assert(forall|i: int|
                    0 <= i < ds.len() - 1 ==> ds.drop_last()[i] == ds[i] && ds[i] == 0);
                assert(ds.last() == 0);
            }
        }
    }
}

pub proof fn lemma_spec_digits_of(n: nat)
    ensures
        all_digits(spec_digits_of(n)),
        digits_value(spec_digits_of(n)) == n,
        spec_digits_of(n).len() >= 1,
        n >= 1 ==> spec_digits_of(n)[0] != 0,
        n < 10 ==> spec_digits_of(n) =~= seq![n as u8],
    decreases n,
{
    if n < 10 {
        let ds = seq![n as u8];
        assert(ds.drop_last() =~= Seq::<u8>::empty());
        assert(digits_value(ds) == digits_value(ds.drop_last()) * 10 + ds.last());
    } else {
        lemma_spec_digits_of(n / 10);
        lemma_digits_value_push(spec_digits_of(n / 10), (n % 10) as u8);
        assert(spec_digits_of(n)[0] == spec_digits_of(n / 10)[0]);
    }
}

/// A non-negative value saturated at the representable bound.
pub open spec fn sat_limit(v: int) -> u64 {
    if v < QUANTITY_LIMIT {
        v as u64
    } else {
        QUANTITY_LIMIT
    }
}

/// Evaluate the first `keep` digits of a run, scaled by ten to the
/// `extra_tens`-th, saturating at [`QUANTITY_LIMIT`].
fn saturating_scaled_digits(digits: &Vec<u8>, keep: usize, extra_tens: usize) -> (acc: u64)
    requires
        all_digits(digits@),
        keep <= digits@.len(),
    ensures
        acc == sat_limit(digits_value(digits@.take(keep as int)) * pow10(extra_tens as nat)),
{
    let mut acc: u64 = 0;
    let mut i: usize = 0;
    proof {
        assert(digits@.take(0) =~= Seq::<u8>::empty());
        lemma_digits_value_nonneg(digits@.take(0));
    }
    while i < keep
        invariant
            all_digits(digits@),
            i <= keep <= digits@.len(),
            acc == sat_limit(digits_value(digits@.take(i as int))),
            digits_value(digits@.take(i as int)) >= 0,
        decreases keep - i,
    {
        let d = digits[i];
        proof {
            assert(digits@.take(i + 1) =~= digits@.take(i as int).push(digits@[i as int]));
            lemma_digits_value_push(digits@.take(i as int), digits@[i as int]);
        }
        let next = if acc >= QUANTITY_LIMIT {
            QUANTITY_LIMIT
        } else {
            acc * 10 + d as u64
        };
        acc = if next >= QUANTITY_LIMIT {
            QUANTITY_LIMIT
        } else {
            next
        };
        i = i + 1;
    }
    let mut j: usize = 0;
    let ghost base: int = digits_value(digits@.take(keep as int));
    while j < extra_tens
        invariant
            base == digits_value(digits@.take(keep as int)),
            base >= 0,
            acc == sat_limit(base * pow10(j as nat)),
            j <= extra_tens,
        decreases extra_tens - j,
    {
        proof {
            let p = pow10(j as nat);
            lemma_pow10_pos(j as nat);
            assert(pow10((j + 1) as nat) == 10 * p);
            assert(base * (10 * p) == (base * p) * 10 && (base >= 1 && p >= 1 ==> base * p
                >= 1)) by (nonlinear_arith);
            if base * p >= QUANTITY_LIMIT {
                assert((base * p) * 10 >= QUANTITY_LIMIT * 10) by (nonlinear_arith)
                    requires
                        base * p >= QUANTITY_LIMIT,
                ;
            }
        }
        acc = if acc >= QUANTITY_LIMIT {
            QUANTITY_LIMIT
        } else if acc * 10 >= QUANTITY_LIMIT {
            QUANTITY_LIMIT
        } else {
            acc * 10
        };
        j = j + 1;
    }
    acc
}

/// The whole-unit magnitude of a mantissa-and-exponent pair, or nothing
/// when it reaches the representable bound.
pub open spec fn spec_units_of(ds: Seq<u8>, k: int) -> Option<u64> {
    if scaled_value(ds, k) < QUANTITY_LIMIT {
        Some(scaled_value(ds, k) as u64)
    } else {
        None
    }
}

/// Turn the digits of a decimal mantissa and a power-of-ten shift into a
/// whole-unit magnitude; out-of-range magnitudes are reported as `None`.
pub fn units_from_parts(digits: &Vec<u8>, k: i128) -> (r: Option<u64>)
    requires
        all_digits(digits@),
        k > i128::MIN,
    ensures
        r == spec_units_of(digits@, k as int),
{
    let n = digits.len();
    if k < 0 {
        let drop_count = -k;
        proof {
            lemma_digits_value_bound(digits@);
            lemma_pow10_pos((-k) as nat);
        }
        if drop_count >= n as i128 {
            proof {
                lemma_pow10_increases(digits@.len(), (-k) as nat);
                vstd::arithmetic::div_mod::lemma_basic_div(
                    digits_value(digits@),
                    pow10((-k) as nat) as int,
                );
            }
            Some(0)
        } else {
            let keep: usize = n - drop_count as usize;
            proof {
                lemma_digits_value_prefix_div(digits@, (-k) as nat);
                lemma_digits_value_nonneg(digits@.take(keep as int));
                assert(keep as int == digits@.len() - (-k) as nat);
                assert(pow10(0) == 1);
                assert(scaled_value(digits@, k as int) == digits_value(
                    digits@.take(keep as int),
                ));
            }
            let acc = saturating_scaled_digits(digits, keep, 0);
            if acc < QUANTITY_LIMIT {
                Some(acc)
            } else {
                None
            }
        }
    } else if k > 16 {
        let mut all_zero: bool = true;
        let mut i: usize = 0;
        while i < n
            invariant
                n == digits@.len(),
                i <= n,
                all_zero <==> (forall|m: int| 0 <= m < i ==> digits@[m] == 0),
            decreases n - i,
        {
            if digits[i] != 0 {
                all_zero = false;
            }
            i = i + 1;
        }
        proof {
            lemma_digits_value_zero(digits@);
            lemma_digits_value_nonneg(digits@);
        }
        if all_zero {
            proof {
                assert(digits_value(digits@) * pow10(k as nat) == 0) by (nonlinear_arith)
                    requires
                        digits_value(digits@) == 0,
                ;
            }
            Some(0)
        } else {
            proof {
                lemma_pow10_pos(k as nat);
                lemma_pow10_increases(17, k as nat);
                assert(pow10(17) == 100_000_000_000_000_000) by {
                    reveal_with_fuel(pow10, 18);
                }
                lemma_mul_inequality(1, digits_value(digits@), pow10(k as nat) as int);
            }
            None
        }
    } else {
        let acc = saturating_scaled_digits(digits, n, k as usize);
        proof {
            assert(digits@.take(n as int) =~= digits@);
            lemma_digits_value_nonneg(digits@);
            lemma_pow10_pos(k as nat);
            assert(digits_value(digits@) * pow10(k as nat) >= 0) by (nonlinear_arith)
                requires
                    digits_value(digits@) >= 0,
                    pow10(k as nat) >= 1,
            ;
        }
        if acc < QUANTITY_LIMIT {
            Some(acc)
        } else {
            None
        }
    }
}

/// The value of two digit runs laid end to end.
pub proof fn lemma_digits_value_concat(a: Seq<u8>, b: Seq<u8>)
    ensures
        digits_value(a + b) == digits_value(a) * pow10(b.len()) + digits_value(b),
{
    let ds = a + b;
    lemma_digits_value_split(ds, b.len());
    assert(ds.take(ds.len() - b.len()) =~= a);
    assert(ds.skip(ds.len() - b.len()) =~= b);
}

/// A number below ten to the `k`-th has at most `k` digits.
pub proof fn lemma_spec_digits_of_len(n: nat, k: nat)
    requires
        n < pow10(k),
        k >= 1,
    ensures
        spec_digits_of(n).len() <= k,
    decreases n,
{
    if n < 10 {
    } else {
        assert(pow10(1) == 10) by {
            reveal_with_fuel(pow10, 2);
        }
        if k == 1 {
            lemma_pow10_increases(1, k);
            assert(false);
        }
        let k1 = (k - 1) as nat;
        assert(pow10(k) == 10 * pow10(k1));
        assert(n / 10 < pow10(k1)) by {
            lemma_pow10_pos(k1);
            if n / 10 >= pow10(k1) {
                vstd::arithmetic::div_mod::lemma_fundamental_div_mod(n as int, 10);
                assert(n >= 10 * (n / 10));
                lemma_mul_inequality(pow10(k1) as int, (n / 10) as int, 10);
                assert(10 * pow10(k1) <= 10 * (n / 10)) by (nonlinear_arith)
                    requires
                        pow10(k1) <= n / 10,
                ;
            }
        }
        lemma_spec_digits_of_len(n / 10, k1);
    }
}

/// Shifting right past the whole mantissa always truncates to zero.
pub proof fn lemma_scaled_deep_neg(ds: Seq<u8>, k: int)
    requires
        all_digits(ds),
        k <= -(ds.len() as int),
    ensures
        scaled_value(ds, k) == 0,
{
    lemma_digits_value_bound(ds);
    lemma_pow10_increases(ds.len(), (-k) as nat);
    lemma_pow10_pos(ds.len());
    vstd::arithmetic::div_mod::lemma_basic_div(digits_value(ds), pow10((-k) as nat) as int);
}

/// A huge left shift puts any non-zero mantissa beyond the representable
/// bound, and leaves a zero mantissa at zero.
pub proof fn lemma_scaled_big(ds: Seq<u8>, k: int)
    requires
        all_digits(ds),
        k >= 17,
    ensures
        digits_value(ds) == 0 ==> scaled_value(ds, k) == 0,
        digits_value(ds) != 0 ==> scaled_value(ds, k) >= QUANTITY_LIMIT,
{
    lemma_digits_value_nonneg(ds);
    lemma_pow10_pos(k as nat);
    lemma_pow10_increases(17, k as nat);
    assert(pow10(17) == 100_000_000_000_000_000) by {
        reveal_with_fuel(pow10, 18);
    }
    if digits_value(ds) == 0 {
        assert(digits_value(ds) * pow10(k as nat) == 0) by (nonlinear_arith)
            requires
                digits_value(ds) == 0,
        ;
    } else {
        lemma_mul_inequality(1, digits_value(ds), pow10(k as nat) as int);
    }
}

/// The value of a digit run, saturated at `cap`.
pub fn digits_value_saturated(digits: &Vec<u8>, cap: u128) -> (r: u128)
    requires
        all_digits(digits@),
        cap <= 10_000_000_000_000_000_000_000_000_000_000,
    ensures
        digits_value(digits@) < cap ==> r == digits_value(digits@),
        digits_value(digits@) >= cap ==> r == cap,
{
    let mut acc: u128 = 0;
    let mut i: usize = 0;
    let n = digits.len();
    proof {
        assert(digits@.take(0) =~= Seq::<u8>::empty());
        lemma_digits_value_nonneg(digits@.take(0));
    }
    while i < n
        invariant
            all_digits(digits@),
            n == digits@.len(),
            i <= n,
            cap <= 10_000_000_000_000_000_000_000_000_000_000,
            digits_value(digits@.take(i as int)) >= 0,
            digits_value(digits@.take(i as int)) < cap ==> acc == digits_value(
                digits@.take(i as int),
            ),
            digits_value(digits@.take(i as int)) >= cap ==> acc == cap,
        decreases n - i,
    {
        let d = digits[i];
        proof {
            assert(digits@.take(i + 1) =~= digits@.take(i as int).push(digits@[i as int]));
            lemma_digits_value_push(digits@.take(i as int), digits@[i as int]);
        }
        let next = if acc >= cap {
            cap
        } else {
            acc * 10 + d as u128
        };
        acc = if next >= cap {
            cap
        } else {
            next
        };
        i = i + 1;
    }
    proof {
        assert(digits@.take(n as int) =~= digits@);
    }
    acc
}

/// The character of a decimal digit value.
pub open spec fn spec_digit_char(d: u8) -> char {
    ((d + 48) as u32) as char
}

/// The characters of a run of decimal digit values.
pub open spec fn digit_chars(ds: Seq<u8>) -> Seq<char> {
    Seq::new(ds.len(), |i: int| spec_digit_char(ds[i]))
}

/// Whether a character is a decimal digit, and its value.
pub open spec fn is_digit_char(c: char) -> bool {
    48 <= c as u32 <= 57
}

/// The digit value of a decimal digit character.
pub open spec fn spec_char_digit(c: char) -> u8 {
    ((c as u32) - 48) as u8
}

/// Render one decimal digit value as its character.
pub fn digit_to_char(d: u8) -> (c: char)
    requires
        d <= 9,
    ensures
        c == spec_digit_char(d),
        is_digit_char(c),
        spec_char_digit(c) == d,
{
    let c = match d {
        0 => '0',
        1 => '1',
        2 => '2',
        3 => '3',
        4 => '4',
        5 => '5',
        6 => '6',
        7 => '7',
        8 => '8',
        _ => '9',
    };
    proof {
        vstd::utf8::char_u32_cast(c, (d + 48) as u32);
    }
    c
}

/// Read one character as a decimal digit value, if it is one.
pub fn char_to_digit(c: char) -> (r: Option<u8>)
    ensures
        r is Some <==> is_digit_char(c),
        r matches Some(d) ==> d == spec_char_digit(c) && d <= 9 && spec_digit_char(d) == c,
{
    let u = c as u32;
    if 48 <= u && u <= 57 {
        proof {
            vstd::utf8::char_u32_cast(c, u);
        }
        Some((u - 48) as u8)
    } else {
        None
    }
}

/// Append the decimal digits of `v`, most significant first.
pub fn push_decimal(out: &mut Vec<char>, v: u128)
    ensures
        final(out)@ == old(out)@ + digit_chars(spec_digits_of(v as nat)),
    decreases v,
{
    if v < 10 {
        let c = digit_to_char(v as u8);
        out.push(c);
        proof {
            assert(digit_chars(spec_digits_of(v as nat)) =~= seq![spec_digit_char(v as u8)]);
            assert(out@ =~= old(out)@ + seq![c]);
        }
    } else {
        push_decimal(out, v / 10);
        let c = digit_to_char((v % 10) as u8);
        out.push(c);
        proof {
            let hi = spec_digits_of(v as nat / 10);
            assert(v as nat / 10 == (v / 10) as nat);
            assert(spec_digits_of(v as nat) =~= hi.push((v as nat % 10) as u8));
            assert(digit_chars(hi.push((v as nat % 10) as u8)) =~= digit_chars(hi).push(
                spec_digit_char((v as nat % 10) as u8),
            ));
            assert(out@ =~= old(out)@ + digit_chars(spec_digits_of(v as nat)));
        }
    }
}

/// Clamp a raw fixed-point value to the representable non-negative range:
/// negative values become zero, values at or beyond the bound saturate at
/// the largest representable quantity.
pub open spec fn spec_sanitize(value: int) -> u64 {
    if value < 0 {
        0
    } else if value >= QUANTITY_LIMIT {
        (QUANTITY_LIMIT - 1) as u64
    } else {
        value as u64
    }
}

/// Sanitize a raw signed quantity: clamp it to the representable range.
pub fn sanitize_quantity(value: i128) -> (r: u64)
    ensures
        r == spec_sanitize(value as int),
        r < QUANTITY_LIMIT,
{
    if value < 0 {
        0
    } else if value >= QUANTITY_LIMIT as i128 {
        QUANTITY_LIMIT - 1
    } else {
        value as u64
    }
}

/// Sanitizing is idempotent: a sanitized value sanitizes to itself.
pub proof fn lemma_sanitize_idempotent(value: int)
    ensures
        spec_sanitize(spec_sanitize(value) as int) == spec_sanitize(value),
{
}

} // verus!
