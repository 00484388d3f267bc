//! The quantity sanitizer: raw text from a macro input field becomes a
//! non-negative fixed-point quantity.
//!
//! The text is trimmed and read as an optionally signed decimal number with
//! an optional fraction and an optional power-of-ten exponent.  Anything
//! else — words, stray characters, a lone sign — parses as zero, and so do
//! negative values and values too large to represent: a calculator must
//! never reject a keystroke.

use vstd::prelude::*;
use crate::decimal::{
    digits_value, scaled_value, spec_sanitize, spec_units_of, units_from_parts,
    digits_value_saturated, lemma_scaled_deep_neg, lemma_scaled_big, lemma_digits_value_nonneg,
    QUANTITY_LIMIT,
};
use crate::text::{
    digit_run_end, digit_vals, spec_trimmed, str_to_chars, trimmed_chars, scan_digit_run,
};

verus! {

/// Saturation bound for a parsed exponent; far beyond any length a
/// mantissa can have, so saturation never changes the parsed value.
pub const EXPONENT_CAP: u128 = 1_000_000_000_000_000_000_000_000_000_000;

/// The sign at the front of the text: whether it is negative, and the
/// index of the first character after the sign.
pub open spec fn sign_at(t: Seq<char>, i: int) -> (bool, int) {
    if i < t.len() && t[i] == '-' {
        (true, i + 1)
    } else if i < t.len() && t[i] == '+' {
        (false, i + 1)
    } else {
        (false, i)
    }
}

/// Scan the whole text as an optionally signed decimal number.  Returns
/// the sign, the mantissa digits, and the power-of-ten shift that turns
/// the mantissa into whole units; `None` when the text is not a number.
pub open spec fn spec_scan_number(t: Seq<char>) -> Option<(bool, Seq<u8>, int)> {
    let n = t.len() as int;
    let (neg, i0) = sign_at(t, 0);
    let i1 = digit_run_end(t, i0);
    let has_dot = i1 < n && t[i1] == '.';
    let fs = if has_dot {
        i1 + 1
    } else {
        i1
    };
    let i2 = if has_dot {
        digit_run_end(t, fs)
    } else {
        i1
    };
    let mantissa = digit_vals(t, i0, i1) + digit_vals(t, fs, i2);
    let frac_len = i2 - fs;
    if i1 == i0 && i2 == fs {
        None
    } else if i2 == n {
        Some((neg, mantissa, 4 - frac_len))
    } else if t[i2] == 'e' || t[i2] == 'E' {
        let (eneg, j0) = sign_at(t, i2 + 1);
        let j1 = digit_run_end(t, j0);
        if j0 < j1 && j1 == n {
            let ev = digits_value(digit_vals(t, j0, j1));
            Some((neg, mantissa, if eneg { 4 - frac_len - ev } else { 4 - frac_len + ev }))
        } else {
            None
        }
    } else {
        None
    }
}

/// The quantity denoted by raw field text: the trimmed text read as a
/// number, scaled to whole units and sanitized; non-numbers and negative
/// values come out as zero, unrepresentable magnitudes saturate.
pub open spec fn spec_parse_quantity(s: Seq<char>) -> u64 {
    match spec_scan_number(spec_trimmed(s)) {
        None => 0,
        Some((neg, mantissa, k)) => spec_sanitize(
            if neg {
                -scaled_value(mantissa, k)
            } else {
                scaled_value(mantissa, k)
            },
        ),
    }
}

/// Map the outcome of a whole-unit conversion to a sanitized quantity.
fn finish_signed(neg: bool, units: Option<u64>, Ghost(mantissa): Ghost<Seq<u8>>, Ghost(k): Ghost<int>) -> (r: u64)
    requires
        units == spec_units_of(mantissa, k),
        scaled_value(mantissa, k) >= 0,
    ensures
        r == spec_sanitize(if neg { -scaled_value(mantissa, k) } else { scaled_value(mantissa, k) }),
{
    match units {
        None => if neg {
            0
        } else {
            QUANTITY_LIMIT - 1
        },
        Some(m) => if neg {
            0
        } else {
            m
        },
    }
}

/// Parse raw field text as a quantity in whole units.  Total: text that
/// is not a number, and negative values, give zero; magnitudes beyond the
/// representable range give the largest representable quantity.
#[verifier::rlimit(50)]
pub fn parse_quantity(s: &str) -> (r: u64)
    ensures
        r == spec_parse_quantity(s@),
        r < QUANTITY_LIMIT,
{
    let chars = str_to_chars(s);
    let t = trimmed_chars(&chars);
    let n = t.len();
    let mut neg: bool = false;
    let mut i0: usize = 0;
    if n > 0 && t[0] == '-' {
        neg = true;
        i0 = 1;
    } else if n > 0 && t[0] == '+' {
        i0 = 1;
    }
    proof {
        assert(sign_at(t@, 0) == (neg, i0 as int));
    }
    let mut mantissa: Vec<u8> = Vec::new();
    let i1 = scan_digit_run(&t, i0, &mut mantissa);
    let mut fs = i1;
    let mut has_dot = false;
    if i1 < n && t[i1] == '.' {
        has_dot = true;
        fs = i1 + 1;
    }
    let i2 = if has_dot {
        scan_digit_run(&t, fs, &mut mantissa)
    } else {
        i1
    };
    proof {
        assert(mantissa@ == digit_vals(t@, i0 as int, i1 as int) + digit_vals(
            t@,
            fs as int,
            i2 as int,
        ));
    }
    let frac_len = i2 - fs;
    if i1 == i0 && i2 == fs {
        return 0;
    }
    if i2 == n {
        let k: i128 = 4 - frac_len as i128;
        let units = units_from_parts(&mantissa, k);
        proof {
            lemma_digits_value_nonneg(mantissa@);
            if k >= 0 {
                crate::decimal::lemma_pow10_pos(k as nat);
                assert(digits_value(mantissa@) * crate::decimal::pow10(k as nat) >= 0)
                    by (nonlinear_arith)
                    requires
                        digits_value(mantissa@) >= 0,
                        crate::decimal::pow10(k as nat) >= 1,
                ;
            } else {
                crate::decimal::lemma_pow10_pos((-k) as nat);
                vstd::arithmetic::div_mod::lemma_div_pos_is_pos(
                    digits_value(mantissa@),
                    crate::decimal::pow10((-k) as nat) as int,
                );
            }
        }
        return finish_signed(neg, units, Ghost(mantissa@), Ghost(k as int));
    }
    let c = t[i2];
    if !(c == 'e' || c == 'E') {
        return 0;
    }
    let mut eneg: bool = false;
    let mut j0: usize = i2 + 1;
    if j0 < n && t[j0] == '-' {
        eneg = true;
        j0 = j0 + 1;
    } else if j0 < n && t[j0] == '+' {
        j0 = j0 + 1;
    }
    proof {
        assert(sign_at(t@, i2 + 1) == (eneg, j0 as int));
    }
    let mut exp_digits: Vec<u8> = Vec::new();
    let j1 = scan_digit_run(&t, j0, &mut exp_digits);
    if !(j0 < j1 && j1 == n) {
        return 0;
    }
    let ghost ev_true: int = digits_value(digit_vals(t@, j0 as int, j1 as int));
    let ev = digits_value_saturated(&exp_digits, EXPONENT_CAP);
    proof {
        lemma_digits_value_nonneg(exp_digits@);
    }
    let ghost k_true: int = if eneg {
        4 - (i2 - fs) - ev_true
    } else {
        4 - (i2 - fs) + ev_true
    };
    proof {
        assert(spec_scan_number(t@) == Some((neg, mantissa@, k_true)));
    }
    if ev >= EXPONENT_CAP {
        if eneg {
            proof {
                assert(k_true <= -(mantissa@.len() as int));
                lemma_scaled_deep_neg(mantissa@, k_true);
            }
            return 0;
        }
        proof {
            assert(k_true >= 17);
            lemma_scaled_big(mantissa@, k_true);
        }
        let mut all_zero: bool = true;
        let mut w: usize = 0;
        let mlen = mantissa.len();
        while w < mlen
            invariant
                mlen == mantissa@.len(),
                w <= mlen,
                all_zero <==> (forall|m: int| 0 <= m < w ==> mantissa@[m] == 0),
            decreases mlen - w,
        {
            if mantissa[w] != 0 {
                all_zero = false;
            }
            w = w + 1;
        }
        proof {
            crate::decimal::lemma_digits_value_zero(mantissa@);
            crate::decimal::lemma_digits_value_nonneg(mantissa@);
        }
        if all_zero {
            proof {
                assert(digits_value(mantissa@) * crate::decimal::pow10(k_true as nat) == 0)
                    by (nonlinear_arith)
                    requires
                        digits_value(mantissa@) == 0,
                ;
            }
            return 0;
        }
        if neg {
            return 0;
        }
        return QUANTITY_LIMIT - 1;
    }
    let k: i128 = if eneg {
        4 - frac_len as i128 - ev as i128
    } else {
        4 - frac_len as i128 + ev as i128
    };
    let units = units_from_parts(&mantissa, k);
    proof {
        lemma_digits_value_nonneg(mantissa@);
        if k >= 0 {
            crate::decimal::lemma_pow10_pos(k as nat);
            assert(digits_value(mantissa@) * crate::decimal::pow10(k as nat) >= 0)
                by (nonlinear_arith)
                requires
                    digits_value(mantissa@) >= 0,
                    crate::decimal::pow10(k as nat) >= 1,
            ;
        } else {
            crate::decimal::lemma_pow10_pos((-k) as nat);
            vstd::arithmetic::div_mod::lemma_div_pos_is_pos(
                digits_value(mantissa@),
                crate::decimal::pow10((-k) as nat) as int,
            );
        }
    }
    finish_signed(neg, units, Ghost(mantissa@), Ghost(k as int))
}

} // verus!
