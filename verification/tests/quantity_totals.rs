//! The quantity sanitizer and the totals engine on concrete inputs.

use pedietcalc::decimal::{sanitize_quantity, QUANTITY_LIMIT, UNITS_PER_GRAM};
use pedietcalc::ledger::Ingredient;
use pedietcalc::quantity::parse_quantity;
use pedietcalc::totals::{compute_grand_totals, compute_row_totals, format_number, format_ratio, TotalsMemo};

fn row(protein: &str, fat: &str, carbs: &str, servings: &str) -> Ingredient {
    Ingredient {
        id: 0,
        name: String::new(),
        protein: protein.to_owned(),
        fat: fat.to_owned(),
        net_carbs: carbs.to_owned(),
        servings: servings.to_owned(),
    }
}

#[test]
fn parse_whole_numbers() {
    assert_eq!(parse_quantity("20"), 20 * UNITS_PER_GRAM);
    assert_eq!(parse_quantity("0"), 0);
    assert_eq!(parse_quantity("007"), 7 * UNITS_PER_GRAM);
}

#[test]
fn parse_fractions_and_signs() {
    assert_eq!(parse_quantity("2.5"), 25_000);
    assert_eq!(parse_quantity(".5"), 5_000);
    assert_eq!(parse_quantity("1."), 10_000);
    assert_eq!(parse_quantity("+5"), 50_000);
    assert_eq!(parse_quantity("-3"), 0);
    assert_eq!(parse_quantity("0.001"), 10);
}

#[test]
fn parse_trims_whitespace() {
    assert_eq!(parse_quantity(" 2.5 "), 25_000);
    assert_eq!(parse_quantity("\t1\n"), 10_000);
}

#[test]
fn parse_exponents() {
    assert_eq!(parse_quantity("1e2"), 100 * UNITS_PER_GRAM);
    assert_eq!(parse_quantity("2.5e1"), 250_000);
    assert_eq!(parse_quantity("1e-3"), 10);
    assert_eq!(parse_quantity("1E1"), 100_000);
    assert_eq!(parse_quantity("5e-999999999999999999999"), 0);
}

#[test]
fn parse_garbage_is_zero() {
    assert_eq!(parse_quantity(""), 0);
    assert_eq!(parse_quantity("abc"), 0);
    assert_eq!(parse_quantity("1.2.3"), 0);
    assert_eq!(parse_quantity("nan"), 0);
    assert_eq!(parse_quantity("inf"), 0);
    assert_eq!(parse_quantity("-"), 0);
    assert_eq!(parse_quantity("1e"), 0);
}

#[test]
fn parse_out_of_range_saturates() {
    assert_eq!(parse_quantity("1e999"), QUANTITY_LIMIT - 1);
    assert_eq!(parse_quantity("99999999999999999999999999"), QUANTITY_LIMIT - 1);
    assert_eq!(parse_quantity("-1e999"), 0);
}

#[test]
fn parse_is_always_representable() {
    for s in ["20", "-3", "1e999", "abc", "0.00001", "", "1000000000000"] {
        let v = parse_quantity(s);
        assert!(v < QUANTITY_LIMIT);
    }
}

#[test]
fn sanitize_clamps() {
    assert_eq!(sanitize_quantity(-5), 0);
    assert_eq!(sanitize_quantity(0), 0);
    assert_eq!(sanitize_quantity(123), 123);
    assert_eq!(sanitize_quantity(QUANTITY_LIMIT as i128), QUANTITY_LIMIT - 1);
    assert_eq!(sanitize_quantity(i128::MAX), QUANTITY_LIMIT - 1);
}

#[test]
fn sanitize_is_idempotent_on_samples() {
    for v in [-10i128, 0, 1, 49, 50, 123_456, (QUANTITY_LIMIT as i128) - 1, QUANTITY_LIMIT as i128]
    {
        let once = sanitize_quantity(v);
        let twice = sanitize_quantity(once as i128);
        assert_eq!(once, twice);
    }
}

#[test]
fn totals_basic_recipe() {
    let items = vec![row("20", "5", "2", "1")];
    let (p, f, c) = compute_grand_totals(&items);
    assert_eq!(format_number(p), "20.00");
    assert_eq!(format_number(f), "5.00");
    assert_eq!(format_number(c), "2.00");
    assert_eq!(format_ratio(p, f, c), "2.86");
}

#[test]
fn totals_scale_with_servings() {
    let items = vec![row("10", "0", "0", "2")];
    let (p, f, c) = compute_grand_totals(&items);
    assert_eq!(format_number(p), "20.00");
    assert_eq!(format_number(f), "0.00");
    assert_eq!(format_number(c), "0.00");
    assert_eq!(format_ratio(p, f, c), "\u{2014}");
}

#[test]
fn totals_sum_over_rows() {
    let items = vec![row("10", "1", "2", "1"), row("5", "2", "1", "2")];
    let (p, f, c) = compute_grand_totals(&items);
    assert_eq!(format_number(p), "20.00");
    assert_eq!(format_number(f), "5.00");
    assert_eq!(format_number(c), "4.00");
}

#[test]
fn row_totals_truncate_to_units() {
    let r = row("0.0003", "0", "0", "0.5");
    let (p, _, _) = compute_row_totals(&r);
    assert_eq!(p, 1);
}

#[test]
fn ratio_undefined_exactly_when_no_energy() {
    assert_eq!(format_ratio(0, 0, 0), "\u{2014}");
    assert_eq!(format_ratio(200_000, 0, 0), "\u{2014}");
    assert_ne!(format_ratio(200_000, 1, 0), "\u{2014}");
    assert_eq!(format_ratio(200_000, 50_000, 20_000), "2.86");
}

#[test]
fn format_number_snaps_noise_to_zero() {
    assert_eq!(format_number(0), "0.00");
    assert_eq!(format_number(49), "0.00");
    assert_eq!(format_number(50), "0.01");
    assert_eq!(format_number(12_345), "1.23");
    assert_eq!(format_number(12_350), "1.24");
}

#[test]
fn memo_returns_the_same_totals_as_recomputing() {
    let mut memo = TotalsMemo::new();
    let items = vec![row("20", "5", "2", "1")];
    let first = memo.totals(1, &items);
    let cached = memo.totals(1, &items);
    assert_eq!(first, cached);
    assert_eq!(first, compute_grand_totals(&items));
    let items2 = vec![row("10", "0", "0", "2")];
    let fresh = memo.totals(2, &items2);
    assert_eq!(fresh, compute_grand_totals(&items2));
}
