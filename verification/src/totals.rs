//! The totals engine: per-row and recipe-wide macro sums, display
//! formatting, and the protein-to-energy ratio.
//!
//! A row contributes its per-serving quantity times its serving count,
//! truncated to whole units.  Recipe totals saturate at [`TOTAL_LIMIT`],
//! a bound far beyond any recipe a person could enter, so the sums are
//! total functions with no failure path.

use vstd::prelude::*;
use crate::decimal::{
    digit_chars, digit_to_char, push_decimal, spec_digit_char, spec_digits_of, QUANTITY_LIMIT,
    UNITS_PER_GRAM,
};
use crate::ledger::Ingredient;
use crate::quantity::{parse_quantity, spec_parse_quantity};
use crate::text::chars_to_string;

verus! {

/// Inclusive saturation bound for recipe totals, in units.
pub const TOTAL_LIMIT: u128 = 100_000_000_000_000_000_000_000_000_000_000;

/// What one row adds to a total: per-serving quantity times servings,
/// truncated to whole units.
pub open spec fn spec_row_value(per: Seq<char>, servings: Seq<char>) -> int {
    spec_parse_quantity(per) * spec_parse_quantity(servings) / (UNITS_PER_GRAM as int)
}

/// A row's protein, fat and net-carb contributions, in units.
pub open spec fn spec_row_totals(ing: Ingredient) -> (int, int, int) {
    (
        spec_row_value(ing.protein@, ing.servings@),
        spec_row_value(ing.fat@, ing.servings@),
        spec_row_value(ing.net_carbs@, ing.servings@),
    )
}

/// Addition saturating at [`TOTAL_LIMIT`].
pub open spec fn add_capped(a: int, b: int) -> int {
    if a + b < TOTAL_LIMIT {
        a + b
    } else {
        TOTAL_LIMIT as int
    }
}

/// The recipe totals: element-wise capped sums of the row totals, in
/// ledger order.
pub open spec fn spec_grand_totals(items: Seq<Ingredient>) -> (int, int, int)
    decreases items.len(),
{
    if items.len() == 0 {
        (0, 0, 0)
    } else {
        let rest = spec_grand_totals(items.drop_last());
        let row = spec_row_totals(items.last());
        (add_capped(rest.0, row.0), add_capped(rest.1, row.1), add_capped(rest.2, row.2))
    }
}

/// A row's contribution is non-negative and comfortably below the cap.
pub proof fn lemma_row_value_range(per: Seq<char>, servings: Seq<char>)
    ensures
        0 <= spec_row_value(per, servings) < QUANTITY_LIMIT * QUANTITY_LIMIT,
        spec_row_value(per, servings) < TOTAL_LIMIT,
{
    let p = spec_parse_quantity(per) as int;
    let s = spec_parse_quantity(servings) as int;
    assert(0 <= p < QUANTITY_LIMIT && 0 <= s < QUANTITY_LIMIT);
    assert(0 <= p * s < QUANTITY_LIMIT * QUANTITY_LIMIT) by (nonlinear_arith)
        requires
            0 <= p < QUANTITY_LIMIT,
            0 <= s < QUANTITY_LIMIT,
    ;
    vstd::arithmetic::div_mod::lemma_div_pos_is_pos(p * s, UNITS_PER_GRAM as int);
    vstd::arithmetic::div_mod::lemma_div_is_ordered(
        p * s,
        QUANTITY_LIMIT * QUANTITY_LIMIT,
        UNITS_PER_GRAM as int,
    );
    assert(QUANTITY_LIMIT * QUANTITY_LIMIT / (UNITS_PER_GRAM as int) < TOTAL_LIMIT);
}

/// Grand totals stay within the cap.
pub proof fn lemma_grand_totals_range(items: Seq<Ingredient>)
    ensures
        0 <= spec_grand_totals(items).0 <= TOTAL_LIMIT,
        0 <= spec_grand_totals(items).1 <= TOTAL_LIMIT,
        0 <= spec_grand_totals(items).2 <= TOTAL_LIMIT,
    decreases items.len(),
{
    if items.len() > 0 {
        lemma_grand_totals_range(items.drop_last());
        lemma_row_value_range(items.last().protein@, items.last().servings@);
        lemma_row_value_range(items.last().fat@, items.last().servings@);
        lemma_row_value_range(items.last().net_carbs@, items.last().servings@);
    }
}

/// One row's protein, fat and net-carb contributions, in units.
pub fn compute_row_totals(ing: &Ingredient) -> (r: (u128, u128, u128))
    ensures
        (r.0 as int, r.1 as int, r.2 as int) == spec_row_totals(*ing),
        r.0 < TOTAL_LIMIT && r.1 < TOTAL_LIMIT && r.2 < TOTAL_LIMIT,
{
    let s = parse_quantity(ing.servings.as_str());
    let p = row_product(parse_quantity(ing.protein.as_str()), s);
    let f = row_product(parse_quantity(ing.fat.as_str()), s);
    let c = row_product(parse_quantity(ing.net_carbs.as_str()), s);
    proof {
        lemma_row_value_range(ing.protein@, ing.servings@);
        lemma_row_value_range(ing.fat@, ing.servings@);
        lemma_row_value_range(ing.net_carbs@, ing.servings@);
    }
    (p, f, c)
}

/// Multiply a per-serving quantity by a serving count, in whole units.
fn row_product(per: u64, servings: u64) -> (r: u128)
    requires
        per < QUANTITY_LIMIT,
        servings < QUANTITY_LIMIT,
    ensures
        r as int == (per as int) * (servings as int) / (UNITS_PER_GRAM as int),
{
    proof {
        assert(0 <= (per as int) * (servings as int) < QUANTITY_LIMIT * QUANTITY_LIMIT)
            by (nonlinear_arith)
            requires
                0 <= per < QUANTITY_LIMIT,
                0 <= servings < QUANTITY_LIMIT,
        ;
    }
    (per as u128) * (servings as u128) / (UNITS_PER_GRAM as u128)
}

/// The recipe-wide totals over all rows, in ledger order.
pub fn compute_grand_totals(items: &Vec<Ingredient>) -> (r: (u128, u128, u128))
    ensures
        (r.0 as int, r.1 as int, r.2 as int) == spec_grand_totals(items@),
        r.0 <= TOTAL_LIMIT && r.1 <= TOTAL_LIMIT && r.2 <= TOTAL_LIMIT,
{
    let n = items.len();
    let mut p: u128 = 0;
    let mut f: u128 = 0;
    let mut c: u128 = 0;
    let mut i: usize = 0;
    proof {
        assert(items@.take(0) =~= Seq::<Ingredient>::empty());
    }
    while i < n
        invariant
            n == items@.len(),
            i <= n,
            (p as int, f as int, c as int) == spec_grand_totals(items@.take(i as int)),
            p <= TOTAL_LIMIT && f <= TOTAL_LIMIT && c <= TOTAL_LIMIT,
        decreases n - i,
    {
        let row = compute_row_totals(&items[i]);
        proof {
            assert(items@.take(i + 1).drop_last() =~= items@.take(i as int));
            assert(items@.take(i + 1).last() == items@[i as int]);
        }
        p = if p + row.0 < TOTAL_LIMIT {
            p + row.0
        } else {
            TOTAL_LIMIT
        };
        f = if f + row.1 < TOTAL_LIMIT {
            f + row.1
        } else {
            TOTAL_LIMIT
        };
        c = if c + row.2 < TOTAL_LIMIT {
            c + row.2
        } else {
            TOTAL_LIMIT
        };
        i = i + 1;
    }
    proof {
        assert(items@.take(n as int) =~= items@);
    }
    (p, f, c)
}

/// A centi-unit count rendered with exactly two decimals.
pub open spec fn spec_centi_chars(c: int) -> Seq<char> {
    digit_chars(spec_digits_of((c / 100) as nat)) + seq![
        '.',
        spec_digit_char(((c / 10) % 10) as u8),
        spec_digit_char((c % 10) as u8),
    ]
}

/// A quantity in units, rounded half-up to two decimals.
pub open spec fn spec_format_units_2dp(v: int) -> Seq<char> {
    spec_centi_chars((v + 50) / 100)
}

/// A total formatted for display: sub-`0.005` noise snaps to `"0.00"`,
/// anything else shows two decimals.
pub open spec fn spec_format_number(v: int) -> Seq<char> {
    if v < 50 {
        seq!['0', '.', '0', '0']
    } else {
        spec_format_units_2dp(v)
    }
}

/// Render a centi-unit count with two decimals.
fn centi_chars(c: u128) -> (out: Vec<char>)
    ensures
        out@ == spec_centi_chars(c as int),
{
    let mut out: Vec<char> = Vec::new();
    push_decimal(&mut out, c / 100);
    out.push('.');
    let tens = digit_to_char(((c / 10) % 10) as u8);
    out.push(tens);
    let ones = digit_to_char((c % 10) as u8);
    out.push(ones);
    proof {
        assert(out@ =~= spec_centi_chars(c as int));
    }
    out
}

/// Format a total (in units) for display with two decimals; values below
/// half a hundredth of a gram render as `"0.00"`.
pub fn format_number(v: u128) -> (r: String)
    requires
        v <= TOTAL_LIMIT,
    ensures
        r@ == spec_format_number(v as int),
{
    if v < 50 {
        let mut out: Vec<char> = Vec::new();
        out.push('0');
        out.push('.');
        out.push('0');
        out.push('0');
        proof {
            assert(out@ =~= seq!['0', '.', '0', '0']);
        }
        chars_to_string(&out)
    } else {
        let out = centi_chars((v + 50) / 100);
        chars_to_string(&out)
    }
}

/// The ratio text when the recipe has no energy.
pub open spec fn ratio_undefined_chars() -> Seq<char> {
    seq!['\u{2014}']
}

/// The protein-to-energy ratio, two decimals, or an em-dash when the
/// energy (fat plus net carbs) is zero.
pub open spec fn spec_format_ratio(p: int, f: int, c: int) -> Seq<char> {
    let e = f + c;
    if e <= 0 {
        ratio_undefined_chars()
    } else {
        spec_centi_chars((200 * p + e) / (2 * e))
    }
}

/// Format the protein-to-energy ratio of a totals triple.  Returns the
/// em-dash sentinel exactly when fat plus net carbs is zero.
pub fn format_ratio(p: u128, f: u128, c: u128) -> (r: String)
    requires
        p <= TOTAL_LIMIT,
        f <= TOTAL_LIMIT,
        c <= TOTAL_LIMIT,
    ensures
        r@ == spec_format_ratio(p as int, f as int, c as int),
        (f + c == 0) <==> r@ == ratio_undefined_chars(),
{
    let e = f + c;
    if e == 0 {
        let mut out: Vec<char> = Vec::new();
        out.push('\u{2014}');
        proof {
            assert(out@ =~= ratio_undefined_chars());
        }
        chars_to_string(&out)
    } else {
        let centi = (200 * p + e) / (2 * e);
        let out = centi_chars(centi);
        proof {
            crate::decimal::lemma_spec_digits_of((centi as int / 100) as nat);
            assert(out@.len() >= 4);
            assert(out@ != ratio_undefined_chars());
        }
        chars_to_string(&out)
    }
}


/// A memo for the recipe totals, keyed by a version counter that its
/// owner bumps on every ledger change: the totals recompute only when
/// the version is new, never on unrelated reads.
pub struct TotalsMemo {
    /// The version the cached value was computed for, if any.
    pub version: Option<u64>,
    /// The cached totals.
    pub value: (u128, u128, u128),
    /// The snapshot the cached value belongs to.
    pub snapshot: Ghost<Seq<Ingredient>>,
}

impl TotalsMemo {
    /// The memo's invariant: whatever is cached is the totals of the
    /// snapshot it was computed from.
    pub open spec fn wf(self) -> bool {
        self.version is Some ==> (self.value.0 as int, self.value.1 as int, self.value.2 as int)
            == spec_grand_totals(self.snapshot@) && self.value.0 <= TOTAL_LIMIT && self.value.1
            <= TOTAL_LIMIT && self.value.2 <= TOTAL_LIMIT
    }

    /// The owner's obligation: one version never names two snapshots.
    pub open spec fn keyed_to(self, version: u64, items: Seq<Ingredient>) -> bool {
        self.version == Some(version) ==> self.snapshot@ == items
    }

    /// An empty memo.
    pub fn new() -> (r: TotalsMemo)
        ensures
            r.wf(),
            r.version is None,
    {
        TotalsMemo { version: None, value: (0, 0, 0), snapshot: Ghost(Seq::empty()) }
    }

    /// The totals of the given snapshot, from the cache when the version
    /// matches, recomputed and cached otherwise.
    pub fn totals(&mut self, version: u64, items: &Vec<Ingredient>) -> (r: (u128, u128, u128))
        requires
            old(self).wf(),
            old(self).keyed_to(version, items@),
        ensures
            final(self).wf(),
            final(self).version == Some(version),
            final(self).snapshot@ == items@,
            (r.0 as int, r.1 as int, r.2 as int) == spec_grand_totals(items@),
            r.0 <= TOTAL_LIMIT && r.1 <= TOTAL_LIMIT && r.2 <= TOTAL_LIMIT,
    {
        let hit = match self.version {
            Some(v) => v == version,
            None => false,
        };
        if hit {
            proof {
                assert(self.snapshot@ == items@);
            }
            return self.value;
        }
        let fresh = compute_grand_totals(items);
        self.version = Some(version);
        self.value = fresh;
        self.snapshot = Ghost(items@);
        fresh
    }
}

} // verus!
