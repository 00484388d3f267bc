//! The recipe codec: a ledger snapshot and a recipe name become one
//! URL-safe token, and a token becomes a recipe again.
//!
//! A token is the URL-safe, padding-free base64 form of the recipe's JSON
//! text.  The JSON layer is this crate's own verified logic; only the
//! base64 transport and the UTF-8 validation call outside code, each
//! behind one trusted wrapper.

use vstd::prelude::*;
use base64::Engine;
use crate::decimal::{digit_to_char, push_decimal};
use crate::json::{
    encode_recipe_json, parse_recipe_json, payload_quantity_wf, payload_views, recipe_payload_wf,
    spec_parse_recipe_json, spec_recipe_json, IngredientPayload, IngredientPayloadView,
    RecipePayload, RecipePayloadView,
};
use crate::ledger::Ingredient;
use crate::quantity::{parse_quantity, spec_parse_quantity};
use crate::decimal::{digit_chars, spec_digit_char, spec_digits_of};
use crate::text::{chars_to_string, spec_trimmed, str_to_chars, trimmed_chars};
use crate::totals::{spec_centi_chars, spec_format_units_2dp};

verus! {

/// The token text that the base64 transport produces for given bytes.
/// Uninterpreted: what the codec relies on is that decoding inverts
/// encoding, and that the alphabet is URL-safe.
pub uninterp spec fn base64url_of(bytes: Seq<u8>) -> Seq<char>;

/// A character of the URL-safe base64 alphabet — letter, digit, minus or
/// underscore — which needs no escaping in a URL fragment.
pub open spec fn is_base64url_char(c: char) -> bool {
    let u = c as u32;
    (65 <= u <= 90) || (97 <= u <= 122) || (48 <= u <= 57) || u == 45 || u == 95
}

/// Relies on base64's `URL_SAFE_NO_PAD` engine: encoding is a pure
/// function of the input bytes, over the unpadded URL-safe alphabet
/// (letters, digits, `-` and `_`).
#[verifier::external_body]
fn b64_encode(bytes: &[u8]) -> (r: String)
    ensures
        r@ == base64url_of(bytes@),
        forall|i: int| 0 <= i < r@.len() ==> is_base64url_char(#[trigger] r@[i]),
{
    base64::engine::general_purpose::URL_SAFE_NO_PAD.encode(bytes)
}

/// Relies on base64's `URL_SAFE_NO_PAD` engine: it refuses padding and
/// non-zero trailing bits, so decoding succeeds exactly on canonical
/// encodings and returns the bytes that were encoded.
#[verifier::external_body]
fn b64_decode(token: &str) -> (r: Option<Vec<u8>>)
    ensures
        r matches Some(b) ==> token@ == base64url_of(b@),
        r matches Some(b) ==> forall|bs: Seq<u8>| token@ == base64url_of(bs) ==> b@ == bs,
        r is None ==> forall|bs: Seq<u8>| token@ != base64url_of(bs),
{
    match base64::engine::general_purpose::URL_SAFE_NO_PAD.decode(token.as_bytes()) {
        Ok(v) => Some(v),
        Err(_) => None,
    }
}

/// Relies on `String::from_utf8`: it accepts exactly valid UTF-8 and
/// yields the decoded characters.
#[verifier::external_body]
fn utf8_to_string(bytes: Vec<u8>) -> (r: Option<String>)
    ensures
        r is Some <==> vstd::utf8::valid_utf8(bytes@),
        r matches Some(s) ==> s@ == vstd::utf8::decode_utf8(bytes@),
{
    match String::from_utf8(bytes) {
        Ok(s) => Some(s),
        Err(_) => None,
    }
}

/// The payload record of one ledger row: quantities parsed and sanitized,
/// so a shared link is unambiguous whatever was typed.
pub open spec fn spec_ingredient_payload(ing: Ingredient) -> IngredientPayloadView {
    IngredientPayloadView {
        id: ing.id,
        name: ing.name@,
        protein: spec_parse_quantity(ing.protein@) as int,
        fat: spec_parse_quantity(ing.fat@) as int,
        net_carbs: spec_parse_quantity(ing.net_carbs@) as int,
        servings: spec_parse_quantity(ing.servings@) as int,
    }
}

/// The payload of a whole ledger snapshot: the trimmed name, absent when
/// empty, and one record per row.
pub open spec fn spec_ledger_payload(items: Seq<Ingredient>, name: Seq<char>) -> RecipePayloadView {
    RecipePayloadView {
        name: if spec_trimmed(name).len() == 0 {
            None
        } else {
            Some(spec_trimmed(name))
        },
        ingredients: Seq::new(items.len(), |i: int| spec_ingredient_payload(items[i])),
    }
}

/// A ledger payload is always representable.
pub proof fn lemma_ledger_payload_wf(items: Seq<Ingredient>, name: Seq<char>)
    requires
        forall|i: int| 0 <= i < items.len() ==> (#[trigger] items[i]).id < u64::MAX,
    ensures
        recipe_payload_wf(spec_ledger_payload(items, name)),
{
}

/// The token of a ledger snapshot: base64 over the UTF-8 bytes of the
/// canonical JSON text.
pub open spec fn spec_encode_token(items: Seq<Ingredient>, name: Seq<char>) -> Seq<char> {
    base64url_of(vstd::utf8::encode_utf8(spec_recipe_json(spec_ledger_payload(items, name))))
}

/// Encode a ledger snapshot and recipe name as a URL-safe token: every
/// character needs no escaping in a URL fragment.  Total: every snapshot
/// with mintable ids has a token.
pub fn encode_recipe(items: &Vec<Ingredient>, name: &str) -> (token: String)
    requires
        forall|i: int| 0 <= i < items@.len() ==> (#[trigger] items@[i]).id < u64::MAX,
    ensures
        token@ == spec_encode_token(items@, name@),
        forall|i: int| 0 <= i < token@.len() ==> is_base64url_char(#[trigger] token@[i]),
{
    let name_chars = str_to_chars(name);
    let trimmed = trimmed_chars(&name_chars);
    let payload_name: Option<String> = if trimmed.len() == 0 {
        None
    } else {
        Some(chars_to_string(&trimmed))
    };
    let mut payload_items: Vec<IngredientPayload> = Vec::new();
    let n = items.len();
    let mut i: usize = 0;
    while i < n
        invariant
            n == items@.len(),
            i <= n,
            forall|j: int| 0 <= j < items@.len() ==> (#[trigger] items@[j]).id < u64::MAX,
            payload_items@.len() == i,
            forall|j: int|
                0 <= j < i ==> (#[trigger] payload_items@[j])@ == spec_ingredient_payload(
                    items@[j],
                ),
        decreases n - i,
    {
        let ing = &items[i];
        let row = IngredientPayload {
            id: ing.id,
            name: ing.name.clone(),
            protein: parse_quantity(ing.protein.as_str()) as i64,
            fat: parse_quantity(ing.fat.as_str()) as i64,
            net_carbs: parse_quantity(ing.net_carbs.as_str()) as i64,
            servings: parse_quantity(ing.servings.as_str()) as i64,
        };
        payload_items.push(row);
        i = i + 1;
    }
    let payload = RecipePayload { name: payload_name, ingredients: payload_items };
    proof {
        assert(payload@.ingredients =~= spec_ledger_payload(items@, name@).ingredients);
        assert(payload@ == spec_ledger_payload(items@, name@));
        lemma_ledger_payload_wf(items@, name@);
    }
    let json = encode_recipe_json(&payload);
    let json_s = chars_to_string(&json);
    b64_encode(json_s.as_str().as_bytes())
}

/// What a token's bytes mean: valid UTF-8 whose text is a well-formed
/// recipe payload, or nothing.
pub open spec fn spec_decode_payload_bytes(bytes: Seq<u8>) -> Option<RecipePayloadView> {
    if vstd::utf8::valid_utf8(bytes) {
        spec_parse_recipe_json(vstd::utf8::decode_utf8(bytes))
    } else {
        None
    }
}

/// Decode a token back into a recipe payload.  Total: any failure — bad
/// base64, bad UTF-8, bad payload text — yields `None` and the caller
/// falls back to a default ledger.
pub fn decode_recipe(token: &str) -> (r: Option<RecipePayload>)
    ensures
        r matches Some(p) ==> exists|bs: Seq<u8>|
            token@ == base64url_of(bs) && #[trigger] spec_decode_payload_bytes(bs) == Some(p@),
        forall|bs: Seq<u8>|
            token@ == base64url_of(bs) ==> (match #[trigger] spec_decode_payload_bytes(bs) {
                Some(v) => r matches Some(p) && p@ == v,
                None => r is None,
            }),
{
    let bytes = match b64_decode(token) {
        None => {
            return None;
        },
        Some(b) => b,
    };
    let ghost bytes_view: Seq<u8> = bytes@;
    let text = match utf8_to_string(bytes) {
        None => {
            return None;
        },
        Some(s) => s,
    };
    let chars = str_to_chars(text.as_str());
    let parsed = parse_recipe_json(&chars);
    match parsed {
        None => None,
        Some(p) => {
            proof {
                assert(spec_decode_payload_bytes(bytes_view) == Some(p@));
            }
            Some(p)
        },
    }
}

/// Decoding inverts encoding: the bytes of an encoded snapshot always
/// decode to exactly the snapshot's payload — numeric content as the
/// sanitized parse of each field, and the trimmed name kept exactly when
/// non-empty.  Together with the codec contracts this pins the exec round
/// trip: `decode_recipe` on an `encode_recipe` token returns this payload.
pub proof fn lemma_token_round_trip(items: Seq<Ingredient>, name: Seq<char>)
    requires
        forall|i: int| 0 <= i < items.len() ==> (#[trigger] items[i]).id < u64::MAX,
    ensures
        spec_decode_payload_bytes(
            vstd::utf8::encode_utf8(spec_recipe_json(spec_ledger_payload(items, name))),
        ) == Some(spec_ledger_payload(items, name)),
{
    let payload = spec_ledger_payload(items, name);
    let json = spec_recipe_json(payload);
    lemma_ledger_payload_wf(items, name);
    crate::json::lemma_recipe_json_round_trip(payload);
    vstd::utf8::encode_utf8_valid_utf8(json);
    vstd::utf8::encode_utf8_decode_utf8(json);
}

/// The display text of a decoded quantity: zero-like values come back as
/// an empty editable field, anything else as a signed two-decimal number.
pub open spec fn spec_format_input(v: int) -> Seq<char> {
    if -50 < v < 50 {
        Seq::empty()
    } else if v < 0 {
        seq!['-'] + spec_format_units_2dp(-v)
    } else {
        spec_format_units_2dp(v)
    }
}

/// Render a decoded quantity for an editable field.
pub fn format_input_value(v: i64) -> (r: String)
    requires
        payload_quantity_wf(v as int),
    ensures
        r@ == spec_format_input(v as int),
{
    if -50 < v && v < 50 {
        let out: Vec<char> = Vec::new();
        proof {
            assert(out@ =~= spec_format_input(v as int));
        }
        chars_to_string(&out)
    } else if v < 0 {
        let mut out: Vec<char> = Vec::new();
        out.push('-');
        let mag = (-v) as u128;
        let centi = (mag + 50) / 100;
        push_decimal(&mut out, centi / 100);
        out.push('.');
        let tens = digit_to_char(((centi / 10) % 10) as u8);
        out.push(tens);
        let ones = digit_to_char((centi % 10) as u8);
        out.push(ones);
        proof {
            assert(out@ =~= seq!['-'] + spec_centi_chars(centi as int));
            assert(centi as int == ((-(v as int)) + 50) / 100);
        }
        chars_to_string(&out)
    } else {
        let mag = v as u128;
        let centi = (mag + 50) / 100;
        let mut out: Vec<char> = Vec::new();
        push_decimal(&mut out, centi / 100);
        out.push('.');
        let tens = digit_to_char(((centi / 10) % 10) as u8);
        out.push(tens);
        let ones = digit_to_char((centi % 10) as u8);
        out.push(ones);
        proof {
            assert(out@ =~= spec_centi_chars(centi as int));
            assert(centi as int == ((v as int) + 50) / 100);
        }
        chars_to_string(&out)
    }
}

/// What one rendered digit contributes: rendered digits are never
/// whitespace, signs, points or exponent marks.
proof fn lemma_digit_char_class(d: u8)
    requires
        d <= 9,
    ensures
        crate::decimal::is_digit_char(crate::decimal::spec_digit_char(d)),
        !crate::text::is_space_char(crate::decimal::spec_digit_char(d)),
        crate::decimal::spec_digit_char(d) != '-',
        crate::decimal::spec_digit_char(d) != '+',
        crate::decimal::spec_digit_char(d) != '.',
        crate::decimal::spec_digit_char(d) != 'e',
        crate::decimal::spec_digit_char(d) != 'E',
{
}

/// Reparsing a rendered quantity loses at most half a hundredth of a
/// gram: for every representable quantity, the editable text that
/// [`format_input_value`] produces parses back to within 50 units
/// (0.005 g) of the value — zero-like values render empty and reparse to
/// zero, everything else reparses to its own two-decimal rounding,
/// saturated at the representable cap.
#[verifier::rlimit(100)]
#[verifier::spinoff_prover]
pub proof fn lemma_display_reparse_bound(v: int)
    requires
        0 <= v < crate::decimal::QUANTITY_LIMIT,
    ensures
        -50 <= spec_parse_quantity(spec_format_input(v)) - v <= 50,
{
    let text = spec_format_input(v);
    if v < 50 {
        assert(text =~= Seq::<char>::empty());
        crate::text::lemma_trimmed_identity(text);
        assert(crate::text::spec_trimmed(text).len() == 0);
        assert(crate::quantity::spec_scan_number(crate::text::spec_trimmed(text)) is None);
        assert(spec_parse_quantity(text) == 0);
    } else {
        let c = (v + 50) / 100;
        vstd::arithmetic::div_mod::lemma_fundamental_div_mod(v + 50, 100);
        assert(c >= 1);
        let whole = (c / 100) as nat;
        let d1 = ((c / 10) % 10) as u8;
        let d2 = (c % 10) as u8;
        let wd = spec_digits_of(whole);
        let w = digit_chars(wd);
        crate::decimal::lemma_spec_digits_of(whole);
        assert(text == spec_centi_chars(c));
        assert(text == w + seq!['.', spec_digit_char(d1), spec_digit_char(d2)]);
        let n = text.len() as int;
        assert(n == w.len() + 3);
        // character classes along the text
        assert forall|i: int| 0 <= i < w.len() implies crate::decimal::is_digit_char(
            #[trigger] text[i],
        ) && !crate::text::is_space_char(text[i]) by {
            assert(text[i] == w[i]);
            assert(w[i] == spec_digit_char(wd[i]));
            lemma_digit_char_class(wd[i]);
        }
        assert(text[w.len() as int] == '.');
        assert(text[w.len() as int + 1] == spec_digit_char(d1));
        assert(text[w.len() as int + 2] == spec_digit_char(d2));
        lemma_digit_char_class(d1);
        lemma_digit_char_class(d2);
        assert forall|i: int| 0 <= i < n implies !crate::text::is_space_char(
            #[trigger] text[i],
        ) by {
            if i == w.len() {
                assert(text[i] == '.');
                assert(('.' as u32) == 46);
            } else if i > w.len() {
                assert(i == w.len() + 1 || i == w.len() + 2);
            }
        }
        crate::text::lemma_trimmed_identity(text);
        // the scan: no sign, whole digits, point, two fraction digits
        assert(crate::decimal::is_digit_char(text[0]));
        assert(text[0] != '-' && text[0] != '+') by {
            lemma_digit_char_class(wd[0]);
        }
        assert(crate::quantity::sign_at(text, 0) == (false, 0int));
        assert(!crate::decimal::is_digit_char('.')) by {
            assert(('.' as u32) == 46);
        }
        crate::json::lemma_digit_run_exact(text, 0, w.len() as int);
        let fs = w.len() + 1;
        crate::json::lemma_digit_run_exact(text, fs as int, n);
        // the scanned mantissa is the centi count's digits
        let int_vals = crate::text::digit_vals(text, 0, w.len() as int);
        let frac_vals = crate::text::digit_vals(text, fs as int, n);
        assert(int_vals =~= wd) by {
            assert forall|m: int| 0 <= m < wd.len() implies #[trigger] int_vals[m] == wd[m] by {
                assert(text[m] == spec_digit_char(wd[m]));
                assert(wd[m] <= 9);
            }
        }
        assert(frac_vals =~= seq![d1, d2]) by {
            assert(frac_vals.len() == 2);
            assert(frac_vals[0] == crate::decimal::spec_char_digit(text[fs as int]));
            assert(frac_vals[1] == crate::decimal::spec_char_digit(text[fs as int + 1]));
        }
        let mantissa = int_vals + frac_vals;
        assert(crate::quantity::spec_scan_number(text) == Some((false, mantissa, 2int)));
        // its value is the centi count itself
        crate::decimal::lemma_digits_value_concat(wd, seq![d1, d2]);
        assert(crate::decimal::digits_value(seq![d1, d2]) == d1 * 10 + d2) by {
            crate::decimal::lemma_digits_value_push(seq![d1], d2);
            assert(seq![d1].push(d2) =~= seq![d1, d2]);
            assert(seq![d1].drop_last() =~= Seq::<u8>::empty());
            assert(crate::decimal::digits_value(Seq::<u8>::empty()) == 0);
            assert(crate::decimal::digits_value(seq![d1]) == crate::decimal::digits_value(
                seq![d1].drop_last(),
            ) * 10 + d1);
            assert(crate::decimal::digits_value(seq![d1]) == d1);
        }
        assert(crate::decimal::pow10(2) == 100) by {
            reveal_with_fuel(crate::decimal::pow10, 3);
        }
        assert((c / 10) / 10 == c / 100) by {
            vstd::arithmetic::div_mod::lemma_div_denominator(c, 10, 10);
        }
        vstd::arithmetic::div_mod::lemma_fundamental_div_mod(c, 10);
        vstd::arithmetic::div_mod::lemma_fundamental_div_mod(c / 10, 10);
        assert(crate::decimal::digits_value(mantissa) == c);
        assert(crate::decimal::scaled_value(mantissa, 2) == c * 100);
        assert(spec_parse_quantity(text) == crate::decimal::spec_sanitize(c * 100));
        // the rounding moved the value by at most half a hundredth
        assert(v - 49 <= c * 100 <= v + 50);
        if c * 100 >= crate::decimal::QUANTITY_LIMIT {
            assert(v >= crate::decimal::QUANTITY_LIMIT - 50);
        }
    }
}

/// The ledger row that a decoded payload record becomes: numeric fields
/// rendered back to editable text.
pub open spec fn spec_row_of_payload(p: IngredientPayloadView, row: Ingredient) -> bool {
    &&& row.id == p.id
    &&& row.name@ == p.name
    &&& row.protein@ == spec_format_input(p.protein)
    &&& row.fat@ == spec_format_input(p.fat)
    &&& row.net_carbs@ == spec_format_input(p.net_carbs)
    &&& row.servings@ == spec_format_input(p.servings)
}

/// Turn a decoded payload into ledger rows and a recipe name.  An empty
/// ingredient list yields one fresh empty row under id 0; an absent name
/// yields the empty name.
pub fn payload_to_rows(p: RecipePayload) -> (r: (Vec<Ingredient>, String))
    requires
        recipe_payload_wf(p@),
    ensures
        r.0@.len() >= 1,
        p@.ingredients.len() == 0 ==> r.0@.len() == 1 && crate::ledger::is_fresh_row(r.0@[0], 0),
        p@.ingredients.len() > 0 ==> r.0@.len() == p@.ingredients.len() && (forall|i: int|
            0 <= i < p@.ingredients.len() ==> spec_row_of_payload(
                p@.ingredients[i],
                #[trigger] r.0@[i],
            )),
        r.1@ == (match p@.name {
            Some(n) => n,
            None => Seq::<char>::empty(),
        }),
{
    let RecipePayload { name, ingredients } = p;
    let mut rows: Vec<Ingredient> = Vec::new();
    let n = ingredients.len();
    let mut i: usize = 0;
    while i < n
        invariant
            n == ingredients@.len(),
            i <= n,
            recipe_payload_wf(
                RecipePayloadView {
                    name: None,
                    ingredients: payload_views(ingredients@),
                },
            ),
            rows@.len() == i,
            forall|j: int|
                0 <= j < i ==> spec_row_of_payload(ingredients@[j]@, #[trigger] rows@[j]),
        decreases n - i,
    {
        let src = &ingredients[i];
        proof {
            let pv = RecipePayloadView { name: None, ingredients: payload_views(ingredients@) };
            assert(recipe_payload_wf(pv));
            assert(pv.ingredients[i as int] == ingredients@[i as int]@);
            assert(crate::json::ingredient_payload_wf(pv.ingredients[i as int]));
        }
        let row = Ingredient {
            id: src.id,
            name: src.name.clone(),
            protein: format_input_value(src.protein),
            fat: format_input_value(src.fat),
            net_carbs: format_input_value(src.net_carbs),
            servings: format_input_value(src.servings),
        };
        rows.push(row);
        i = i + 1;
    }
    if rows.len() == 0 {
        rows.push(Ingredient::empty(0));
    }
    let out_name = match name {
        Some(s) => s,
        None => chars_to_string(&Vec::new()),
    };
    (rows, out_name)
}

} // verus!
