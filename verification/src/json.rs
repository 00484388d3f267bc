//! The recipe payload and its JSON text form.
//!
//! A shared recipe travels as `{"name":…,"ingredients":[…]}` — the name
//! omitted when empty — with each ingredient an object of `id`, `name`,
//! `protein`, `fat`, `net_carbs` and `servings`.  The writer emits the
//! compact canonical form; the reader accepts the grammar: any member
//! order, JSON whitespace, string escapes, and numbers with fraction and
//! exponent.  Anything else — unknown or repeated members, missing
//! members, malformed text, numbers beyond the representable range —
//! fails, and the caller falls back to a default ledger.

use vstd::prelude::*;
use crate::decimal::{
    all_digits, digit_chars, digits_value, digits_value_saturated, is_digit_char,
    lemma_scaled_big, lemma_scaled_deep_neg, pow10, push_decimal, scaled_value, spec_char_digit,
    spec_digit_char, spec_digits_of, units_from_parts, QUANTITY_LIMIT,
};
use crate::quantity::{sign_at, EXPONENT_CAP};
use crate::text::{digit_run_end, digit_vals, scan_digit_run};

verus! {

/// One ingredient as it travels in a token: quantities already parsed and
/// sanitized into fixed-point units.  A foreign token may carry negative
/// values; they are kept, shown as negative text, and sanitize to zero in
/// every total.
pub struct IngredientPayload {
    pub id: u64,
    pub name: String,
    pub protein: i64,
    pub fat: i64,
    pub net_carbs: i64,
    pub servings: i64,
}

/// A whole recipe as it travels in a token.
pub struct RecipePayload {
    pub name: Option<String>,
    pub ingredients: Vec<IngredientPayload>,
}

/// The mathematical shape of an ingredient payload.
pub ghost struct IngredientPayloadView {
    pub id: u64,
    pub name: Seq<char>,
    pub protein: int,
    pub fat: int,
    pub net_carbs: int,
    pub servings: int,
}

/// The mathematical shape of a recipe payload.
pub ghost struct RecipePayloadView {
    pub name: Option<Seq<char>>,
    pub ingredients: Seq<IngredientPayloadView>,
}

impl View for IngredientPayload {
    type V = IngredientPayloadView;

    open spec fn view(&self) -> IngredientPayloadView {
        IngredientPayloadView {
            id: self.id,
            name: self.name@,
            protein: self.protein as int,
            fat: self.fat as int,
            net_carbs: self.net_carbs as int,
            servings: self.servings as int,
        }
    }
}

/// The views of a run of ingredient payloads.
pub open spec fn payload_views(s: Seq<IngredientPayload>) -> Seq<IngredientPayloadView> {
    Seq::new(s.len(), |i: int| s[i]@)
}

impl View for RecipePayload {
    type V = RecipePayloadView;

    open spec fn view(&self) -> RecipePayloadView {
        RecipePayloadView {
            name: match self.name {
                Some(n) => Some(n@),
                None => None,
            },
            ingredients: payload_views(self.ingredients@),
        }
    }
}

/// A payload quantity that the codec can carry.
pub open spec fn payload_quantity_wf(q: int) -> bool {
    -(QUANTITY_LIMIT as int) < q < QUANTITY_LIMIT
}

/// An ingredient payload the codec can carry: quantities in range and an
/// id below the counter ceiling, so a decoded ledger can still mint ids.
pub open spec fn ingredient_payload_wf(p: IngredientPayloadView) -> bool {
    &&& p.id < u64::MAX
    &&& payload_quantity_wf(p.protein)
    &&& payload_quantity_wf(p.fat)
    &&& payload_quantity_wf(p.net_carbs)
    &&& payload_quantity_wf(p.servings)
}

/// A recipe payload the codec can carry.
pub open spec fn recipe_payload_wf(p: RecipePayloadView) -> bool {
    forall|i: int| 0 <= i < p.ingredients.len() ==> ingredient_payload_wf(#[trigger] p.ingredients[i])
}

/// JSON whitespace (the only characters the reader skips).
pub open spec fn is_json_ws(c: char) -> bool {
    c == ' ' || c == '\t' || c == '\n' || c == '\r'
}

/// Index of the first character at or after `i` that is not JSON
/// whitespace.
pub open spec fn ws_end(s: Seq<char>, i: int) -> int
    decreases s.len() - i,
    when 0 <= i <= s.len()
{
    if i < s.len() && is_json_ws(s[i]) {
        ws_end(s, i + 1)
    } else {
        i
    }
}

pub proof fn lemma_ws_end_bounds(s: Seq<char>, i: int)
    requires
        0 <= i <= s.len(),
    ensures
        i <= ws_end(s, i) <= s.len(),
        ws_end(s, i) < s.len() ==> !is_json_ws(s[ws_end(s, i)]),
    decreases s.len() - i,
{
    if i < s.len() && is_json_ws(s[i]) {
        lemma_ws_end_bounds(s, i + 1);
    }
}

/// Advance past JSON whitespace.
pub fn skip_ws(t: &Vec<char>, i: usize) -> (r: usize)
    requires
        i <= t@.len(),
    ensures
        r == ws_end(t@, i as int),
        i <= r <= t@.len(),
{
    proof {
        lemma_ws_end_bounds(t@, i as int);
    }
    let mut j: usize = i;
    loop
        invariant
            i <= j <= t@.len(),
            ws_end(t@, i as int) == ws_end(t@, j as int),
        ensures
            j == ws_end(t@, i as int),
        decreases t@.len() - j,
    {
        if j == t.len() {
            break;
        }
        let c = t[j];
        if c == ' ' || c == '\t' || c == '\n' || c == '\r' {
            j = j + 1;
        } else {
            break;
        }
    }
    j
}

/// The value of a hexadecimal digit character, either case.
pub open spec fn spec_hex_val(c: char) -> Option<u8> {
    let u = c as u32;
    if 48 <= u <= 57 {
        Some((u - 48) as u8)
    } else if 97 <= u <= 102 {
        Some((u - 87) as u8)
    } else if 65 <= u <= 70 {
        Some((u - 55) as u8)
    } else {
        None
    }
}

/// Read one hexadecimal digit.
pub fn hex_val(c: char) -> (r: Option<u8>)
    ensures
        r == spec_hex_val(c),
{
    let u = c as u32;
    if 48 <= u && u <= 57 {
        Some((u - 48) as u8)
    } else if 97 <= u && u <= 102 {
        Some((u - 87) as u8)
    } else if 65 <= u && u <= 70 {
        Some((u - 55) as u8)
    } else {
        None
    }
}

/// The code named by four hexadecimal digits at `i`, if they are there.
pub open spec fn spec_hex4(s: Seq<char>, i: int) -> Option<u32> {
    if 0 <= i && i + 4 <= s.len() && spec_hex_val(s[i]) is Some && spec_hex_val(s[i + 1]) is Some
        && spec_hex_val(s[i + 2]) is Some && spec_hex_val(s[i + 3]) is Some {
        Some(
            ((spec_hex_val(s[i]).unwrap() as int) * 0x1000 + (spec_hex_val(s[i + 1]).unwrap()
                as int) * 0x100 + (spec_hex_val(s[i + 2]).unwrap() as int) * 0x10 + (spec_hex_val(
                s[i + 3],
            ).unwrap() as int)) as u32,
        )
    } else {
        None
    }
}

/// Read four hexadecimal digits at `i`.
pub fn hex4(t: &Vec<char>, i: usize) -> (r: Option<u32>)
    requires
        i <= t@.len(),
    ensures
        r == spec_hex4(t@, i as int),
        r is Some ==> r.unwrap() < 0x10000,
{
    if t.len() - i < 4 {
        return None;
    }
    let h0 = hex_val(t[i]);
    let h1 = hex_val(t[i + 1]);
    let h2 = hex_val(t[i + 2]);
    let h3 = hex_val(t[i + 3]);
    match (h0, h1, h2, h3) {
        (Some(a), Some(b), Some(c), Some(d)) => Some(
            (a as u32) * 0x1000 + (b as u32) * 0x100 + (c as u32) * 0x10 + (d as u32),
        ),
        _ => None,
    }
}

/// The character of a hexadecimal digit value, lowercase.
pub open spec fn spec_hex_char(d: u8) -> char {
    if d < 10 {
        ((d + 48) as u32) as char
    } else {
        ((d + 87) as u32) as char
    }
}

/// A hexadecimal digit character reads back as its value.
pub proof fn lemma_hex_char_val(d: u8)
    requires
        d < 16,
    ensures
        spec_hex_val(spec_hex_char(d)) == Some(d),
{
}

/// How one character is written inside a JSON string: quotes and
/// backslashes are escaped, control characters become `\u00XX`, anything
/// else stands as itself.
pub open spec fn esc_char(c: char) -> Seq<char> {
    if c == '"' {
        seq!['\\', '"']
    } else if c == '\\' {
        seq!['\\', '\\']
    } else if (c as u32) < 0x20 {
        seq![
            '\\',
            'u',
            '0',
            '0',
            spec_hex_char(((c as u32) / 16) as u8),
            spec_hex_char(((c as u32) % 16) as u8),
        ]
    } else {
        seq![c]
    }
}

/// A text escaped for a JSON string, character by character.
pub open spec fn spec_escape(s: Seq<char>) -> Seq<char>
    decreases s.len(),
{
    if s.len() == 0 {
        Seq::empty()
    } else {
        esc_char(s[0]) + spec_escape(s.skip(1))
    }
}

/// A JSON string: the escaped text between quotes.
pub open spec fn spec_quoted(s: Seq<char>) -> Seq<char> {
    seq!['"'] + spec_escape(s) + seq!['"']
}

/// Escaping distributes over concatenation.
pub proof fn lemma_escape_distributes(a: Seq<char>, b: Seq<char>)
    ensures
        spec_escape(a + b) == spec_escape(a) + spec_escape(b),
    decreases a.len(),
{
    if a.len() == 0 {
        assert(a + b =~= b);
        assert(spec_escape(a) + spec_escape(b) =~= spec_escape(b));
    } else {
        assert((a + b).skip(1) =~= a.skip(1) + b);
        lemma_escape_distributes(a.skip(1), b);
        assert((a + b)[0] == a[0]);
        assert(esc_char(a[0]) + (spec_escape(a.skip(1)) + spec_escape(b)) =~= (esc_char(a[0])
            + spec_escape(a.skip(1))) + spec_escape(b));
    }
}

/// Append the escaped form of a text.
pub fn push_escaped(out: &mut Vec<char>, s: &str)
    ensures
        final(out)@ == old(out)@ + spec_escape(s@),
{
    let cs = crate::text::str_to_chars(s);
    let n = cs.len();
    let mut i: usize = 0;
    proof {
        assert(cs@.take(0) =~= Seq::<char>::empty());
        assert(out@ + spec_escape(cs@.take(0)) =~= out@);
    }
    while i < n
        invariant
            n == cs@.len(),
            cs@ == s@,
            i <= n,
            out@ == old(out)@ + spec_escape(cs@.take(i as int)),
        decreases n - i,
    {
        let c = cs[i];
        let u = c as u32;
        if c == '"' {
            out.push('\\');
            out.push('"');
        } else if c == '\\' {
            out.push('\\');
            out.push('\\');
        } else if u < 0x20 {
            out.push('\\');
            out.push('u');
            out.push('0');
            out.push('0');
            let hi = if u / 16 < 10 {
                crate::decimal::digit_to_char((u / 16) as u8)
            } else {
                hex_letter((u / 16) as u8)
            };
            out.push(hi);
            let lo = if u % 16 < 10 {
                crate::decimal::digit_to_char((u % 16) as u8)
            } else {
                hex_letter((u % 16) as u8)
            };
            out.push(lo);
            proof {
                assert(hi == spec_hex_char(((c as u32) / 16) as u8));
                assert(lo == spec_hex_char(((c as u32) % 16) as u8));
            }
        } else {
            out.push(c);
        }
        proof {
            assert(cs@.take(i + 1) =~= cs@.take(i as int) + seq![cs@[i as int]]);
            lemma_escape_distributes(cs@.take(i as int), seq![cs@[i as int]]);
            assert(seq![cs@[i as int]].skip(1) =~= Seq::<char>::empty());
            assert(spec_escape(Seq::<char>::empty()) =~= Seq::<char>::empty());
            assert(spec_escape(seq![cs@[i as int]]) == esc_char(cs@[i as int]) + spec_escape(
                seq![cs@[i as int]].skip(1),
            ));
            assert(spec_escape(seq![cs@[i as int]]) =~= esc_char(cs@[i as int]));
            assert(out@ =~= old(out)@ + spec_escape(cs@.take(i + 1)));
        }
        i = i + 1;
    }
    proof {
        assert(cs@.take(n as int) =~= cs@);
    }
}

/// The lowercase letter of a hexadecimal digit value above nine.
fn hex_letter(d: u8) -> (c: char)
    requires
        10 <= d < 16,
    ensures
        c == spec_hex_char(d),
{
    let c = match d {
        10 => 'a',
        11 => 'b',
        12 => 'c',
        13 => 'd',
        14 => 'e',
        _ => 'f',
    };
    proof {
        vstd::utf8::char_u32_cast(c, (d + 87) as u32);
    }
    c
}

/// Prepend a decoded character to a string-body result.
pub open spec fn cons_char(c: char, r: Option<(Seq<char>, int)>) -> Option<(Seq<char>, int)> {
    match r {
        Some((tail, end)) => Some((seq![c] + tail, end)),
        None => None,
    }
}

/// The scalar value named by a surrogate pair.
pub open spec fn scalar_of(hi: u32, lo: u32) -> u32 {
    (0x10000 + (hi - 0xD800) * 0x400 + (lo - 0xDC00)) as u32
}

/// Read a JSON string body starting just after the opening quote:
/// the decoded characters and the index after the closing quote.
/// Unterminated strings, bad escapes, lone surrogates and raw control
/// characters all fail.
pub open spec fn string_body(s: Seq<char>, i: int) -> Option<(Seq<char>, int)>
    decreases s.len() - i,
    when 0 <= i <= s.len()
{
    if i == s.len() {
        None
    } else if s[i] == '"' {
        Some((Seq::empty(), i + 1))
    } else if s[i] == '\\' {
        if i + 1 == s.len() {
            None
        } else {
            let e = s[i + 1];
            if e == '"' {
                cons_char('"', string_body(s, i + 2))
            } else if e == '\\' {
                cons_char('\\', string_body(s, i + 2))
            } else if e == '/' {
                cons_char('/', string_body(s, i + 2))
            } else if e == 'b' {
                cons_char('\u{8}', string_body(s, i + 2))
            } else if e == 'f' {
                cons_char('\u{c}', string_body(s, i + 2))
            } else if e == 'n' {
                cons_char('\n', string_body(s, i + 2))
            } else if e == 'r' {
                cons_char('\r', string_body(s, i + 2))
            } else if e == 't' {
                cons_char('\t', string_body(s, i + 2))
            } else if e == 'u' {
                match spec_hex4(s, i + 2) {
                    None => None,
                    Some(code) => {
                        if 0xD800 <= code < 0xDC00 {
                            if i + 8 <= s.len() && s[i + 6] == '\\' && s[i + 7] == 'u' {
                                match spec_hex4(s, i + 8) {
                                    None => None,
                                    Some(lo) => {
                                        if 0xDC00 <= lo < 0xE000 {
                                            cons_char(
                                                scalar_of(code, lo) as char,
                                                string_body(s, i + 12),
                                            )
                                        } else {
                                            None
                                        }
                                    },
                                }
                            } else {
                                None
                            }
                        } else if 0xDC00 <= code < 0xE000 {
                            None
                        } else {
                            cons_char(code as char, string_body(s, i + 6))
                        }
                    },
                }
            } else {
                None
            }
        }
    } else if (s[i] as u32) < 0x20 {
        None
    } else {
        cons_char(s[i], string_body(s, i + 1))
    }
}

/// A JSON string at `i`: the decoded text and the index after it.
pub open spec fn spec_parse_string(s: Seq<char>, i: int) -> Option<(Seq<char>, int)> {
    if 0 <= i < s.len() && s[i] == '"' {
        string_body(s, i + 1)
    } else {
        None
    }
}

/// Relies on `char::from_u32`: it returns the character with the given
/// code exactly when the code is a Unicode scalar value (not a surrogate
/// and at most 0x10FFFF), and nothing otherwise.
#[verifier::external_body]
fn char_from_u32(u: u32) -> (r: Option<char>)
    ensures
        r matches Some(c) ==> c as u32 == u,
        (r is Some) <==> (u < 0xD800 || (0xE000 <= u && u <= 0x10FFFF)),
{
    char::from_u32(u)
}

/// Prepend already-decoded characters to a string-body result.
pub open spec fn cons_seq(pre: Seq<char>, r: Option<(Seq<char>, int)>) -> Option<(Seq<char>, int)> {
    match r {
        Some((tail, end)) => Some((pre + tail, end)),
        None => None,
    }
}

proof fn lemma_cons_shift(pre: Seq<char>, c: char, r: Option<(Seq<char>, int)>)
    ensures
        cons_seq(pre, cons_char(c, r)) == cons_seq(pre.push(c), r),
{
    match r {
        Some((tail, end)) => {
            assert(pre + (seq![c] + tail) =~= pre.push(c) + tail);
        },
        None => {},
    }
}

/// Read a JSON string at `i`: the decoded text and the index after the
/// closing quote.
pub fn parse_json_string(t: &Vec<char>, i: usize) -> (r: Option<(Vec<char>, usize)>)
    requires
        i <= t@.len(),
    ensures
        ({
            let s = spec_parse_string(t@, i as int);
            match r {
                None => s is None,
                Some(p) => s == Some((p.0@, p.1 as int)),
            }
        }),
{
    if i == t.len() {
        return None;
    }
    if t[i] != '"' {
        return None;
    }
    let ghost start: int = i as int + 1;
    let mut acc: Vec<char> = Vec::new();
    let mut j: usize = i + 1;
    proof {
        assert(cons_seq(acc@, string_body(t@, start)) == string_body(t@, start)) by {
            match string_body(t@, start) {
                Some((tail, end)) => {
                    assert(acc@ + tail =~= tail);
                },
                None => {},
            }
        }
    }
    loop
        invariant
            start <= j <= t@.len(),
            0 <= start <= t@.len(),
            start == i + 1,
            i < t@.len() && t@[i as int] == '"',
            string_body(t@, start) == cons_seq(acc@, string_body(t@, j as int)),
        decreases t@.len() - j,
    {
        if j == t.len() {
            return None;
        }
        let c = t[j];
        if c == '"' {
            let ghost tail_r = string_body(t@, j as int);
            proof {
                assert(tail_r == Some((Seq::<char>::empty(), j + 1)));
                assert(acc@ + Seq::<char>::empty() =~= acc@);
            }
            return Some((acc, j + 1));
        }
        if c == '\\' {
            if j + 1 == t.len() {
                return None;
            }
            let e = t[j + 1];
            if e == '"' || e == '\\' || e == '/' || e == 'b' || e == 'f' || e == 'n' || e == 'r'
                || e == 't' {
                let decoded = if e == '"' {
                    '"'
                } else if e == '\\' {
                    '\\'
                } else if e == '/' {
                    '/'
                } else if e == 'b' {
                    '\u{8}'
                } else if e == 'f' {
                    '\u{c}'
                } else if e == 'n' {
                    '\n'
                } else if e == 'r' {
                    '\r'
                } else {
                    '\t'
                };
                proof {
                    assert(string_body(t@, j as int) == cons_char(
                        decoded,
                        string_body(t@, j + 2),
                    ));
                    lemma_cons_shift(acc@, decoded, string_body(t@, j + 2));
                }
                acc.push(decoded);
                j = j + 2;
            } else if e == 'u' {
                let code_opt = hex4(t, j + 2);
                let code = match code_opt {
                    None => {
                        return None;
                    },
                    Some(code) => code,
                };
                if 0xD800 <= code && code < 0xDC00 {
                    if !(t.len() - j >= 8 && t[j + 6] == '\\' && t[j + 7] == 'u') {
                        return None;
                    }
                    let lo_opt = hex4(t, j + 8);
                    let lo = match lo_opt {
                        None => {
                            return None;
                        },
                        Some(lo) => lo,
                    };
                    if !(0xDC00 <= lo && lo < 0xE000) {
                        return None;
                    }
                    let scalar = 0x10000 + (code - 0xD800) * 0x400 + (lo - 0xDC00);
                    let decoded = match char_from_u32(scalar) {
                        Some(d) => d,
                        None => {
                            proof {
                                assert(false);
                            }
                            return None;
                        },
                    };
                    proof {
                        vstd::utf8::char_u32_cast(decoded, scalar);
                        assert(decoded == scalar_of(code, lo) as char);
                        assert(string_body(t@, j as int) == cons_char(
                            decoded,
                            string_body(t@, j + 12),
                        ));
                        lemma_cons_shift(acc@, decoded, string_body(t@, j + 12));
                    }
                    acc.push(decoded);
                    j = j + 12;
                } else if 0xDC00 <= code && code < 0xE000 {
                    return None;
                } else {
                    let decoded = match char_from_u32(code) {
                        Some(d) => d,
                        None => {
                            proof {
                                assert(false);
                            }
                            return None;
                        },
                    };
                    proof {
                        vstd::utf8::char_u32_cast(decoded, code);
                        assert(decoded == code as char);
                        assert(string_body(t@, j as int) == cons_char(
                            decoded,
                            string_body(t@, j + 6),
                        ));
                        lemma_cons_shift(acc@, decoded, string_body(t@, j + 6));
                    }
                    acc.push(decoded);
                    j = j + 6;
                }
            } else {
                return None;
            }
        } else {
            let u = c as u32;
            if u < 0x20 {
                return None;
            }
            proof {
                assert(string_body(t@, j as int) == cons_char(c, string_body(t@, j + 1)));
                lemma_cons_shift(acc@, c, string_body(t@, j + 1));
            }
            acc.push(c);
            j = j + 1;
        }
    }
}

/// A scanned number reduced to a signed whole-unit value; magnitudes at
/// or beyond the representable bound are rejected.
pub open spec fn spec_signed_units(neg: bool, m: Seq<u8>, k: int) -> Option<int> {
    let mag = scaled_value(m, k);
    if mag >= QUANTITY_LIMIT {
        None
    } else {
        Some(if neg { -mag } else { mag })
    }
}

/// Close out a scanned number: scale the mantissa, reject magnitudes at
/// or beyond the representable bound, and apply the sign.
pub open spec fn finish_number(neg: bool, m: Seq<u8>, k: int, end: int) -> Option<(int, int)> {
    match spec_signed_units(neg, m, k) {
        Some(v) => Some((v, end)),
        None => None,
    }
}

/// Reduce a scanned mantissa, fraction length and exponent to a signed
/// whole-unit value.
fn eval_number(
    neg: bool,
    mantissa: &Vec<u8>,
    frac_len: usize,
    has_exp: bool,
    eneg: bool,
    exp_digits: &Vec<u8>,
) -> (r: Option<i64>)
    requires
        all_digits(mantissa@),
        all_digits(exp_digits@),
    ensures
        ({
            let ev = digits_value(exp_digits@);
            let k = 4 - frac_len + (if has_exp {
                (if eneg {
                    -ev
                } else {
                    ev
                })
            } else {
                0
            });
            match r {
                None => spec_signed_units(neg, mantissa@, k) is None,
                Some(v) => spec_signed_units(neg, mantissa@, k) == Some(v as int),
            }
        }),
{
    let ghost ev_true: int = digits_value(exp_digits@);
    let ghost k_true: int = 4 - frac_len + (if has_exp {
        (if eneg {
            -ev_true
        } else {
            ev_true
        })
    } else {
        0
    });
    proof {
        crate::decimal::lemma_digits_value_nonneg(exp_digits@);
        crate::decimal::lemma_digits_value_nonneg(mantissa@);
    }
    let ev: u128 = if has_exp {
        digits_value_saturated(exp_digits, EXPONENT_CAP)
    } else {
        0
    };
    if has_exp && ev >= EXPONENT_CAP {
        if eneg {
            let mlen_neg = mantissa.len();
            proof {
                assert(mantissa@.len() == mlen_neg);
                assert(k_true <= -(mlen_neg as int));
                lemma_scaled_deep_neg(mantissa@, k_true);
            }
            return Some(0);
        }
        let mut all_zero: bool = true;
        let mut m: usize = 0;
        let mlen = mantissa.len();
        while m < mlen
            invariant
                mlen == mantissa@.len(),
                m <= mlen,
                all_zero <==> (forall|w: int| 0 <= w < m ==> mantissa@[w] == 0),
            decreases mlen - m,
        {
            if mantissa[m] != 0 {
                all_zero = false;
            }
            m = m + 1;
        }
        proof {
            crate::decimal::lemma_digits_value_zero(mantissa@);
            assert(k_true >= 17);
            lemma_scaled_big(mantissa@, k_true);
        }
        if all_zero {
            return Some(0);
        }
        return None;
    }
    let k: i128 = 4 - frac_len as i128 + (
    if has_exp {
        if eneg {
            -(ev as i128)
        } else {
            ev as i128
        }
    } else {
        0
    });
    proof {
        assert(k == k_true);
        if k >= 0 {
            crate::decimal::lemma_pow10_pos(k as nat);
            assert(digits_value(mantissa@) * crate::decimal::pow10(k as nat) >= 0)
                by (nonlinear_arith)
                requires
                    digits_value(mantissa@) >= 0,
                    crate::decimal::pow10(k as nat) >= 1,
            ;
        } else {
            crate::decimal::lemma_pow10_pos((-k) as nat);
            vstd::arithmetic::div_mod::lemma_div_pos_is_pos(
                digits_value(mantissa@),
                crate::decimal::pow10((-k) as nat) as int,
            );
        }
    }
    let units = units_from_parts(mantissa, k);
    match units {
        None => None,
        Some(mag) => {
            proof {
                assert(mag < QUANTITY_LIMIT);
            }
            Some(if neg { -(mag as i64) } else { mag as i64 })
        },
    }
}

/// A JSON number at `i`, read as a signed quantity in whole units: the
/// value and the index after the number.  Magnitudes at or beyond the
/// representable bound fail, as an out-of-range number does in any reader.
pub open spec fn spec_parse_json_number(s: Seq<char>, i: int) -> Option<(int, int)> {
    let neg = 0 <= i < s.len() && s[i] == '-';
    let i0 = if neg { i + 1 } else { i };
    if !(0 <= i0 < s.len() && is_digit_char(s[i0])) {
        None
    } else {
        let i1 = if s[i0] == '0' { i0 + 1 } else { digit_run_end(s, i0) };
        let has_dot = i1 < s.len() && s[i1] == '.';
        let fs = i1 + 1;
        let i2 = if has_dot { digit_run_end(s, fs) } else { i1 };
        if has_dot && i2 == fs {
            None
        } else {
            let mantissa = digit_vals(s, i0, i1) + (
            if has_dot {
                digit_vals(s, fs, i2)
            } else {
                Seq::empty()
            });
            let frac_len = if has_dot { i2 - fs } else { 0 };
            if i2 < s.len() && (s[i2] == 'e' || s[i2] == 'E') {
                let (eneg, j0) = sign_at(s, i2 + 1);
                let j1 = digit_run_end(s, j0);
                if j1 == j0 {
                    None
                } else {
                    let ev = digits_value(digit_vals(s, j0, j1));
                    finish_number(
                        neg,
                        mantissa,
                        4 - frac_len + (if eneg { -ev } else { ev }),
                        j1,
                    )
                }
            } else {
                finish_number(neg, mantissa, 4 - frac_len, i2)
            }
        }
    }
}

/// Read a JSON number at `i` as a signed quantity in whole units.
#[verifier::rlimit(100)]
pub fn parse_json_number(t: &Vec<char>, i: usize) -> (r: Option<(i64, usize)>)
    requires
        i <= t@.len(),
    ensures
        ({
            let s = spec_parse_json_number(t@, i as int);
            match r {
                None => s is None,
                Some(p) => s == Some((p.0 as int, p.1 as int)),
            }
        }),
{
    let n = t.len();
    let mut neg: bool = false;
    let mut i0: usize = i;
    if i < n && t[i] == '-' {
        neg = true;
        i0 = i + 1;
    }
    if !(i0 < n) {
        return None;
    }
    let first = t[i0];
    let first_u = first as u32;
    if !(48 <= first_u && first_u <= 57) {
        proof {
            assert(!is_digit_char(t@[i0 as int]));
        }
        return None;
    }
    let mut mantissa: Vec<u8> = Vec::new();
    let i1 = if first == '0' {
        mantissa.push(0);
        proof {
            assert(digit_vals(t@, i0 as int, i0 + 1) =~= seq![spec_char_digit(t@[i0 as int])]);
            assert(spec_char_digit(t@[i0 as int]) == 0);
            assert(mantissa@ =~= digit_vals(t@, i0 as int, i0 + 1));
        }
        i0 + 1
    } else {
        scan_digit_run(t, i0, &mut mantissa)
    };
    let mut has_dot = false;
    let mut fs = i1;
    if i1 < n && t[i1] == '.' {
        has_dot = true;
        fs = i1 + 1;
    }
    let ghost int_digits = mantissa@;
    let i2 = if has_dot {
        scan_digit_run(t, fs, &mut mantissa)
    } else {
        i1
    };
    if has_dot && i2 == fs {
        return None;
    }
    proof {
        if has_dot {
            assert(mantissa@ == int_digits + digit_vals(t@, fs as int, i2 as int));
        } else {
            assert(mantissa@ =~= int_digits + Seq::<u8>::empty());
        }
        assert(all_digits(mantissa@));
    }
    let frac_len = if has_dot {
        i2 - fs
    } else {
        0
    };
    if i2 < n && (t[i2] == 'e' || t[i2] == 'E') {
        let mut eneg: bool = false;
        let mut j0: usize = i2 + 1;
        if j0 < n && t[j0] == '-' {
            eneg = true;
            j0 = j0 + 1;
        } else if j0 < n && t[j0] == '+' {
            j0 = j0 + 1;
        }
        proof {
            assert(sign_at(t@, i2 + 1) == (eneg, j0 as int));
        }
        let mut exp_digits: Vec<u8> = Vec::new();
        let j1 = scan_digit_run(t, j0, &mut exp_digits);
        if j1 == j0 {
            return None;
        }
        let v = eval_number(neg, &mantissa, frac_len, true, eneg, &exp_digits);
        match v {
            None => None,
            Some(x) => Some((x, j1)),
        }
    } else {
        let empty_exp: Vec<u8> = Vec::new();
        let v = eval_number(neg, &mantissa, frac_len, false, false, &empty_exp);
        proof {
            assert(digits_value(empty_exp@) == 0);
        }
        match v {
            None => None,
            Some(x) => Some((x, i2)),
        }
    }
}

/// A JSON unsigned integer at `i`: the value and the index after it.
/// Values at or beyond the id ceiling fail.
pub open spec fn spec_parse_json_uint(s: Seq<char>, i: int) -> Option<(u64, int)> {
    if !(0 <= i < s.len() && is_digit_char(s[i])) {
        None
    } else {
        let i1 = if s[i] == '0' { i + 1 } else { digit_run_end(s, i) };
        let v = digits_value(digit_vals(s, i, i1));
        if v < u64::MAX {
            Some((v as u64, i1))
        } else {
            None
        }
    }
}

/// Read a JSON unsigned integer at `i`.
pub fn parse_json_uint(t: &Vec<char>, i: usize) -> (r: Option<(u64, usize)>)
    requires
        i <= t@.len(),
    ensures
        ({
            let s = spec_parse_json_uint(t@, i as int);
            match r {
                None => s is None,
                Some(p) => s == Some((p.0, p.1 as int)),
            }
        }),
{
    if !(i < t.len()) {
        return None;
    }
    let first = t[i];
    let first_u = first as u32;
    if !(48 <= first_u && first_u <= 57) {
        proof {
            assert(!is_digit_char(t@[i as int]));
        }
        return None;
    }
    let mut digits: Vec<u8> = Vec::new();
    let i1 = if first == '0' {
        digits.push(0);
        proof {
            assert(digit_vals(t@, i as int, i + 1) =~= seq![spec_char_digit(t@[i as int])]);
            assert(spec_char_digit(t@[i as int]) == 0);
            assert(digits@ =~= digit_vals(t@, i as int, i + 1));
        }
        i + 1
    } else {
        scan_digit_run(t, i, &mut digits)
    };
    let v = digits_value_saturated(&digits, u64::MAX as u128);
    if v < u64::MAX as u128 {
        Some((v as u64, i1))
    } else {
        None
    }
}

/// An ingredient object while its members are being read.
pub ghost struct PartialIngredient {
    pub id: Option<u64>,
    pub name: Option<Seq<char>>,
    pub protein: Option<int>,
    pub fat: Option<int>,
    pub net_carbs: Option<int>,
    pub servings: Option<int>,
}

/// No members read yet.
pub open spec fn empty_partial() -> PartialIngredient {
    PartialIngredient {
        id: None,
        name: None,
        protein: None,
        fat: None,
        net_carbs: None,
        servings: None,
    }
}

/// A finished ingredient object: every member must have appeared.
pub open spec fn complete_ingredient(p: PartialIngredient) -> Option<IngredientPayloadView> {
    if p.id is Some && p.name is Some && p.protein is Some && p.fat is Some && p.net_carbs is Some
        && p.servings is Some {
        Some(
            IngredientPayloadView {
                id: p.id.unwrap(),
                name: p.name.unwrap(),
                protein: p.protein.unwrap(),
                fat: p.fat.unwrap(),
                net_carbs: p.net_carbs.unwrap(),
                servings: p.servings.unwrap(),
            },
        )
    } else {
        None
    }
}

/// One ingredient member's value, dispatched on the key.  A repeated or
/// unknown key fails.
pub open spec fn spec_ing_member_value(
    s: Seq<char>,
    i: int,
    key: Seq<char>,
    acc: PartialIngredient,
) -> Option<(PartialIngredient, int)> {
    if key == "id"@ {
        if acc.id is Some {
            None
        } else {
            match spec_parse_json_uint(s, i) {
                None => None,
                Some((v, e)) => Some((PartialIngredient { id: Some(v), ..acc }, e)),
            }
        }
    } else if key == "name"@ {
        if acc.name is Some {
            None
        } else {
            match spec_parse_string(s, i) {
                None => None,
                Some((v, e)) => Some((PartialIngredient { name: Some(v), ..acc }, e)),
            }
        }
    } else if key == "protein"@ {
        if acc.protein is Some {
            None
        } else {
            match spec_parse_json_number(s, i) {
                None => None,
                Some((v, e)) => Some((PartialIngredient { protein: Some(v), ..acc }, e)),
            }
        }
    } else if key == "fat"@ {
        if acc.fat is Some {
            None
        } else {
            match spec_parse_json_number(s, i) {
                None => None,
                Some((v, e)) => Some((PartialIngredient { fat: Some(v), ..acc }, e)),
            }
        }
    } else if key == "net_carbs"@ {
        if acc.net_carbs is Some {
            None
        } else {
            match spec_parse_json_number(s, i) {
                None => None,
                Some((v, e)) => Some((PartialIngredient { net_carbs: Some(v), ..acc }, e)),
            }
        }
    } else if key == "servings"@ {
        if acc.servings is Some {
            None
        } else {
            match spec_parse_json_number(s, i) {
                None => None,
                Some((v, e)) => Some((PartialIngredient { servings: Some(v), ..acc }, e)),
            }
        }
    } else {
        None
    }
}

/// The members of an ingredient object from `i` (just inside the brace)
/// to its closing brace: the finished ingredient and the index after it.
pub open spec fn spec_ing_members(s: Seq<char>, i: int, acc: PartialIngredient) -> Option<
    (IngredientPayloadView, int),
>
    decreases s.len() - i,
    when 0 <= i <= s.len()
{
    let ks = ws_end(s, i);
    match spec_parse_string(s, ks) {
        None => None,
        Some((key, j0)) => {
            if !(0 <= j0 <= s.len()) {
                None
            } else {
                let j1 = ws_end(s, j0);
                if !(0 <= j1 < s.len() && s[j1] == ':') {
                    None
                } else {
                    let v0 = ws_end(s, j1 + 1);
                    match spec_ing_member_value(s, v0, key, acc) {
                        None => None,
                        Some((acc2, e0)) => {
                            if !(0 <= e0 <= s.len()) {
                                None
                            } else {
                                let e = ws_end(s, e0);
                                if 0 <= e < s.len() && s[e] == ',' {
                                    if i < e + 1 <= s.len() {
                                        spec_ing_members(s, e + 1, acc2)
                                    } else {
                                        None
                                    }
                                } else if 0 <= e < s.len() && s[e] == '}' {
                                    match complete_ingredient(acc2) {
                                        Some(v) => Some((v, e + 1)),
                                        None => None,
                                    }
                                } else {
                                    None
                                }
                            }
                        },
                    }
                }
            }
        },
    }
}

/// An ingredient object at `i`.
pub open spec fn spec_parse_ingredient(s: Seq<char>, i: int) -> Option<
    (IngredientPayloadView, int),
> {
    if 0 <= i < s.len() && s[i] == '{' {
        spec_ing_members(s, i + 1, empty_partial())
    } else {
        None
    }
}

/// The elements of the ingredients array from `i` (just inside the
/// bracket, known non-empty) to its closing bracket.
pub open spec fn spec_ing_elements(s: Seq<char>, i: int, acc: Seq<IngredientPayloadView>) -> Option<
    (Seq<IngredientPayloadView>, int),
>
    decreases s.len() - i,
    when 0 <= i <= s.len()
{
    let v0 = ws_end(s, i);
    match spec_parse_ingredient(s, v0) {
        None => None,
        Some((ing, e0)) => {
            if !(0 <= e0 <= s.len()) {
                None
            } else {
                let e = ws_end(s, e0);
                if 0 <= e < s.len() && s[e] == ',' {
                    if i < e + 1 <= s.len() {
                        spec_ing_elements(s, e + 1, acc.push(ing))
                    } else {
                        None
                    }
                } else if 0 <= e < s.len() && s[e] == ']' {
                    Some((acc.push(ing), e + 1))
                } else {
                    None
                }
            }
        },
    }
}

/// The ingredients array at `i`: the ingredient list and the index after
/// the closing bracket.
pub open spec fn spec_parse_ingredients(s: Seq<char>, i: int) -> Option<
    (Seq<IngredientPayloadView>, int),
> {
    if 0 <= i < s.len() && s[i] == '[' {
        let j = ws_end(s, i + 1);
        if 0 <= j < s.len() && s[j] == ']' {
            Some((Seq::empty(), j + 1))
        } else {
            spec_ing_elements(s, i + 1, Seq::empty())
        }
    } else {
        None
    }
}

/// The literal `null` sits at `i`.
pub open spec fn null_at(s: Seq<char>, i: int) -> bool {
    0 <= i && i + 4 <= s.len() && s[i] == 'n' && s[i + 1] == 'u' && s[i + 2] == 'l' && s[i + 3]
        == 'l'
}

/// A recipe object while its members are being read.  The outer option of
/// `name` records whether the member appeared at all; a JSON `null` reads
/// as an absent name.
pub ghost struct PartialRecipe {
    pub name: Option<Option<Seq<char>>>,
    pub ingredients: Option<Seq<IngredientPayloadView>>,
}

/// A finished recipe object: `ingredients` must have appeared, the name
/// defaults to absent.
pub open spec fn complete_recipe(p: PartialRecipe) -> Option<RecipePayloadView> {
    match p.ingredients {
        None => None,
        Some(ings) => Some(
            RecipePayloadView {
                name: match p.name {
                    Some(n) => n,
                    None => None,
                },
                ingredients: ings,
            },
        ),
    }
}

/// One recipe member's value, dispatched on the key.
pub open spec fn spec_recipe_member_value(
    s: Seq<char>,
    i: int,
    key: Seq<char>,
    acc: PartialRecipe,
) -> Option<(PartialRecipe, int)> {
    if key == "name"@ {
        if acc.name is Some {
            None
        } else if null_at(s, i) {
            Some((PartialRecipe { name: Some(None), ..acc }, i + 4))
        } else {
            match spec_parse_string(s, i) {
                None => None,
                Some((v, e)) => Some((PartialRecipe { name: Some(Some(v)), ..acc }, e)),
            }
        }
    } else if key == "ingredients"@ {
        if acc.ingredients is Some {
            None
        } else {
            match spec_parse_ingredients(s, i) {
                None => None,
                Some((v, e)) => Some((PartialRecipe { ingredients: Some(v), ..acc }, e)),
            }
        }
    } else {
        None
    }
}

/// The members of the recipe object from `i` (just inside the brace) to
/// its closing brace.
pub open spec fn spec_recipe_members(s: Seq<char>, i: int, acc: PartialRecipe) -> Option<
    (RecipePayloadView, int),
>
    decreases s.len() - i,
    when 0 <= i <= s.len()
{
    let ks = ws_end(s, i);
    match spec_parse_string(s, ks) {
        None => None,
        Some((key, j0)) => {
            if !(0 <= j0 <= s.len()) {
                None
            } else {
                let j1 = ws_end(s, j0);
                if !(0 <= j1 < s.len() && s[j1] == ':') {
                    None
                } else {
                    let v0 = ws_end(s, j1 + 1);
                    match spec_recipe_member_value(s, v0, key, acc) {
                        None => None,
                        Some((acc2, e0)) => {
                            if !(0 <= e0 <= s.len()) {
                                None
                            } else {
                                let e = ws_end(s, e0);
                                if 0 <= e < s.len() && s[e] == ',' {
                                    if i < e + 1 <= s.len() {
                                        spec_recipe_members(s, e + 1, acc2)
                                    } else {
                                        None
                                    }
                                } else if 0 <= e < s.len() && s[e] == '}' {
                                    match complete_recipe(acc2) {
                                        Some(v) => Some((v, e + 1)),
                                        None => None,
                                    }
                                } else {
                                    None
                                }
                            }
                        },
                    }
                }
            }
        },
    }
}

/// A whole recipe payload read from JSON text: whitespace, one recipe
/// object, whitespace, end of text.
pub open spec fn spec_parse_recipe_json(s: Seq<char>) -> Option<RecipePayloadView> {
    let i = ws_end(s, 0);
    if 0 <= i < s.len() && s[i] == '{' {
        match spec_recipe_members(s, i + 1, PartialRecipe { name: None, ingredients: None }) {
            None => None,
            Some((v, e)) => {
                if 0 <= e <= s.len() && ws_end(s, e) == s.len() {
                    Some(v)
                } else {
                    None
                }
            },
        }
    } else {
        None
    }
}

/// Whether a character vector holds exactly the text of a literal.
pub fn chars_eq_str(v: &Vec<char>, s: &str) -> (r: bool)
    ensures
        r == (v@ == s@),
{
    let n = s.unicode_len();
    if v.len() != n {
        proof {
            if v@ == s@ {
                assert(v@.len() == s@.len());
            }
        }
        return false;
    }
    let mut i: usize = 0;
    while i < n
        invariant
            n == s@.len(),
            n == v@.len(),
            i <= n,
            forall|j: int| 0 <= j < i ==> v@[j] == s@[j],
        decreases n - i,
    {
        if v[i] != s.get_char(i) {
            return false;
        }
        i = i + 1;
    }
    proof {
        assert(v@ =~= s@);
    }
    true
}

/// The partial-ingredient view of the reader's working state.
pub open spec fn mk_partial(
    id: Option<u64>,
    name: Option<Seq<char>>,
    protein: Option<int>,
    fat: Option<int>,
    net_carbs: Option<int>,
    servings: Option<int>,
) -> PartialIngredient {
    PartialIngredient { id, name, protein, fat, net_carbs, servings }
}

/// The view of an optional character vector.
pub open spec fn opt_chars_view(v: Option<Vec<char>>) -> Option<Seq<char>> {
    match v {
        Some(x) => Some(x@),
        None => None,
    }
}

/// The view of an optional unit count.
pub open spec fn opt_units_view(v: Option<i64>) -> Option<int> {
    match v {
        Some(x) => Some(x as int),
        None => None,
    }
}

/// Read an ingredient object at `i`.
#[verifier::rlimit(100)]
pub fn parse_ingredient(t: &Vec<char>, i: usize) -> (r: Option<(IngredientPayload, usize)>)
    requires
        i <= t@.len(),
    ensures
        ({
            let s = spec_parse_ingredient(t@, i as int);
            match r {
                None => s is None,
                Some(p) => s == Some((p.0@, p.1 as int)),
            }
        }),
{
    if !(i < t.len()) {
        return None;
    }
    if t[i] != '{' {
        return None;
    }
    let mut id_v: Option<u64> = None;
    let mut name_v: Option<Vec<char>> = None;
    let mut protein_v: Option<i64> = None;
    let mut fat_v: Option<i64> = None;
    let mut carbs_v: Option<i64> = None;
    let mut servings_v: Option<i64> = None;
    let mut cur: usize = i + 1;
    loop
        invariant
            i < t@.len(),
            t@[i as int] == '{',
            i + 1 <= cur <= t@.len(),
            spec_ing_members(t@, i + 1, empty_partial()) == spec_ing_members(
                t@,
                cur as int,
                mk_partial(
                    id_v,
                    opt_chars_view(name_v),
                    opt_units_view(protein_v),
                    opt_units_view(fat_v),
                    opt_units_view(carbs_v),
                    opt_units_view(servings_v),
                ),
            ),
        decreases t@.len() - cur,
    {
        let ghost acc0 = mk_partial(
            id_v,
            opt_chars_view(name_v),
            opt_units_view(protein_v),
            opt_units_view(fat_v),
            opt_units_view(carbs_v),
            opt_units_view(servings_v),
        );
        let ghost cur0: int = cur as int;
        let ks = skip_ws(t, cur);
        let key_r = parse_json_string(t, ks);
        let (key, j0) = match key_r {
            None => {
                return None;
            },
            Some(p) => p,
        };
        if j0 > t.len() {
            return None;
        }
        let j1 = skip_ws(t, j0);
        if !(j1 < t.len()) {
            return None;
        }
        if t[j1] != ':' {
            return None;
        }
        let v0 = skip_ws(t, j1 + 1);
        let e0: usize;
        if chars_eq_str(&key, "id") {
            if id_v.is_some() {
                return None;
            }
            match parse_json_uint(t, v0) {
                None => {
                    return None;
                },
                Some((v, e)) => {
                    id_v = Some(v);
                    e0 = e;
                },
            }
        } else if chars_eq_str(&key, "name") {
            if name_v.is_some() {
                return None;
            }
            match parse_json_string(t, v0) {
                None => {
                    return None;
                },
                Some((v, e)) => {
                    name_v = Some(v);
                    e0 = e;
                },
            }
        } else if chars_eq_str(&key, "protein") {
            if protein_v.is_some() {
                return None;
            }
            match parse_json_number(t, v0) {
                None => {
                    return None;
                },
                Some((v, e)) => {
                    protein_v = Some(v);
                    e0 = e;
                },
            }
        } else if chars_eq_str(&key, "fat") {
            if fat_v.is_some() {
                return None;
            }
            match parse_json_number(t, v0) {
                None => {
                    return None;
                },
                Some((v, e)) => {
                    fat_v = Some(v);
                    e0 = e;
                },
            }
        } else if chars_eq_str(&key, "net_carbs") {
            if carbs_v.is_some() {
                return None;
            }
            match parse_json_number(t, v0) {
                None => {
                    return None;
                },
                Some((v, e)) => {
                    carbs_v = Some(v);
                    e0 = e;
                },
            }
        } else if chars_eq_str(&key, "servings") {
            if servings_v.is_some() {
                return None;
            }
            match parse_json_number(t, v0) {
                None => {
                    return None;
                },
                Some((v, e)) => {
                    servings_v = Some(v);
                    e0 = e;
                },
            }
        } else {
            return None;
        }
        let ghost acc2 = mk_partial(
            id_v,
            opt_chars_view(name_v),
            opt_units_view(protein_v),
            opt_units_view(fat_v),
            opt_units_view(carbs_v),
            opt_units_view(servings_v),
        );
        proof {
            assert(spec_ing_member_value(t@, v0 as int, key@, acc0) == Some(
                (acc2, e0 as int),
            ));
        }
        if e0 > t.len() {
            return None;
        }
        let e = skip_ws(t, e0);
        if e < t.len() && t[e] == ',' {
            if !(cur < e + 1) {
                return None;
            }
            cur = e + 1;
            proof {
                assert(spec_ing_members(t@, cur0, acc0) == spec_ing_members(
                    t@,
                    cur as int,
                    acc2,
                ));
            }
        } else if e < t.len() && t[e] == '}' {
            let idv = match id_v {
                Some(v) => v,
                None => {
                    return None;
                },
            };
            let namev = match name_v {
                Some(v) => v,
                None => {
                    return None;
                },
            };
            let pv = match protein_v {
                Some(v) => v,
                None => {
                    return None;
                },
            };
            let fv = match fat_v {
                Some(v) => v,
                None => {
                    return None;
                },
            };
            let cv = match carbs_v {
                Some(v) => v,
                None => {
                    return None;
                },
            };
            let sv = match servings_v {
                Some(v) => v,
                None => {
                    return None;
                },
            };
            let name_s = crate::text::chars_to_string(&namev);
            let payload = IngredientPayload {
                id: idv,
                name: name_s,
                protein: pv,
                fat: fv,
                net_carbs: cv,
                servings: sv,
            };
            proof {
                assert(complete_ingredient(acc2) == Some(payload@));
            }
            return Some((payload, e + 1));
        } else {
            return None;
        }
    }
}

/// Read the ingredients array at `i`.
#[verifier::rlimit(100)]
pub fn parse_ingredients_array(t: &Vec<char>, i: usize) -> (r: Option<
    (Vec<IngredientPayload>, usize),
>)
    requires
        i <= t@.len(),
    ensures
        ({
            let s = spec_parse_ingredients(t@, i as int);
            match r {
                None => s is None,
                Some(p) => s == Some((payload_views(p.0@), p.1 as int)),
            }
        }),
{
    if !(i < t.len()) {
        return None;
    }
    if t[i] != '[' {
        return None;
    }
    let j = skip_ws(t, i + 1);
    if j < t.len() && t[j] == ']' {
        let empty_list: Vec<IngredientPayload> = Vec::new();
        proof {
            assert(payload_views(empty_list@) =~= Seq::<IngredientPayloadView>::empty());
        }
        return Some((empty_list, j + 1));
    }
    let mut acc: Vec<IngredientPayload> = Vec::new();
    let mut cur: usize = i + 1;
    proof {
        assert(payload_views(acc@) =~= Seq::<IngredientPayloadView>::empty());
    }
    loop
        invariant
            i + 1 <= cur <= t@.len(),
            spec_parse_ingredients(t@, i as int) == spec_ing_elements(
                t@,
                i + 1,
                Seq::<IngredientPayloadView>::empty(),
            ),
            spec_ing_elements(t@, i + 1, Seq::<IngredientPayloadView>::empty())
                == spec_ing_elements(t@, cur as int, payload_views(acc@)),
        decreases t@.len() - cur,
    {
        let ghost accv0 = payload_views(acc@);
        let ghost cur0: int = cur as int;
        let v0 = skip_ws(t, cur);
        let ing_r = parse_ingredient(t, v0);
        let (ing, e0) = match ing_r {
            None => {
                return None;
            },
            Some(p) => p,
        };
        if e0 > t.len() {
            return None;
        }
        let e = skip_ws(t, e0);
        if e < t.len() && t[e] == ',' {
            if !(cur < e + 1) {
                return None;
            }
            let ghost ingv = ing@;
            acc.push(ing);
            cur = e + 1;
            proof {
                assert(payload_views(acc@) =~= accv0.push(ingv));
                assert(spec_ing_elements(t@, cur0, accv0) == spec_ing_elements(
                    t@,
                    cur as int,
                    payload_views(acc@),
                ));
            }
        } else if e < t.len() && t[e] == ']' {
            let ghost ingv = ing@;
            acc.push(ing);
            proof {
                assert(payload_views(acc@) =~= accv0.push(ingv));
            }
            return Some((acc, e + 1));
        } else {
            return None;
        }
    }
}

/// The view of the reader's working state for the recipe object.
pub open spec fn mk_partial_recipe(
    name: Option<Option<Seq<char>>>,
    ingredients: Option<Seq<IngredientPayloadView>>,
) -> PartialRecipe {
    PartialRecipe { name, ingredients }
}

/// The view of an optional name member (which may itself be null).
pub open spec fn opt_name_view(v: Option<Option<Vec<char>>>) -> Option<Option<Seq<char>>> {
    match v {
        Some(Some(x)) => Some(Some(x@)),
        Some(None) => Some(None),
        None => None,
    }
}

/// The view of an optional ingredients member.
pub open spec fn opt_ings_view(v: Option<Vec<IngredientPayload>>) -> Option<
    Seq<IngredientPayloadView>,
> {
    match v {
        Some(x) => Some(payload_views(x@)),
        None => None,
    }
}

/// Read a whole recipe payload from JSON text.
#[verifier::rlimit(100)]
pub fn parse_recipe_json(t: &Vec<char>) -> (r: Option<RecipePayload>)
    ensures
        ({
            let s = spec_parse_recipe_json(t@);
            match r {
                None => s is None,
                Some(p) => s == Some(p@),
            }
        }),
{
    let i = skip_ws(t, 0);
    if !(i < t.len()) {
        return None;
    }
    if t[i] != '{' {
        return None;
    }
    let mut name_v: Option<Option<Vec<char>>> = None;
    let mut ings_v: Option<Vec<IngredientPayload>> = None;
    let mut cur: usize = i + 1;
    loop
        invariant
            i < t@.len(),
            t@[i as int] == '{',
            i == ws_end(t@, 0),
            i + 1 <= cur <= t@.len(),
            spec_recipe_members(t@, i + 1, mk_partial_recipe(None, None))
                == spec_recipe_members(
                t@,
                cur as int,
                mk_partial_recipe(opt_name_view(name_v), opt_ings_view(ings_v)),
            ),
        decreases t@.len() - cur,
    {
        let ghost acc0 = mk_partial_recipe(opt_name_view(name_v), opt_ings_view(ings_v));
        let ghost cur0: int = cur as int;
        let ks = skip_ws(t, cur);
        let key_r = parse_json_string(t, ks);
        let (key, j0) = match key_r {
            None => {
                return None;
            },
            Some(p) => p,
        };
        if j0 > t.len() {
            return None;
        }
        let j1 = skip_ws(t, j0);
        if !(j1 < t.len()) {
            return None;
        }
        if t[j1] != ':' {
            return None;
        }
        let v0 = skip_ws(t, j1 + 1);
        let e0: usize;
        if chars_eq_str(&key, "name") {
            if name_v.is_some() {
                return None;
            }
            if t.len() - v0 >= 4 && t[v0] == 'n' && t[v0 + 1] == 'u' && t[v0 + 2] == 'l'
                && t[v0 + 3] == 'l' {
                name_v = Some(None);
                e0 = v0 + 4;
            } else {
                proof {
                    assert(!null_at(t@, v0 as int));
                }
                match parse_json_string(t, v0) {
                    None => {
                        return None;
                    },
                    Some((v, e)) => {
                        name_v = Some(Some(v));
                        e0 = e;
                    },
                }
            }
        } else if chars_eq_str(&key, "ingredients") {
            if ings_v.is_some() {
                return None;
            }
            match parse_ingredients_array(t, v0) {
                None => {
                    return None;
                },
                Some((v, e)) => {
                    ings_v = Some(v);
                    e0 = e;
                },
            }
        } else {
            return None;
        }
        let ghost acc2 = mk_partial_recipe(opt_name_view(name_v), opt_ings_view(ings_v));
        proof {
            assert(spec_recipe_member_value(t@, v0 as int, key@, acc0) == Some(
                (acc2, e0 as int),
            ));
        }
        if e0 > t.len() {
            return None;
        }
        let e = skip_ws(t, e0);
        if e < t.len() && t[e] == ',' {
            if !(cur < e + 1) {
                return None;
            }
            cur = e + 1;
            proof {
                assert(spec_recipe_members(t@, cur0, acc0) == spec_recipe_members(
                    t@,
                    cur as int,
                    acc2,
                ));
            }
        } else if e < t.len() && t[e] == '}' {
            let ings = match ings_v {
                Some(v) => v,
                None => {
                    return None;
                },
            };
            let name_s: Option<String> = match name_v {
                Some(Some(vv)) => Some(crate::text::chars_to_string(&vv)),
                _ => None,
            };
            let payload = RecipePayload { name: name_s, ingredients: ings };
            proof {
                assert(complete_recipe(acc2) == Some(payload@));
            }
            let tail = skip_ws(t, e + 1);
            if tail != t.len() {
                return None;
            }
            return Some(payload);
        } else {
            return None;
        }
    }
}


/// The fraction of a quantity as exactly four digits, leading zeros kept.
pub open spec fn frac4_digits(frac: int) -> Seq<u8> {
    let ds = spec_digits_of(frac as nat);
    Seq::new(if ds.len() <= 4 { (4 - ds.len()) as nat } else { 0 }, |i: int| 0u8) + ds
}

/// A digit run with its trailing zeros removed.
pub open spec fn drop_trailing_zeros(ds: Seq<u8>) -> Seq<u8>
    decreases ds.len(),
{
    if ds.len() > 0 && ds.last() == 0 {
        drop_trailing_zeros(ds.drop_last())
    } else {
        ds
    }
}

/// The canonical text of a non-negative quantity in units: whole grams,
/// then the fraction with trailing zeros trimmed, the point omitted when
/// the fraction is zero.
pub open spec fn spec_units_chars(v: int) -> Seq<char> {
    let whole = v / 10000;
    let frac = v % 10000;
    if frac == 0 {
        digit_chars(spec_digits_of(whole as nat))
    } else {
        digit_chars(spec_digits_of(whole as nat)) + seq!['.'] + digit_chars(
            drop_trailing_zeros(frac4_digits(frac)),
        )
    }
}

/// The canonical text of a signed quantity in units.
pub open spec fn spec_signed_units_chars(v: int) -> Seq<char> {
    if v < 0 {
        seq!['-'] + spec_units_chars(-v)
    } else {
        spec_units_chars(v)
    }
}

/// What trimming trailing zeros preserves: the trimmed run is a prefix
/// whose value carries the whole value, and it keeps a nonzero last digit.
pub proof fn lemma_drop_trailing_zeros(ds: Seq<u8>)
    requires
        all_digits(ds),
    ensures
        drop_trailing_zeros(ds).len() <= ds.len(),
        drop_trailing_zeros(ds) == ds.take(drop_trailing_zeros(ds).len() as int),
        digits_value(ds) == digits_value(drop_trailing_zeros(ds)) * pow10(
            (ds.len() - drop_trailing_zeros(ds).len()) as nat,
        ),
        drop_trailing_zeros(ds).len() > 0 ==> drop_trailing_zeros(ds).last() != 0,
        digits_value(ds) > 0 ==> drop_trailing_zeros(ds).len() > 0,
        all_digits(drop_trailing_zeros(ds)),
    decreases ds.len(),
{
    let r = drop_trailing_zeros(ds);
    if ds.len() > 0 && ds.last() == 0 {
        let dl = ds.drop_last();
        lemma_drop_trailing_zeros(dl);
        assert(dl.take(r.len() as int) =~= ds.take(r.len() as int));
        assert(digits_value(ds) == digits_value(dl) * 10 + 0);
        let m = (dl.len() - r.len()) as nat;
        assert(digits_value(dl) == digits_value(r) * pow10(m));
        assert(pow10(m + 1) == pow10(m) * 10) by {
            crate::decimal::lemma_pow10_adds(m, 1);
            assert(pow10(1) == 10) by {
                reveal_with_fuel(crate::decimal::pow10, 2);
            }
        }
        assert((ds.len() - r.len()) as nat == m + 1);
        assert(digits_value(ds) == digits_value(r) * pow10((ds.len() - r.len()) as nat))
            by (nonlinear_arith)
            requires
                digits_value(ds) == digits_value(dl) * 10,
                digits_value(dl) == digits_value(r) * pow10(m),
                pow10((ds.len() - r.len()) as nat) == pow10(m) * 10,
        ;
        if digits_value(ds) > 0 {
            assert(digits_value(dl) > 0);
        }
    } else {
        assert(r == ds);
        assert(ds.take(ds.len() as int) =~= ds);
        assert(pow10(0) == 1);
        assert((ds.len() - r.len()) as nat == 0);
        assert(digits_value(ds) == digits_value(r) * pow10((ds.len() - r.len()) as nat));
    }
}

/// Append the decimal digit values of `v`, most significant first.
fn push_digits_of(out: &mut Vec<u8>, v: u64)
    ensures
        final(out)@ == old(out)@ + spec_digits_of(v as nat),
    decreases v,
{
    if v < 10 {
        out.push(v as u8);
        proof {
            assert(out@ =~= old(out)@ + spec_digits_of(v as nat));
        }
    } else {
        push_digits_of(out, v / 10);
        out.push((v % 10) as u8);
        proof {
            assert((v / 10) as nat == v as nat / 10);
            assert(out@ =~= old(out)@ + spec_digits_of(v as nat));
        }
    }
}

/// Append the canonical text of a non-negative quantity in units.
#[verifier::rlimit(100)]
fn push_units_chars(out: &mut Vec<char>, v: u64)
    requires
        v < QUANTITY_LIMIT,
    ensures
        final(out)@ == old(out)@ + spec_units_chars(v as int),
{
    let whole = v / 10000;
    let frac = v % 10000;
    push_decimal(out, whole as u128);
    proof {
        assert((whole as u128) as nat == (v as int / 10000) as nat);
    }
    if frac != 0 {
        out.push('.');
        let ghost mid = out@;
        let mut ds: Vec<u8> = Vec::new();
        if frac < 10 {
            ds.push(0);
            ds.push(0);
            ds.push(0);
        } else if frac < 100 {
            ds.push(0);
            ds.push(0);
        } else if frac < 1000 {
            ds.push(0);
        }
        proof {
            crate::decimal::lemma_spec_digits_of(frac as nat);
            if frac < 10 {
                assert(spec_digits_of(frac as nat).len() == 1);
            } else if frac < 100 {
                assert(spec_digits_of(frac as nat) == spec_digits_of(frac as nat / 10).push(
                    (frac as nat % 10) as u8,
                ));
                assert(spec_digits_of(frac as nat).len() == 2);
            } else if frac < 1000 {
                assert(spec_digits_of(frac as nat) == spec_digits_of(frac as nat / 10).push(
                    (frac as nat % 10) as u8,
                ));
                assert(spec_digits_of(frac as nat / 10) == spec_digits_of(
                    frac as nat / 10 / 10,
                ).push((frac as nat / 10 % 10) as u8));
                assert(spec_digits_of(frac as nat).len() == 3);
            } else {
                assert(spec_digits_of(frac as nat) == spec_digits_of(frac as nat / 10).push(
                    (frac as nat % 10) as u8,
                ));
                assert(spec_digits_of(frac as nat / 10) == spec_digits_of(
                    frac as nat / 10 / 10,
                ).push((frac as nat / 10 % 10) as u8));
                assert(spec_digits_of(frac as nat / 10 / 10) == spec_digits_of(
                    frac as nat / 10 / 10 / 10,
                ).push((frac as nat / 10 / 10 % 10) as u8));
                assert(frac as nat / 10 / 10 / 10 < 10);
                assert(spec_digits_of(frac as nat).len() == 4);
            }
        }
        push_digits_of(&mut ds, frac);
        proof {
            crate::decimal::lemma_spec_digits_of(frac as nat);
            let zeros = Seq::new((4 - spec_digits_of(frac as nat).len()) as nat, |i: int| 0u8);
            assert(ds@ =~= zeros + spec_digits_of(frac as nat));
            assert(ds@ =~= frac4_digits(frac as int));
            assert(all_digits(ds@));
            crate::decimal::lemma_digits_value_concat(zeros, spec_digits_of(frac as nat));
            crate::decimal::lemma_digits_value_zero(zeros);
            assert(digits_value(zeros) == 0);
            assert(digits_value(zeros + spec_digits_of(frac as nat)) == frac);
            assert(digits_value(ds@) == frac);
        }
        let ghost orig_ds = ds@;
        loop
            invariant
                all_digits(ds@),
                all_digits(orig_ds),
                drop_trailing_zeros(orig_ds) == drop_trailing_zeros(ds@),
                digits_value(ds@) > 0 ==> ds@.len() > 0,
                digits_value(orig_ds) == frac,
                frac > 0,
                digits_value(ds@) >= 0,
            ensures
                ds@ == drop_trailing_zeros(orig_ds),
            decreases ds@.len(),
        {
            let n = ds.len();
            if n == 0 {
                proof {
                    lemma_drop_trailing_zeros(orig_ds);
                    assert(digits_value(ds@) == 0);
                    assert(drop_trailing_zeros(ds@) =~= ds@);
                }
                break;
            }
            if ds[n - 1] != 0 {
                proof {
                    assert(ds@.last() != 0);
                    assert(drop_trailing_zeros(ds@) == ds@);
                }
                break;
            }
            proof {
                assert(ds@.last() == 0);
                assert(drop_trailing_zeros(ds@) == drop_trailing_zeros(ds@.drop_last()));
                crate::decimal::lemma_digits_value_nonneg(ds@.drop_last());
            }
            ds.pop();
        }
        proof {
            lemma_drop_trailing_zeros(orig_ds);
            assert(digits_value(orig_ds) > 0);
            assert(ds@.len() > 0);
        }
        let m = ds.len();
        let mut w: usize = 0;
        while w < m
            invariant
                m == ds@.len(),
                w <= m,
                all_digits(ds@),
                out@ == mid + digit_chars(ds@).take(w as int),
            decreases m - w,
        {
            let c = crate::decimal::digit_to_char(ds[w]);
            out.push(c);
            proof {
                assert(digit_chars(ds@).take(w + 1) =~= digit_chars(ds@).take(w as int).push(
                    spec_digit_char(ds@[w as int]),
                ));
            }
            w = w + 1;
        }
        proof {
            assert(digit_chars(ds@).take(m as int) =~= digit_chars(ds@));
            assert(out@ =~= old(out)@ + spec_units_chars(v as int));
        }
    } else {
        proof {
            assert(out@ =~= old(out)@ + spec_units_chars(v as int));
        }
    }
}

/// Append the canonical text of a signed quantity in units.
fn push_signed_units(out: &mut Vec<char>, v: i64)
    requires
        payload_quantity_wf(v as int),
    ensures
        final(out)@ == old(out)@ + spec_signed_units_chars(v as int),
{
    if v < 0 {
        out.push('-');
        let ghost mid = out@;
        push_units_chars(out, (-v) as u64);
        proof {
            assert(out@ =~= old(out)@ + spec_signed_units_chars(v as int));
        }
    } else {
        push_units_chars(out, v as u64);
    }
}

/// Append the characters of a literal.
fn push_lit(out: &mut Vec<char>, s: &str)
    ensures
        final(out)@ == old(out)@ + s@,
{
    let mut cs = crate::text::str_to_chars(s);
    out.append(&mut cs);
}

/// Append a JSON string: the escaped text between quotes.
fn push_quoted(out: &mut Vec<char>, s: &str)
    ensures
        final(out)@ == old(out)@ + spec_quoted(s@),
{
    out.push('"');
    push_escaped(out, s);
    out.push('"');
    proof {
        assert(out@ =~= old(out)@ + spec_quoted(s@));
    }
}

/// The canonical JSON text of one ingredient.
pub open spec fn spec_ingredient_json(p: IngredientPayloadView) -> Seq<char> {
    "{\"id\":"@ + digit_chars(spec_digits_of(p.id as nat)) + ",\"name\":"@ + spec_quoted(p.name)
        + ",\"protein\":"@ + spec_signed_units_chars(p.protein) + ",\"fat\":"@
        + spec_signed_units_chars(p.fat) + ",\"net_carbs\":"@ + spec_signed_units_chars(
        p.net_carbs,
    ) + ",\"servings\":"@ + spec_signed_units_chars(p.servings) + "}"@
}

/// The canonical JSON text of the ingredient list, comma separated.
pub open spec fn spec_ingredients_json(ps: Seq<IngredientPayloadView>) -> Seq<char>
    decreases ps.len(),
{
    if ps.len() == 0 {
        Seq::empty()
    } else if ps.len() == 1 {
        spec_ingredient_json(ps[0])
    } else {
        spec_ingredient_json(ps[0]) + seq![','] + spec_ingredients_json(ps.drop_first())
    }
}

/// The canonical JSON text of a whole recipe; the name member is omitted
/// when absent.
pub open spec fn spec_recipe_json(p: RecipePayloadView) -> Seq<char> {
    "{"@ + (match p.name {
        Some(n) => "\"name\":"@ + spec_quoted(n) + ","@,
        None => Seq::<char>::empty(),
    }) + "\"ingredients\":["@ + spec_ingredients_json(p.ingredients) + "]}"@
}

/// Extending the list appends a comma (after a first element) and the
/// new element's text.
pub proof fn lemma_ingredients_json_push(ps: Seq<IngredientPayloadView>, x: IngredientPayloadView)
    ensures
        spec_ingredients_json(ps.push(x)) == (if ps.len() == 0 {
            spec_ingredient_json(x)
        } else {
            spec_ingredients_json(ps) + seq![','] + spec_ingredient_json(x)
        }),
    decreases ps.len(),
{
    let q = ps.push(x);
    if ps.len() == 0 {
        assert(q.len() == 1 && q[0] == x);
    } else {
        assert(q.len() >= 2);
        assert(q[0] == ps[0]);
        assert(q.drop_first() =~= ps.drop_first().push(x));
        lemma_ingredients_json_push(ps.drop_first(), x);
        if ps.len() == 1 {
            assert(spec_ingredients_json(ps.drop_first().push(x)) == spec_ingredient_json(x));
            assert(spec_ingredients_json(ps) == spec_ingredient_json(ps[0]));
        } else {
            assert(spec_ingredients_json(q) == spec_ingredient_json(ps[0]) + seq![','] + (
            spec_ingredients_json(ps.drop_first()) + seq![','] + spec_ingredient_json(x)));
            assert(spec_ingredient_json(ps[0]) + seq![','] + (spec_ingredients_json(
                ps.drop_first(),
            ) + seq![','] + spec_ingredient_json(x)) =~= (spec_ingredient_json(ps[0]) + seq![',']
                + spec_ingredients_json(ps.drop_first())) + seq![','] + spec_ingredient_json(x));
        }
    }
}

/// Append the canonical JSON text of one ingredient.
#[verifier::rlimit(100)]
fn push_ingredient_json(out: &mut Vec<char>, p: &IngredientPayload)
    requires
        ingredient_payload_wf(p@),
    ensures
        final(out)@ == old(out)@ + spec_ingredient_json(p@),
{
    push_lit(out, "{\"id\":");
    push_decimal(out, p.id as u128);
    push_lit(out, ",\"name\":");
    push_quoted(out, p.name.as_str());
    push_lit(out, ",\"protein\":");
    push_signed_units(out, p.protein);
    push_lit(out, ",\"fat\":");
    push_signed_units(out, p.fat);
    push_lit(out, ",\"net_carbs\":");
    push_signed_units(out, p.net_carbs);
    push_lit(out, ",\"servings\":");
    push_signed_units(out, p.servings);
    push_lit(out, "}");
    proof {
        assert((p.id as u128) as nat == p.id as nat);
        assert(out@ =~= old(out)@ + spec_ingredient_json(p@));
    }
}

/// The canonical JSON text of a whole recipe payload.
#[verifier::rlimit(100)]
pub fn encode_recipe_json(p: &RecipePayload) -> (out: Vec<char>)
    requires
        recipe_payload_wf(p@),
    ensures
        out@ == spec_recipe_json(p@),
{
    let mut out: Vec<char> = Vec::new();
    push_lit(&mut out, "{");
    match &p.name {
        Some(n) => {
            push_lit(&mut out, "\"name\":");
            push_quoted(&mut out, n.as_str());
            push_lit(&mut out, ",");
        },
        None => {},
    }
    push_lit(&mut out, "\"ingredients\":[");
    let ghost head = out@;
    let n = p.ingredients.len();
    let mut i: usize = 0;
    proof {
        assert(payload_views(p.ingredients@).take(0) =~= Seq::<IngredientPayloadView>::empty());
    }
    while i < n
        invariant
            n == p.ingredients@.len(),
            i <= n,
            recipe_payload_wf(p@),
            p@.ingredients == payload_views(p.ingredients@),
            out@ == head + spec_ingredients_json(payload_views(p.ingredients@).take(i as int)),
        decreases n - i,
    {
        if i > 0 {
            push_lit(&mut out, ",");
        }
        proof {
            assert(ingredient_payload_wf(p@.ingredients[i as int]));
            assert(p@.ingredients[i as int] == p.ingredients@[i as int]@);
        }
        push_ingredient_json(&mut out, &p.ingredients[i]);
        proof {
            reveal_strlit(",");
            assert(","@ =~= seq![',']);
            let views = payload_views(p.ingredients@);
            assert(views.take(i + 1) =~= views.take(i as int).push(views[i as int]));
            assert(views[i as int] == p.ingredients@[i as int]@);
            lemma_ingredients_json_push(views.take(i as int), views[i as int]);
            if i == 0 {
                assert(spec_ingredients_json(views.take(0)) =~= Seq::<char>::empty());
                assert(spec_ingredients_json(views.take(1)) == spec_ingredient_json(
                    views[0],
                ));
            }
            assert(out@ =~= head + spec_ingredients_json(views.take(i + 1)));
        }
        i = i + 1;
    }
    push_lit(&mut out, "]}");
    proof {
        let views = payload_views(p.ingredients@);
        assert(views.take(n as int) =~= views);
        assert(out@ =~= spec_recipe_json(p@));
    }
    out
}


/// A run of digits bounded on both sides scans to exactly its end.
pub proof fn lemma_digit_run_exact(s: Seq<char>, i: int, j: int)
    requires
        0 <= i <= j <= s.len(),
        forall|m: int| i <= m < j ==> is_digit_char(s[m]),
        j == s.len() || !is_digit_char(s[j]),
    ensures
        digit_run_end(s, i) == j,
    decreases j - i,
{
    if i == j {
    } else {
        assert(is_digit_char(s[i]));
        lemma_digit_run_exact(s, i + 1, j);
    }
}

/// Text without quotes, backslashes or control characters escapes to
/// itself.
pub proof fn lemma_escape_plain(s: Seq<char>)
    requires
        forall|i: int|
            0 <= i < s.len() ==> s[i] != '"' && s[i] != '\\' && (#[trigger] s[i]) as u32 >= 0x20,
    ensures
        spec_escape(s) == s,
    decreases s.len(),
{
    if s.len() == 0 {
        assert(spec_escape(s) =~= s);
    } else {
        assert(forall|i: int| 0 <= i < s.skip(1).len() ==> s.skip(1)[i] == s[i + 1]);
        lemma_escape_plain(s.skip(1));
        assert(esc_char(s[0]) == seq![s[0]]);
        assert(seq![s[0]] + s.skip(1) =~= s);
    }
}

/// Parsing a string body over escaped text recovers the text.
#[verifier::rlimit(100)]
pub proof fn lemma_string_body_round(s: Seq<char>, j: int, content: Seq<char>)
    requires
        0 <= j,
        j + spec_escape(content).len() < s.len(),
        s.subrange(j, j + spec_escape(content).len()) == spec_escape(content),
        s[j + spec_escape(content).len()] == '"',
    ensures
        string_body(s, j) == Some((content, j + spec_escape(content).len() + 1)),
    decreases content.len(),
{
    let esc = spec_escape(content);
    if content.len() == 0 {
        assert(esc =~= Seq::<char>::empty());
        assert(s[j] == '"');
        assert(string_body(s, j) == Some((Seq::<char>::empty(), j + 1)));
        assert(content =~= Seq::<char>::empty());
    } else {
        let c = content[0];
        let e0 = esc_char(c);
        let rest = content.skip(1);
        let esc_r = spec_escape(rest);
        assert(esc == e0 + esc_r);
        assert forall|m: int| 0 <= m < esc.len() implies #[trigger] s[j + m] == esc[m] by {
            assert(s.subrange(j, j + esc.len() as int)[m] == s[j + m]);
        }
        assert forall|m: int| 0 <= m < e0.len() implies #[trigger] s[j + m] == e0[m] by {
            assert(esc[m] == e0[m]);
        }
        let j2 = j + e0.len();
        assert(s.subrange(j2, j2 + esc_r.len()) =~= esc_r) by {
            assert forall|m: int|
                0 <= m < esc_r.len() implies #[trigger] s.subrange(
                j2,
                j2 + esc_r.len() as int,
            )[m] == esc_r[m] by {
                assert(s.subrange(j2, j2 + esc_r.len() as int)[m] == s[j2 + m]);
                assert(esc[e0.len() + m] == esc_r[m]);
                assert(s[j2 + m] == esc[e0.len() + m]);
            }
        }
        assert(s[j2 + esc_r.len()] == '"');
        lemma_string_body_round(s, j2, rest);
        assert(seq![c] + rest =~= content);
        assert(s[j + 0] == e0[0]);
        if c == '"' {
            assert(s[j] == '\\' && s[j + 1] == '"');
            assert(string_body(s, j) == cons_char('"', string_body(s, j + 2)));
        } else if c == '\\' {
            assert(s[j] == '\\' && s[j + 1] == '\\');
            assert(string_body(s, j) == cons_char('\\', string_body(s, j + 2)));
        } else if (c as u32) < 0x20 {
            let u = c as u32;
            assert(s[j] == '\\' && s[j + 1] == 'u' && s[j + 2] == '0' && s[j + 3] == '0'
                && s[j + 4] == spec_hex_char((u / 16) as u8) && s[j + 5] == spec_hex_char(
                (u % 16) as u8,
            ));
            lemma_hex_char_val((u / 16) as u8);
            lemma_hex_char_val((u % 16) as u8);
            assert(spec_hex_val(s[j + 2]) == Some(0u8));
            assert(spec_hex_val(s[j + 3]) == Some(0u8));
            assert(j + 2 + 4 <= s.len());
            let code = spec_hex4(s, j + 2).unwrap();
            assert(code == (u / 16) * 16 + u % 16);
            vstd::arithmetic::div_mod::lemma_fundamental_div_mod(u as int, 16);
            assert(code == u);
            assert(code < 0x20);
            vstd::utf8::char_u32_cast(c, u);
            assert(code as char == c);
            assert(string_body(s, j) == cons_char(c, string_body(s, j + 6)));
        } else {
            assert(e0 == seq![c]);
            assert(s[j + 0] == e0[0]);
            assert(s[j] == c);
            assert(s[j] != '"' && s[j] != '\\' && (s[j] as u32) >= 0x20);
            assert(string_body(s, j) == cons_char(c, string_body(s, j + 1)));
        }
    }
}

/// Parsing a quoted string recovers the text.
pub proof fn lemma_parse_string_round(s: Seq<char>, i: int, content: Seq<char>)
    requires
        0 <= i,
        i + spec_quoted(content).len() <= s.len(),
        s.subrange(i, i + spec_quoted(content).len()) == spec_quoted(content),
    ensures
        spec_parse_string(s, i) == Some((content, i + spec_quoted(content).len())),
{
    let q = spec_quoted(content);
    let esc = spec_escape(content);
    assert(q.len() == esc.len() + 2);
    assert(forall|m: int| 0 <= m < q.len() ==> s[i + m] == q[m]) by {
        assert(forall|m: int| 0 <= m < q.len() ==> #[trigger] s.subrange(i, i + q.len())[m] == s[i + m]);
    }
    assert(q[0] == '"');
    assert(s[i] == '"');
    assert(s.subrange(i + 1, i + 1 + esc.len()) =~= esc) by {
        assert(forall|m: int|
            0 <= m < esc.len() ==> #[trigger] s.subrange(i + 1, i + 1 + esc.len())[m] == s[i
                + 1 + m] && q[1 + m] == esc[m]);
    }
    assert(q[1 + esc.len() as int] == '"');
    assert(s[i + 1 + esc.len()] == '"');
    lemma_string_body_round(s, i + 1, content);
}

/// Parsing the decimal text of an id recovers the id.
pub proof fn lemma_parse_uint_round(s: Seq<char>, i: int, v: u64)
    requires
        v < u64::MAX,
        0 <= i,
        i + digit_chars(spec_digits_of(v as nat)).len() <= s.len(),
        s.subrange(i, i + digit_chars(spec_digits_of(v as nat)).len()) == digit_chars(
            spec_digits_of(v as nat),
        ),
        i + digit_chars(spec_digits_of(v as nat)).len() == s.len() || !is_digit_char(
            s[i + digit_chars(spec_digits_of(v as nat)).len()],
        ),
    ensures
        spec_parse_json_uint(s, i) == Some((v, i + digit_chars(spec_digits_of(v as nat)).len())),
{
    let ds = spec_digits_of(v as nat);
    let enc = digit_chars(ds);
    crate::decimal::lemma_spec_digits_of(v as nat);
    assert forall|m: int| 0 <= m < enc.len() implies #[trigger] s[i + m] == enc[m] by {
        assert(s.subrange(i, i + enc.len() as int)[m] == s[i + m]);
    }
    assert forall|m: int| i <= m < i + enc.len() implies is_digit_char(#[trigger] s[m]) by {
        assert(s[i + (m - i)] == enc[m - i]);
        assert(enc[m - i] == spec_digit_char(ds[m - i]));
        assert(ds[m - i] <= 9);
    }
    assert(is_digit_char(s[i]));
    lemma_digit_run_exact(s, i, i + enc.len());
    assert(digit_vals(s, i, i + enc.len()) =~= ds) by {
        assert forall|m: int|
            0 <= m < ds.len() implies #[trigger] digit_vals(s, i, i + enc.len())[m] == ds[m] by {
            assert(s[i + m] == enc[m]);
            assert(enc[m] == spec_digit_char(ds[m]));
            assert(ds[m] <= 9);
            assert(spec_char_digit(spec_digit_char(ds[m])) == ds[m]);
        }
    }
    if v == 0 {
        assert(ds =~= seq![0u8]);
        assert(s[i] == spec_digit_char(0));
        assert(s[i] == '0') by {
            vstd::utf8::char_u32_cast('0', 48);
        }
        assert(digit_vals(s, i, i + 1) =~= seq![0u8]);
    } else {
        assert(ds[0] != 0);
        assert(s[i] == spec_digit_char(ds[0]));
        assert(s[i] != '0') by {
            if s[i] == '0' {
                assert(spec_char_digit(s[i]) == ds[0]);
                assert(('0' as u32) == 48);
                assert(spec_char_digit('0') == 0);
                assert(false);
            }
        }
    }
}


/// The padded fraction digits denote the fraction.
pub proof fn lemma_frac4(frac: int)
    requires
        0 < frac < 10000,
    ensures
        all_digits(frac4_digits(frac)),
        digits_value(frac4_digits(frac)) == frac,
        frac4_digits(frac).len() == 4,
{
    crate::decimal::lemma_spec_digits_of(frac as nat);
    assert(pow10(4) == 10000) by {
        reveal_with_fuel(pow10, 5);
    }
    crate::decimal::lemma_spec_digits_of_len(frac as nat, 4);
    let ds = spec_digits_of(frac as nat);
    let zeros = Seq::new((4 - ds.len()) as nat, |i: int| 0u8);
    assert(frac4_digits(frac) =~= zeros + ds);
    crate::decimal::lemma_digits_value_concat(zeros, ds);
    crate::decimal::lemma_digits_value_zero(zeros);
    assert(digits_value(zeros) == 0);
    assert(digits_value(zeros + ds) == frac);
}

/// How the canonical text of a magnitude reads back: the scan finds the
/// same mantissa and shift, ending exactly at the text's end.
#[verifier::rlimit(100)]
pub proof fn lemma_units_text_parses(s: Seq<char>, p: int, u: int)
    requires
        0 <= u < QUANTITY_LIMIT,
        0 <= p,
        p + spec_units_chars(u).len() <= s.len(),
        s.subrange(p, p + spec_units_chars(u).len()) == spec_units_chars(u),
        p + spec_units_chars(u).len() == s.len() || !(is_digit_char(
            s[p + spec_units_chars(u).len()],
        ) || s[p + spec_units_chars(u).len()] == '.' || s[p + spec_units_chars(u).len()] == 'e'
            || s[p + spec_units_chars(u).len()] == 'E'),
    ensures
        ({
            let i1 = if s[p] == '0' {
                p + 1
            } else {
                digit_run_end(s, p)
            };
            let has_dot = i1 < s.len() && s[i1] == '.';
            let fs = i1 + 1;
            let i2 = if has_dot {
                digit_run_end(s, fs)
            } else {
                i1
            };
            let mantissa = digit_vals(s, p, i1) + (
            if has_dot {
                digit_vals(s, fs, i2)
            } else {
                Seq::empty()
            });
            let frac_len = if has_dot {
                i2 - fs
            } else {
                0
            };
            &&& is_digit_char(s[p])
            &&& !(has_dot && i2 == fs)
            &&& i2 == p + spec_units_chars(u).len()
            &&& !(i2 < s.len() && (s[i2] == 'e' || s[i2] == 'E'))
            &&& scaled_value(mantissa, 4 - frac_len) == u
        }),
{
    let enc = spec_units_chars(u);
    let whole = u / 10000;
    let frac = u % 10000;
    vstd::arithmetic::div_mod::lemma_fundamental_div_mod(u, 10000);
    crate::decimal::lemma_spec_digits_of(whole as nat);
    let wd = spec_digits_of(whole as nat);
    let wc = digit_chars(wd);
    assert(pow10(4) == 10000) by {
        reveal_with_fuel(pow10, 5);
    }
    assert forall|m: int| 0 <= m < enc.len() implies #[trigger] s[p + m] == enc[m] by {
        assert(s.subrange(p, p + enc.len() as int)[m] == s[p + m]);
    }
    assert forall|m: int| 0 <= m < wc.len() implies #[trigger] s[p + m] == wc[m] by {
        assert(enc[m] == wc[m]);
    }
    assert forall|m: int| p <= m < p + wc.len() implies is_digit_char(#[trigger] s[m]) by {
        assert(s[p + (m - p)] == wc[m - p]);
        assert(wc[m - p] == spec_digit_char(wd[m - p]));
        assert(wd[m - p] <= 9);
    }
    assert(s[p + 0] == wc[0]);
    assert(is_digit_char(s[p]));
    // the character just after the whole digits
    let wend = p + wc.len();
    if frac == 0 {
        assert(enc == wc);
        assert(wend == s.len() || !is_digit_char(s[wend]));
        lemma_digit_run_exact(s, p, wend);
        let i1 = if s[p] == '0' {
            p + 1
        } else {
            digit_run_end(s, p)
        };
        if whole == 0 {
            assert(wd =~= seq![0u8]);
            assert(s[p] == spec_digit_char(0));
            vstd::utf8::char_u32_cast('0', 48);
            assert(s[p] == '0');
            assert(i1 == p + 1);
            assert(i1 == wend);
        } else {
            assert(wd[0] != 0);
            assert(s[p] != '0') by {
                if s[p] == '0' {
                    assert(spec_char_digit(s[p]) == wd[0]);
                    assert(spec_char_digit('0') == 0);
                    assert(false);
                }
            }
            assert(i1 == wend);
        }
        assert(!(i1 < s.len() && s[i1] == '.'));
        let mantissa = digit_vals(s, p, i1) + Seq::<u8>::empty();
        assert(digit_vals(s, p, i1) =~= wd) by {
            assert forall|m: int|
                0 <= m < wd.len() implies #[trigger] digit_vals(s, p, i1)[m] == wd[m] by {
                assert(s[p + m] == wc[m]);
                assert(wc[m] == spec_digit_char(wd[m]));
                assert(wd[m] <= 9);
            }
        }
        assert(mantissa =~= wd);
        assert(scaled_value(mantissa, 4) == whole * 10000) by {
            assert(digits_value(wd) == whole);
        }
        assert(scaled_value(mantissa, 4 - 0) == u);
        assert(!(i1 < s.len() && (s[i1] == 'e' || s[i1] == 'E')));
    } else {
        lemma_frac4(frac);
        lemma_drop_trailing_zeros(frac4_digits(frac));
        let trimmed = drop_trailing_zeros(frac4_digits(frac));
        let tl = trimmed.len() as int;
        let fc = digit_chars(trimmed);
        assert(enc == wc + seq!['.'] + fc);
        assert(tl >= 1);
        assert(tl <= 4);
        // characters of the three parts
        assert(enc.len() == wc.len() + 1 + tl);
        assert(s[wend] == '.') by {
            assert(enc[wc.len() as int] == '.');
        }
        lemma_digit_run_exact(s, p, wend);
        let i1 = if s[p] == '0' {
            p + 1
        } else {
            digit_run_end(s, p)
        };
        if whole == 0 {
            assert(wd =~= seq![0u8]);
            assert(s[p] == spec_digit_char(0));
            vstd::utf8::char_u32_cast('0', 48);
            assert(s[p] == '0');
            assert(i1 == wend);
        } else {
            assert(wd[0] != 0);
            assert(s[p] != '0') by {
                if s[p] == '0' {
                    assert(spec_char_digit(s[p]) == wd[0]);
                    assert(spec_char_digit('0') == 0);
                    assert(false);
                }
            }
            assert(i1 == wend);
        }
        assert(i1 < s.len()) by {
            assert(i1 + 1 + tl == p + enc.len());
        }
        assert(s[i1] == '.');
        let fs = i1 + 1;
        assert forall|m: int| 0 <= m < tl implies #[trigger] s[fs + m] == fc[m] by {
            assert(enc[wc.len() + 1 + m] == fc[m]);
            assert(s[p + (wc.len() + 1 + m)] == enc[wc.len() + 1 + m]);
        }
        assert forall|m: int| fs <= m < fs + tl implies is_digit_char(#[trigger] s[m]) by {
            assert(s[fs + (m - fs)] == fc[m - fs]);
            assert(fc[m - fs] == spec_digit_char(trimmed[m - fs]));
            assert(trimmed[m - fs] <= 9);
        }
        assert(fs + tl == p + enc.len());
        assert(fs + tl == s.len() || !is_digit_char(s[fs + tl]));
        lemma_digit_run_exact(s, fs, fs + tl);
        let i2 = digit_run_end(s, fs);
        assert(i2 == fs + tl);
        assert(i2 > fs);
        let fvals = digit_vals(s, fs, i2);
        assert(fvals =~= trimmed) by {
            assert forall|m: int|
                0 <= m < tl implies #[trigger] digit_vals(s, fs, i2)[m] == trimmed[m] by {
                assert(s[fs + m] == fc[m]);
                assert(fc[m] == spec_digit_char(trimmed[m]));
                assert(trimmed[m] <= 9);
            }
        }
        let wvals = digit_vals(s, p, i1);
        assert(wvals =~= wd) by {
            assert forall|m: int|
                0 <= m < wd.len() implies #[trigger] digit_vals(s, p, i1)[m] == wd[m] by {
                assert(s[p + m] == wc[m]);
                assert(wc[m] == spec_digit_char(wd[m]));
                assert(wd[m] <= 9);
            }
        }
        let mantissa = wvals + fvals;
        crate::decimal::lemma_digits_value_concat(wd, trimmed);
        let tv = digits_value(trimmed);
        assert(digits_value(mantissa) == whole * pow10(tl as nat) + tv);
        // the trimmed fraction scaled back up is the fraction
        assert(frac == tv * pow10((4 - tl) as nat));
        let k = 4 - tl;
        assert(k >= 0);
        assert(scaled_value(mantissa, k) == digits_value(mantissa) * pow10(k as nat));
        crate::decimal::lemma_pow10_adds(tl as nat, k as nat);
        assert(pow10(tl as nat) * pow10(k as nat) == 10000);
        assert((whole * pow10(tl as nat) + tv) * pow10(k as nat) == whole * 10000 + tv * pow10(
            k as nat,
        )) by (nonlinear_arith)
            requires
                pow10(tl as nat) * pow10(k as nat) == 10000,
        ;
        assert(scaled_value(mantissa, k) == whole * 10000 + frac);
        assert(scaled_value(mantissa, k) == u);
        assert(!(i2 < s.len() && (s[i2] == 'e' || s[i2] == 'E')));
        assert(i2 == p + enc.len());
    }
}

/// Parsing the canonical text of a quantity recovers the quantity.
pub proof fn lemma_parse_number_round(s: Seq<char>, i: int, v: int)
    requires
        payload_quantity_wf(v),
        0 <= i,
        i + spec_signed_units_chars(v).len() <= s.len(),
        s.subrange(i, i + spec_signed_units_chars(v).len()) == spec_signed_units_chars(v),
        i + spec_signed_units_chars(v).len() == s.len() || !(is_digit_char(
            s[i + spec_signed_units_chars(v).len()],
        ) || s[i + spec_signed_units_chars(v).len()] == '.' || s[i + spec_signed_units_chars(
            v,
        ).len()] == 'e' || s[i + spec_signed_units_chars(v).len()] == 'E'),
    ensures
        spec_parse_json_number(s, i) == Some((v, i + spec_signed_units_chars(v).len())),
{
    let enc = spec_signed_units_chars(v);
    assert forall|m: int| 0 <= m < enc.len() implies #[trigger] s[i + m] == enc[m] by {
        assert(s.subrange(i, i + enc.len() as int)[m] == s[i + m]);
    }
    if v < 0 {
        let u = -v;
        let ue = spec_units_chars(u);
        assert(enc == seq!['-'] + ue);
        assert(s[i + 0] == enc[0]);
        assert(s[i] == '-');
        let p = i + 1;
        assert(s.subrange(p, p + ue.len()) =~= ue) by {
            assert forall|m: int|
                0 <= m < ue.len() implies #[trigger] s.subrange(p, p + ue.len() as int)[m]
                    == ue[m] by {
                assert(s.subrange(p, p + ue.len() as int)[m] == s[p + m]);
                assert(s[i + (1 + m)] == enc[1 + m]);
                assert(enc[1 + m] == ue[m]);
            }
        }
        lemma_units_text_parses(s, p, u);
        assert(spec_parse_json_number(s, i) == Some((v, i + enc.len())));
    } else {
        let ue = spec_units_chars(v);
        assert(enc == ue);
        lemma_units_text_parses(s, i, v);
        assert(is_digit_char(s[i]));
        assert(s[i] != '-') by {
            if s[i] == '-' {
                assert(('-' as u32) == 45);
                assert(is_digit_char('-'));
                assert(false);
            }
        }
        assert(spec_parse_json_number(s, i) == Some((v, i + enc.len())));
    }
}


/// One scan step over an ingredient member whose pieces are known.
pub proof fn lemma_ing_member_unfold(
    s: Seq<char>,
    cur: int,
    key: Seq<char>,
    j0: int,
    e0: int,
    acc: PartialIngredient,
    acc2: PartialIngredient,
    more: bool,
)
    requires
        0 <= cur < s.len(),
        !is_json_ws(s[cur]),
        spec_parse_string(s, cur) == Some((key, j0)),
        cur < j0 < s.len(),
        s[j0] == ':',
        !is_json_ws(s[j0]),
        j0 + 1 < s.len(),
        !is_json_ws(s[j0 + 1]),
        spec_ing_member_value(s, j0 + 1, key, acc) == Some((acc2, e0)),
        cur < e0 < s.len(),
        !is_json_ws(s[e0]),
        more ==> s[e0] == ',',
        !more ==> s[e0] == '}',
    ensures
        more ==> spec_ing_members(s, cur, acc) == spec_ing_members(s, e0 + 1, acc2),
        !more ==> spec_ing_members(s, cur, acc) == (match complete_ingredient(acc2) {
            Some(v) => Some((v, e0 + 1)),
            None => None,
        }),
{
    assert(ws_end(s, cur) == cur);
    assert(ws_end(s, j0) == j0);
    assert(ws_end(s, j0 + 1) == j0 + 1);
    assert(ws_end(s, e0) == e0);
    assert(s[e0] != ':');
}

/// One scan step over a recipe member whose pieces are known.
pub proof fn lemma_recipe_member_unfold(
    s: Seq<char>,
    cur: int,
    key: Seq<char>,
    j0: int,
    e0: int,
    acc: PartialRecipe,
    acc2: PartialRecipe,
    more: bool,
)
    requires
        0 <= cur < s.len(),
        !is_json_ws(s[cur]),
        spec_parse_string(s, cur) == Some((key, j0)),
        cur < j0 < s.len(),
        s[j0] == ':',
        !is_json_ws(s[j0]),
        j0 + 1 < s.len(),
        !is_json_ws(s[j0 + 1]),
        spec_recipe_member_value(s, j0 + 1, key, acc) == Some((acc2, e0)),
        cur < e0 < s.len(),
        !is_json_ws(s[e0]),
        more ==> s[e0] == ',',
        !more ==> s[e0] == '}',
    ensures
        more ==> spec_recipe_members(s, cur, acc) == spec_recipe_members(s, e0 + 1, acc2),
        !more ==> spec_recipe_members(s, cur, acc) == (match complete_recipe(acc2) {
            Some(v) => Some((v, e0 + 1)),
            None => None,
        }),
{
    assert(ws_end(s, cur) == cur);
    assert(ws_end(s, j0) == j0);
    assert(ws_end(s, j0 + 1) == j0 + 1);
    assert(ws_end(s, e0) == e0);
    assert(s[e0] != ':');
}

/// The standing requirements shared by the staged ingredient proofs.
pub open spec fn ing_round_pre(s: Seq<char>, i: int, p: IngredientPayloadView) -> bool {
    &&& ingredient_payload_wf(p)
    &&& 0 <= i
    &&& i + spec_ingredient_json(p).len() <= s.len()
    &&& s.subrange(i, i + spec_ingredient_json(p).len()) == spec_ingredient_json(p)
}

/// Offset of the quoted name inside an ingredient's text.
pub open spec fn ing_off_name(p: IngredientPayloadView) -> int {
    6 + digit_chars(spec_digits_of(p.id as nat)).len() as int + 8
}

/// Offset of the protein value inside an ingredient's text.
pub open spec fn ing_off_protein(p: IngredientPayloadView) -> int {
    ing_off_name(p) + spec_quoted(p.name).len() as int + 11
}

/// Offset of the net-carbs value inside an ingredient's text.
pub open spec fn ing_off_carbs(p: IngredientPayloadView) -> int {
    ing_off_protein(p) + spec_signed_units_chars(p.protein).len() as int + 7
        + spec_signed_units_chars(p.fat).len() as int + 13
}

/// Offset of the closing brace of an ingredient's text.
pub open spec fn ing_off_end(p: IngredientPayloadView) -> int {
    ing_off_carbs(p) + spec_signed_units_chars(p.net_carbs).len() as int + 12
        + spec_signed_units_chars(p.servings).len() as int
}

/// Offset of the fat value inside an ingredient's text.
pub open spec fn ing_off_fat(p: IngredientPayloadView) -> int {
    ing_off_protein(p) + spec_signed_units_chars(p.protein).len() as int + 7
}

/// Offset of the servings value inside an ingredient's text.
pub open spec fn ing_off_servings(p: IngredientPayloadView) -> int {
    ing_off_carbs(p) + spec_signed_units_chars(p.net_carbs).len() as int + 12
}

/// A slice equals a piece known character by character.
pub proof fn lemma_sub_from_points(s: Seq<char>, a: int, part: Seq<char>)
    requires
        0 <= a,
        a + part.len() <= s.len(),
        forall|m: int| 0 <= m < part.len() ==> #[trigger] s[a + m] == part[m],
    ensures
        s.subrange(a, a + part.len()) == part,
{
    assert(s.subrange(a, a + part.len()) =~= part) by {
        assert forall|m: int|
            0 <= m < part.len() implies #[trigger] s.subrange(a, a + part.len() as int)[m]
                == part[m] by {
            assert(s.subrange(a, a + part.len() as int)[m] == s[a + m]);
        }
    }
}

/// Where each piece of an ingredient's text sits: the text, character by
/// character, piece by piece.
#[verifier::rlimit(100)]
#[verifier::spinoff_prover]
proof fn lemma_ing_layout(s: Seq<char>, i: int, p: IngredientPayloadView)
    requires
        ing_round_pre(s, i, p),
    ensures
        forall|m: int| 0 <= m < 6 ==> #[trigger] s[i + m] == "{\"id\":"@[m],
        forall|m: int|
            0 <= m < digit_chars(spec_digits_of(p.id as nat)).len() ==> #[trigger] s[i + 6 + m]
                == digit_chars(spec_digits_of(p.id as nat))[m],
        forall|m: int|
            0 <= m < 8 ==> #[trigger] s[i + ing_off_name(p) - 8 + m] == ",\"name\":"@[m],
        forall|m: int|
            0 <= m < spec_quoted(p.name).len() ==> #[trigger] s[i + ing_off_name(p) + m]
                == spec_quoted(p.name)[m],
        forall|m: int|
            0 <= m < 11 ==> #[trigger] s[i + ing_off_protein(p) - 11 + m] == ",\"protein\":"@[m],
        forall|m: int|
            0 <= m < spec_signed_units_chars(p.protein).len() ==> #[trigger] s[i + ing_off_protein(
                p,
            ) + m] == spec_signed_units_chars(p.protein)[m],
        forall|m: int| 0 <= m < 7 ==> #[trigger] s[i + ing_off_fat(p) - 7 + m] == ",\"fat\":"@[m],
        forall|m: int|
            0 <= m < spec_signed_units_chars(p.fat).len() ==> #[trigger] s[i + ing_off_fat(p) + m]
                == spec_signed_units_chars(p.fat)[m],
        forall|m: int|
            0 <= m < 13 ==> #[trigger] s[i + ing_off_carbs(p) - 13 + m] == ",\"net_carbs\":"@[m],
        forall|m: int|
            0 <= m < spec_signed_units_chars(p.net_carbs).len() ==> #[trigger] s[i + ing_off_carbs(
                p,
            ) + m] == spec_signed_units_chars(p.net_carbs)[m],
        forall|m: int|
            0 <= m < 12 ==> #[trigger] s[i + ing_off_servings(p) - 12 + m] == ",\"servings\":"@[m],
        forall|m: int|
            0 <= m < spec_signed_units_chars(p.servings).len() ==> #[trigger] s[i
                + ing_off_servings(p) + m] == spec_signed_units_chars(p.servings)[m],
        s[i + ing_off_end(p)] == '}',
        i + spec_ingredient_json(p).len() == i + ing_off_end(p) + 1,
{
    let enc = spec_ingredient_json(p);
    let k1 = "{\"id\":"@;
    let idc = digit_chars(spec_digits_of(p.id as nat));
    let k2 = ",\"name\":"@;
    let qn = spec_quoted(p.name);
    let k3 = ",\"protein\":"@;
    let pc = spec_signed_units_chars(p.protein);
    let k4 = ",\"fat\":"@;
    let fc = spec_signed_units_chars(p.fat);
    let k5 = ",\"net_carbs\":"@;
    let cc = spec_signed_units_chars(p.net_carbs);
    let k6 = ",\"servings\":"@;
    let sc = spec_signed_units_chars(p.servings);
    {
        reveal_strlit("{\"id\":");
        reveal_strlit(",\"name\":");
        reveal_strlit(",\"protein\":");
        reveal_strlit(",\"fat\":");
        reveal_strlit(",\"net_carbs\":");
        reveal_strlit(",\"servings\":");
        reveal_strlit("}");
    }
    let t1 = k1 + idc;
    let t2 = t1 + k2;
    let t3 = t2 + qn;
    let t4 = t3 + k3;
    let t5 = t4 + pc;
    let t6 = t5 + k4;
    let t7 = t6 + fc;
    let t8 = t7 + k5;
    let t9 = t8 + cc;
    let t10 = t9 + k6;
    let t11 = t10 + sc;
    assert(enc == t11 + "}"@);
    assert forall|m: int| 0 <= m < enc.len() implies #[trigger] s[i + m] == enc[m] by {
        assert(s.subrange(i, i + enc.len() as int)[m] == s[i + m]);
    }
    assert forall|m: int| 0 <= m < 6 implies #[trigger] s[i + m] == k1[m] by {
        assert(s[i + m] == enc[m]);
        assert(enc[m] == t11[m] && t11[m] == t10[m] && t10[m] == t9[m] && t9[m] == t8[m] && t8[m]
            == t7[m] && t7[m] == t6[m] && t6[m] == t5[m] && t5[m] == t4[m] && t4[m] == t3[m]
            && t3[m] == t2[m] && t2[m] == t1[m] && t1[m] == k1[m]);
    }
    assert forall|m: int| 0 <= m < idc.len() implies #[trigger] s[i + 6 + m] == idc[m] by {
        let x = 6 + m;
        assert(s[i + x] == enc[x]);
        assert(enc[x] == t11[x] && t11[x] == t10[x] && t10[x] == t9[x] && t9[x] == t8[x] && t8[x]
            == t7[x] && t7[x] == t6[x] && t6[x] == t5[x] && t5[x] == t4[x] && t4[x] == t3[x]
            && t3[x] == t2[x] && t2[x] == t1[x] && t1[x] == idc[m]);
    }
    assert forall|m: int|
        0 <= m < 8 implies #[trigger] s[i + ing_off_name(p) - 8 + m] == k2[m] by {
        let x = ing_off_name(p) - 8 + m;
        assert(s[i + x] == enc[x]);
        assert(enc[x] == t11[x] && t11[x] == t10[x] && t10[x] == t9[x] && t9[x] == t8[x] && t8[x]
            == t7[x] && t7[x] == t6[x] && t6[x] == t5[x] && t5[x] == t4[x] && t4[x] == t3[x]
            && t3[x] == t2[x] && t2[x] == k2[m]);
    }
    assert forall|m: int|
        0 <= m < qn.len() implies #[trigger] s[i + ing_off_name(p) + m] == qn[m] by {
        let x = ing_off_name(p) + m;
        assert(s[i + x] == enc[x]);
        assert(enc[x] == t11[x] && t11[x] == t10[x] && t10[x] == t9[x] && t9[x] == t8[x] && t8[x]
            == t7[x] && t7[x] == t6[x] && t6[x] == t5[x] && t5[x] == t4[x] && t4[x] == t3[x]
            && t3[x] == qn[m]);
    }
    assert forall|m: int|
        0 <= m < 11 implies #[trigger] s[i + ing_off_protein(p) - 11 + m] == k3[m] by {
        let x = ing_off_protein(p) - 11 + m;
        assert(s[i + x] == enc[x]);
        assert(enc[x] == t11[x] && t11[x] == t10[x] && t10[x] == t9[x] && t9[x] == t8[x] && t8[x]
            == t7[x] && t7[x] == t6[x] && t6[x] == t5[x] && t5[x] == t4[x] && t4[x] == k3[m]);
    }
    assert forall|m: int|
        0 <= m < pc.len() implies #[trigger] s[i + ing_off_protein(p) + m] == pc[m] by {
        let x = ing_off_protein(p) + m;
        assert(s[i + x] == enc[x]);
        assert(enc[x] == t11[x] && t11[x] == t10[x] && t10[x] == t9[x] && t9[x] == t8[x] && t8[x]
            == t7[x] && t7[x] == t6[x] && t6[x] == t5[x] && t5[x] == pc[m]);
    }
    assert forall|m: int|
        0 <= m < 7 implies #[trigger] s[i + ing_off_fat(p) - 7 + m] == k4[m] by {
        let x = ing_off_fat(p) - 7 + m;
        assert(s[i + x] == enc[x]);
        assert(enc[x] == t11[x] && t11[x] == t10[x] && t10[x] == t9[x] && t9[x] == t8[x] && t8[x]
            == t7[x] && t7[x] == t6[x] && t6[x] == k4[m]);
    }
    assert forall|m: int|
        0 <= m < fc.len() implies #[trigger] s[i + ing_off_fat(p) + m] == fc[m] by {
        let x = ing_off_fat(p) + m;
        assert(s[i + x] == enc[x]);
        assert(enc[x] == t11[x] && t11[x] == t10[x] && t10[x] == t9[x] && t9[x] == t8[x] && t8[x]
            == t7[x] && t7[x] == fc[m]);
    }
    assert forall|m: int|
        0 <= m < 13 implies #[trigger] s[i + ing_off_carbs(p) - 13 + m] == k5[m] by {
        let x = ing_off_carbs(p) - 13 + m;
        assert(s[i + x] == enc[x]);
        assert(enc[x] == t11[x] && t11[x] == t10[x] && t10[x] == t9[x] && t9[x] == t8[x] && t8[x]
            == k5[m]);
    }
    assert forall|m: int|
        0 <= m < cc.len() implies #[trigger] s[i + ing_off_carbs(p) + m] == cc[m] by {
        let x = ing_off_carbs(p) + m;
        assert(s[i + x] == enc[x]);
        assert(enc[x] == t11[x] && t11[x] == t10[x] && t10[x] == t9[x] && t9[x] == cc[m]);
    }
    assert forall|m: int|
        0 <= m < 12 implies #[trigger] s[i + ing_off_servings(p) - 12 + m] == k6[m] by {
        let x = ing_off_servings(p) - 12 + m;
        assert(s[i + x] == enc[x]);
        assert(enc[x] == t11[x] && t11[x] == t10[x] && t10[x] == k6[m]);
    }
    assert forall|m: int|
        0 <= m < sc.len() implies #[trigger] s[i + ing_off_servings(p) + m] == sc[m] by {
        let x = ing_off_servings(p) + m;
        assert(s[i + x] == enc[x]);
        assert(enc[x] == t11[x] && t11[x] == sc[m]);
    }
    assert(s[i + ing_off_end(p)] == '}') by {
        let x = ing_off_end(p);
        assert(s[i + x] == enc[x]);
        assert(enc[x] == "}"@[0]);
    }
}

/// The id member of an encoded ingredient.
#[verifier::rlimit(100)]
#[verifier::spinoff_prover]
proof fn lemma_ing_round_m1(s: Seq<char>, i: int, p: IngredientPayloadView)
    requires
        ing_round_pre(s, i, p),
    ensures
        spec_ing_members(s, i + 1, empty_partial()) == spec_ing_members(
            s,
            i + ing_off_name(p) - 7,
            PartialIngredient { id: Some(p.id), ..empty_partial() },
        ),
{
    lemma_ing_layout(s, i, p);
    {
        reveal_strlit("{\"id\":");
        reveal_strlit(",\"name\":");
        reveal_strlit("id");
    }
    let k1 = "{\"id\":"@;
    let k2 = ",\"name\":"@;
    let idc = digit_chars(spec_digits_of(p.id as nat));
    crate::decimal::lemma_spec_digits_of(p.id as nat);
    lemma_escape_plain("id"@);
    let q_id = spec_quoted("id"@);
    assert(q_id.len() == 4);
    assert forall|m: int| 0 <= m < 4 implies #[trigger] s[i + 1 + m] == q_id[m] by {
        assert(s[i + (1 + m)] == k1[1 + m]);
        assert(q_id[m] == k1[1 + m]);
    }
    lemma_sub_from_points(s, i + 1, q_id);
    lemma_parse_string_round(s, i + 1, "id"@);
    lemma_sub_from_points(s, i + 6, idc);
    assert(s[i + ing_off_name(p) - 8 + 0] == k2[0]);
    assert(s[i + ing_off_name(p) - 8] == ',');
    assert(!is_digit_char(',')) by {
        assert((',' as u32) == 44);
    }
    lemma_parse_uint_round(s, i + 6, p.id);
    let acc0 = empty_partial();
    let acc1 = PartialIngredient { id: Some(p.id), ..acc0 };
    assert(spec_ing_member_value(s, i + 6, "id"@, acc0) == Some(
        (acc1, i + ing_off_name(p) - 8),
    ));
    assert(s[i + 1] == '"' && s[i + 5] == ':') by {
        assert(s[i + 1 + 0] == q_id[0]);
        assert(s[i + 5] == k1[5]);
    }
    assert(s[i + 6 + 0] == idc[0]);
    assert(idc[0] == spec_digit_char(spec_digits_of(p.id as nat)[0]));
    lemma_ing_member_unfold(
        s,
        i + 1,
        "id"@,
        i + 5,
        i + ing_off_name(p) - 8,
        acc0,
        acc1,
        true,
    );
}

/// The name member of an encoded ingredient.
#[verifier::rlimit(100)]
#[verifier::spinoff_prover]
proof fn lemma_ing_round_m2(s: Seq<char>, i: int, p: IngredientPayloadView)
    requires
        ing_round_pre(s, i, p),
    ensures
        spec_ing_members(
            s,
            i + ing_off_name(p) - 7,
            PartialIngredient { id: Some(p.id), ..empty_partial() },
        ) == spec_ing_members(
            s,
            i + ing_off_protein(p) - 10,
            PartialIngredient { id: Some(p.id), name: Some(p.name), ..empty_partial() },
        ),
{
    lemma_ing_layout(s, i, p);
    {
        reveal_strlit(",\"name\":");
        reveal_strlit(",\"protein\":");
        reveal_strlit("id");
        reveal_strlit("name");
    }
    let k2 = ",\"name\":"@;
    let k3 = ",\"protein\":"@;
    let qn = spec_quoted(p.name);
    let cur = i + ing_off_name(p) - 7;
    lemma_escape_plain("name"@);
    let q_name = spec_quoted("name"@);
    assert(q_name.len() == 6);
    assert forall|m: int| 0 <= m < 6 implies #[trigger] s[cur + m] == q_name[m] by {
        assert(s[i + ing_off_name(p) - 8 + (1 + m)] == k2[1 + m]);
        assert(q_name[m] == k2[1 + m]);
    }
    lemma_sub_from_points(s, cur, q_name);
    lemma_parse_string_round(s, cur, "name"@);
    lemma_sub_from_points(s, i + ing_off_name(p), qn);
    lemma_parse_string_round(s, i + ing_off_name(p), p.name);
    assert(s[i + ing_off_protein(p) - 11 + 0] == k3[0]);
    assert(s[i + ing_off_protein(p) - 11] == ',');
    let acc1 = PartialIngredient { id: Some(p.id), ..empty_partial() };
    let acc2 = PartialIngredient { name: Some(p.name), ..acc1 };
    assert("name"@ != "id"@);
    assert(spec_ing_member_value(s, i + ing_off_name(p), "name"@, acc1) == Some(
        (acc2, i + ing_off_protein(p) - 11),
    ));
    assert(s[cur + 0] == q_name[0]);
    assert(s[i + ing_off_name(p) - 8 + 7] == k2[7]);
    assert(s[i + ing_off_name(p) - 1] == ':');
    assert(s[i + ing_off_name(p) + 0] == qn[0]);
    assert(qn[0] == '"');
    lemma_ing_member_unfold(
        s,
        cur,
        "name"@,
        i + ing_off_name(p) - 1,
        i + ing_off_protein(p) - 11,
        acc1,
        acc2,
        true,
    );
}

/// The protein member of an encoded ingredient.
#[verifier::rlimit(100)]
#[verifier::spinoff_prover]
proof fn lemma_ing_round_m3(s: Seq<char>, i: int, p: IngredientPayloadView)
    requires
        ing_round_pre(s, i, p),
    ensures
        spec_ing_members(
            s,
            i + ing_off_protein(p) - 10,
            PartialIngredient { id: Some(p.id), name: Some(p.name), ..empty_partial() },
        ) == spec_ing_members(
            s,
            i + ing_off_fat(p) - 6,
            PartialIngredient {
                id: Some(p.id),
                name: Some(p.name),
                protein: Some(p.protein),
                ..empty_partial()
            },
        ),
{
    lemma_ing_layout(s, i, p);
    {
        reveal_strlit(",\"protein\":");
        reveal_strlit(",\"fat\":");
        reveal_strlit("id");
        reveal_strlit("name");
        reveal_strlit("protein");
    }
    let k3 = ",\"protein\":"@;
    let k4 = ",\"fat\":"@;
    let pc = spec_signed_units_chars(p.protein);
    let cur = i + ing_off_protein(p) - 10;
    lemma_escape_plain("protein"@);
    let q_protein = spec_quoted("protein"@);
    assert(q_protein.len() == 9);
    assert forall|m: int| 0 <= m < 9 implies #[trigger] s[cur + m] == q_protein[m] by {
        assert(s[i + ing_off_protein(p) - 11 + (1 + m)] == k3[1 + m]);
        assert(q_protein[m] == k3[1 + m]);
    }
    lemma_sub_from_points(s, cur, q_protein);
    lemma_parse_string_round(s, cur, "protein"@);
    lemma_sub_from_points(s, i + ing_off_protein(p), pc);
    assert(s[i + ing_off_fat(p) - 7 + 0] == k4[0]);
    assert(s[i + ing_off_fat(p) - 7] == ',');
    assert(!is_digit_char(',')) by {
        assert((',' as u32) == 44);
    }
    lemma_parse_number_round(s, i + ing_off_protein(p), p.protein);
    let acc2 = PartialIngredient { id: Some(p.id), name: Some(p.name), ..empty_partial() };
    let acc3 = PartialIngredient { protein: Some(p.protein), ..acc2 };
    assert("protein"@ != "id"@ && "protein"@ != "name"@);
    assert(spec_ing_member_value(s, i + ing_off_protein(p), "protein"@, acc2) == Some(
        (acc3, i + ing_off_fat(p) - 7),
    ));
    assert(s[cur + 0] == q_protein[0]);
    assert(s[i + ing_off_protein(p) - 11 + 10] == k3[10]);
    assert(s[i + ing_off_protein(p) - 1] == ':');
    assert(s[i + ing_off_protein(p) + 0] == pc[0]);
    lemma_ing_member_unfold(
        s,
        cur,
        "protein"@,
        i + ing_off_protein(p) - 1,
        i + ing_off_fat(p) - 7,
        acc2,
        acc3,
        true,
    );
}

/// The fat member of an encoded ingredient.
#[verifier::rlimit(100)]
#[verifier::spinoff_prover]
proof fn lemma_ing_round_m4(s: Seq<char>, i: int, p: IngredientPayloadView)
    requires
        ing_round_pre(s, i, p),
    ensures
        spec_ing_members(
            s,
            i + ing_off_fat(p) - 6,
            PartialIngredient {
                id: Some(p.id),
                name: Some(p.name),
                protein: Some(p.protein),
                ..empty_partial()
            },
        ) == spec_ing_members(
            s,
            i + ing_off_carbs(p) - 12,
            PartialIngredient {
                id: Some(p.id),
                name: Some(p.name),
                protein: Some(p.protein),
                fat: Some(p.fat),
                ..empty_partial()
            },
        ),
{
    lemma_ing_layout(s, i, p);
    {
        reveal_strlit(",\"fat\":");
        reveal_strlit(",\"net_carbs\":");
        reveal_strlit("id");
        reveal_strlit("name");
        reveal_strlit("protein");
        reveal_strlit("fat");
    }
    let k4 = ",\"fat\":"@;
    let k5 = ",\"net_carbs\":"@;
    let fc = spec_signed_units_chars(p.fat);
    let cur = i + ing_off_fat(p) - 6;
    lemma_escape_plain("fat"@);
    let q_fat = spec_quoted("fat"@);
    assert(q_fat.len() == 5);
    assert forall|m: int| 0 <= m < 5 implies #[trigger] s[cur + m] == q_fat[m] by {
        assert(s[i + ing_off_fat(p) - 7 + (1 + m)] == k4[1 + m]);
        assert(q_fat[m] == k4[1 + m]);
    }
    lemma_sub_from_points(s, cur, q_fat);
    lemma_parse_string_round(s, cur, "fat"@);
    lemma_sub_from_points(s, i + ing_off_fat(p), fc);
    assert(s[i + ing_off_carbs(p) - 13 + 0] == k5[0]);
    assert(s[i + ing_off_carbs(p) - 13] == ',');
    assert(!is_digit_char(',')) by {
        assert((',' as u32) == 44);
    }
    lemma_parse_number_round(s, i + ing_off_fat(p), p.fat);
    let acc3 = PartialIngredient {
        id: Some(p.id),
        name: Some(p.name),
        protein: Some(p.protein),
        ..empty_partial()
    };
    let acc4 = PartialIngredient { fat: Some(p.fat), ..acc3 };
    assert("fat"@ != "id"@ && "fat"@ != "name"@ && "fat"@ != "protein"@);
    assert(spec_ing_member_value(s, i + ing_off_fat(p), "fat"@, acc3) == Some(
        (acc4, i + ing_off_carbs(p) - 13),
    ));
    assert(s[cur + 0] == q_fat[0]);
    assert(s[i + ing_off_fat(p) - 7 + 6] == k4[6]);
    assert(s[i + ing_off_fat(p) - 1] == ':');
    assert(s[i + ing_off_fat(p) + 0] == fc[0]);
    lemma_ing_member_unfold(
        s,
        cur,
        "fat"@,
        i + ing_off_fat(p) - 1,
        i + ing_off_carbs(p) - 13,
        acc3,
        acc4,
        true,
    );
}

/// The parsing facts for the net-carbs member of an encoded ingredient.
#[verifier::rlimit(100)]
#[verifier::spinoff_prover]
proof fn lemma_ing_m5_parses(s: Seq<char>, i: int, p: IngredientPayloadView)
    requires
        ing_round_pre(s, i, p),
    ensures
        spec_parse_string(s, i + ing_off_carbs(p) - 12) == Some(
            ("net_carbs"@, i + ing_off_carbs(p) - 1),
        ),
        spec_parse_json_number(s, i + ing_off_carbs(p)) == Some(
            (p.net_carbs, i + ing_off_servings(p) - 12),
        ),
        s[i + ing_off_carbs(p) - 12] == '"',
        s[i + ing_off_carbs(p) - 1] == ':',
        is_digit_char(s[i + ing_off_carbs(p)]) || s[i + ing_off_carbs(p)] == '-',
        s[i + ing_off_servings(p) - 12] == ',',
        i + ing_off_carbs(p) - 12 < s.len(),
        i + ing_off_servings(p) - 12 < s.len(),
{
    lemma_ing_layout(s, i, p);
    {
        reveal_strlit(",\"net_carbs\":");
        reveal_strlit(",\"servings\":");
        reveal_strlit("net_carbs");
    }
    let k5 = ",\"net_carbs\":"@;
    let k6 = ",\"servings\":"@;
    let cc = spec_signed_units_chars(p.net_carbs);
    let cur = i + ing_off_carbs(p) - 12;
    lemma_escape_plain("net_carbs"@);
    let q_carbs = spec_quoted("net_carbs"@);
    assert(q_carbs.len() == 11);
    assert forall|m: int| 0 <= m < 11 implies #[trigger] s[cur + m] == q_carbs[m] by {
        assert(s[i + ing_off_carbs(p) - 13 + (1 + m)] == k5[1 + m]);
        assert(q_carbs[m] == k5[1 + m]);
    }
    lemma_sub_from_points(s, cur, q_carbs);
    lemma_parse_string_round(s, cur, "net_carbs"@);
    lemma_sub_from_points(s, i + ing_off_carbs(p), cc);
    assert(s[i + ing_off_servings(p) - 12 + 0] == k6[0]);
    assert(s[i + ing_off_servings(p) - 12] == ',');
    assert(!is_digit_char(',')) by {
        assert((',' as u32) == 44);
    }
    lemma_parse_number_round(s, i + ing_off_carbs(p), p.net_carbs);
    assert(s[cur + 0] == q_carbs[0]);
    assert(s[i + ing_off_carbs(p) - 13 + 12] == k5[12]);
    assert(s[i + ing_off_carbs(p) - 1] == ':');
    assert(s[i + ing_off_carbs(p) + 0] == cc[0]);
    if p.net_carbs < 0 {
        assert(cc[0] == '-');
    } else {
        assert(is_digit_char(cc[0]));
    }
}

/// The net-carbs member of an encoded ingredient.
#[verifier::rlimit(100)]
#[verifier::spinoff_prover]
proof fn lemma_ing_round_m5(s: Seq<char>, i: int, p: IngredientPayloadView)
    requires
        ing_round_pre(s, i, p),
    ensures
        spec_ing_members(
            s,
            i + ing_off_carbs(p) - 12,
            PartialIngredient {
                id: Some(p.id),
                name: Some(p.name),
                protein: Some(p.protein),
                fat: Some(p.fat),
                ..empty_partial()
            },
        ) == spec_ing_members(
            s,
            i + ing_off_servings(p) - 11,
            PartialIngredient {
                id: Some(p.id),
                name: Some(p.name),
                protein: Some(p.protein),
                fat: Some(p.fat),
                net_carbs: Some(p.net_carbs),
                ..empty_partial()
            },
        ),
{
    lemma_ing_m5_parses(s, i, p);
    {
        reveal_strlit("id");
        reveal_strlit("name");
        reveal_strlit("protein");
        reveal_strlit("fat");
        reveal_strlit("net_carbs");
    }
    let cur = i + ing_off_carbs(p) - 12;
    let acc4 = PartialIngredient {
        id: Some(p.id),
        name: Some(p.name),
        protein: Some(p.protein),
        fat: Some(p.fat),
        ..empty_partial()
    };
    let acc5 = PartialIngredient { net_carbs: Some(p.net_carbs), ..acc4 };
    assert("net_carbs"@.len() == 9);
    assert("id"@.len() == 2 && "name"@.len() == 4 && "protein"@.len() == 7 && "fat"@.len()
        == 3);
    assert("net_carbs"@ != "id"@ && "net_carbs"@ != "name"@ && "net_carbs"@ != "protein"@
        && "net_carbs"@ != "fat"@);
    assert(spec_ing_member_value(s, i + ing_off_carbs(p), "net_carbs"@, acc4) == Some(
        (acc5, i + ing_off_servings(p) - 12),
    ));
    lemma_ing_member_unfold(
        s,
        cur,
        "net_carbs"@,
        i + ing_off_carbs(p) - 1,
        i + ing_off_servings(p) - 12,
        acc4,
        acc5,
        true,
    );
}

/// The servings member and the closing brace of an encoded ingredient.
#[verifier::rlimit(100)]
#[verifier::spinoff_prover]
proof fn lemma_ing_round_m6(s: Seq<char>, i: int, p: IngredientPayloadView)
    requires
        ing_round_pre(s, i, p),
    ensures
        spec_ing_members(
            s,
            i + ing_off_servings(p) - 11,
            PartialIngredient {
                id: Some(p.id),
                name: Some(p.name),
                protein: Some(p.protein),
                fat: Some(p.fat),
                net_carbs: Some(p.net_carbs),
                ..empty_partial()
            },
        ) == Some((p, i + spec_ingredient_json(p).len())),
{
    lemma_ing_layout(s, i, p);
    {
        reveal_strlit(",\"servings\":");
        reveal_strlit("}");
        reveal_strlit("id");
        reveal_strlit("name");
        reveal_strlit("protein");
        reveal_strlit("fat");
        reveal_strlit("net_carbs");
        reveal_strlit("servings");
    }
    let k6 = ",\"servings\":"@;
    let sc = spec_signed_units_chars(p.servings);
    let cur = i + ing_off_servings(p) - 11;
    lemma_escape_plain("servings"@);
    let q_servings = spec_quoted("servings"@);
    assert(q_servings.len() == 10);
    assert forall|m: int| 0 <= m < 10 implies #[trigger] s[cur + m] == q_servings[m] by {
        assert(s[i + ing_off_servings(p) - 12 + (1 + m)] == k6[1 + m]);
        assert(q_servings[m] == k6[1 + m]);
    }
    lemma_sub_from_points(s, cur, q_servings);
    lemma_parse_string_round(s, cur, "servings"@);
    lemma_sub_from_points(s, i + ing_off_servings(p), sc);
    assert(s[i + ing_off_end(p)] == '}');
    assert(!is_digit_char('}')) by {
        assert(('}' as u32) == 125);
    }
    lemma_parse_number_round(s, i + ing_off_servings(p), p.servings);
    let acc5 = PartialIngredient {
        id: Some(p.id),
        name: Some(p.name),
        protein: Some(p.protein),
        fat: Some(p.fat),
        net_carbs: Some(p.net_carbs),
        ..empty_partial()
    };
    let acc6 = PartialIngredient { servings: Some(p.servings), ..acc5 };
    assert("servings"@ != "id"@ && "servings"@ != "name"@ && "servings"@ != "protein"@
        && "servings"@ != "fat"@ && "servings"@ != "net_carbs"@);
    assert(spec_ing_member_value(s, i + ing_off_servings(p), "servings"@, acc5) == Some(
        (acc6, i + ing_off_end(p)),
    ));
    assert(s[cur + 0] == q_servings[0]);
    assert(s[i + ing_off_servings(p) - 12 + 11] == k6[11]);
    assert(s[i + ing_off_servings(p) - 1] == ':');
    assert(s[i + ing_off_servings(p) + 0] == sc[0]);
    lemma_ing_member_unfold(
        s,
        cur,
        "servings"@,
        i + ing_off_servings(p) - 1,
        i + ing_off_end(p),
        acc5,
        acc6,
        false,
    );
    assert(complete_ingredient(acc6) == Some(p));
}

/// Parsing the canonical text of an ingredient recovers the ingredient.
pub proof fn lemma_parse_ingredient_round(s: Seq<char>, i: int, p: IngredientPayloadView)
    requires
        ing_round_pre(s, i, p),
    ensures
        spec_parse_ingredient(s, i) == Some((p, i + spec_ingredient_json(p).len())),
{
    lemma_ing_round_m1(s, i, p);
    lemma_ing_round_m2(s, i, p);
    lemma_ing_round_m3(s, i, p);
    lemma_ing_round_m4(s, i, p);
    lemma_ing_round_m5(s, i, p);
    lemma_ing_round_m6(s, i, p);
    lemma_ing_layout(s, i, p);
    {
        reveal_strlit("{\"id\":");
    }
    assert(s[i + 0] == "{\"id\":"@[0]);
    assert(s[i] == '{');
}


/// Parsing the encoded, comma-separated elements recovers the list.
#[verifier::rlimit(100)]
#[verifier::spinoff_prover]
pub proof fn lemma_elements_round(
    s: Seq<char>,
    i: int,
    ps: Seq<IngredientPayloadView>,
    acc: Seq<IngredientPayloadView>,
)
    requires
        ps.len() >= 1,
        forall|j: int| 0 <= j < ps.len() ==> ingredient_payload_wf(#[trigger] ps[j]),
        0 <= i,
        i + spec_ingredients_json(ps).len() < s.len(),
        s.subrange(i, i + spec_ingredients_json(ps).len()) == spec_ingredients_json(ps),
        s[i + spec_ingredients_json(ps).len()] == ']',
    ensures
        spec_ing_elements(s, i, acc) == Some(
            (acc + ps, i + spec_ingredients_json(ps).len() + 1),
        ),
        s[i] == '{',
    decreases ps.len(),
{
    let enc = spec_ingredients_json(ps);
    let e0j = spec_ingredient_json(ps[0]);
    assert forall|m: int| 0 <= m < enc.len() implies #[trigger] s[i + m] == enc[m] by {
        assert(s.subrange(i, i + enc.len() as int)[m] == s[i + m]);
    }
    if ps.len() == 1 {
        assert(enc == e0j);
        lemma_sub_from_points(s, i, e0j);
        assert(ing_round_pre(s, i, ps[0]));
        lemma_parse_ingredient_round(s, i, ps[0]);
        assert(s[i] == '{') by {
            if s[i] != '{' {
                assert(spec_parse_ingredient(s, i) is None);
            }
        }
        assert(ws_end(s, i) == i);
        let e0 = i + e0j.len();
        assert(s[e0] == ']');
        assert(ws_end(s, e0) == e0);
        assert(s[e0] != ',');
        assert(acc.push(ps[0]) =~= acc + ps);
    } else {
        let rest = ps.drop_first();
        let renc = spec_ingredients_json(rest);
        assert(enc == e0j + seq![','] + renc);
        assert forall|m: int| 0 <= m < e0j.len() implies #[trigger] s[i + m] == e0j[m] by {
            assert(enc[m] == (e0j + seq![','])[m]);
            assert((e0j + seq![','])[m] == e0j[m]);
        }
        lemma_sub_from_points(s, i, e0j);
        assert(ing_round_pre(s, i, ps[0])) by {
            assert(ingredient_payload_wf(ps[0]));
        }
        lemma_parse_ingredient_round(s, i, ps[0]);
        assert(s[i] == '{') by {
            if s[i] != '{' {
                assert(spec_parse_ingredient(s, i) is None);
            }
        }
        assert(ws_end(s, i) == i);
        let e0 = i + e0j.len();
        assert(s[e0] == ',') by {
            assert(enc[e0j.len() as int] == (e0j + seq![','])[e0j.len() as int]);
        }
        assert(ws_end(s, e0) == e0);
        let nx = e0 + 1;
        assert forall|m: int| 0 <= m < renc.len() implies #[trigger] s[nx + m] == renc[m] by {
            assert(s[i + (e0j.len() + 1 + m)] == enc[e0j.len() + 1 + m]);
            assert(enc[e0j.len() + 1 + m] == renc[m]);
        }
        lemma_sub_from_points(s, nx, renc);
        assert(nx + renc.len() == i + enc.len());
        assert forall|j: int| 0 <= j < rest.len() implies ingredient_payload_wf(
            #[trigger] rest[j],
        ) by {
            assert(rest[j] == ps[j + 1]);
        }
        lemma_elements_round(s, nx, rest, acc.push(ps[0]));
        assert(acc.push(ps[0]) + rest =~= acc + ps);
    }
}


/// How a named recipe's name member sits in its text.
#[verifier::rlimit(100)]
#[verifier::spinoff_prover]
proof fn lemma_recipe_name_member(p: RecipePayloadView)
    requires
        recipe_payload_wf(p),
        p.name is Some,
    ensures
        spec_recipe_json(p)[0] == '{',
        spec_parse_string(spec_recipe_json(p), 1) == Some(("name"@, 7int)),
        spec_recipe_json(p)[1] == '"',
        spec_recipe_json(p)[7] == ':',
        spec_recipe_json(p)[8] == '"',
        spec_parse_string(spec_recipe_json(p), 8) == Some(
            (p.name.unwrap(), 8 + spec_quoted(p.name.unwrap()).len() as int),
        ),
        spec_recipe_json(p)[8 + spec_quoted(p.name.unwrap()).len() as int] == ',',
{
    let s = spec_recipe_json(p);
    let n = p.name.unwrap();
    let qn = spec_quoted(n);
    let it = spec_ingredients_json(p.ingredients);
    {
        reveal_strlit("{");
        reveal_strlit("\"name\":");
        reveal_strlit(",");
        reveal_strlit("name");
    }
    let np = "\"name\":"@ + qn + ","@;
    assert(s == "{"@ + np + "\"ingredients\":["@ + it + "]}"@);
    let o_qn: int = 8;
    let o_comma: int = 8 + qn.len() as int;
    assert forall|m: int| 0 <= m < np.len() implies #[trigger] s[1 + m] == np[m] by {
        assert(s[1 + m] == (("{"@ + np + "\"ingredients\":["@) + it)[1 + m]);
        assert((("{"@ + np) + "\"ingredients\":["@)[1 + m] == ("{"@ + np)[1 + m]);
    }
    assert(s[0] == '{') by {
        assert(s[0] == (("{"@ + np + "\"ingredients\":["@) + it)[0]);
        assert(("{"@ + np)[0] == "{"@[0]);
    }
    lemma_escape_plain("name"@);
    let q_name = spec_quoted("name"@);
    assert(q_name.len() == 6);
    assert forall|m: int| 0 <= m < 6 implies #[trigger] s[1 + m] == q_name[m] by {
        assert(np[m] == ("\"name\":"@ + qn)[m]);
        assert(("\"name\":"@ + qn)[m] == "\"name\":"@[m]);
        assert(q_name[m] == "\"name\":"@[m]);
    }
    lemma_sub_from_points(s, 1, q_name);
    lemma_parse_string_round(s, 1, "name"@);
    assert(s[1int + 6] == np[6] && np[6] == ("\"name\":"@ + qn)[6] && ("\"name\":"@ + qn)[6]
        == "\"name\":"@[6]);
    assert(s[7] == ':');
    assert forall|m: int| 0 <= m < qn.len() implies #[trigger] s[o_qn + m] == qn[m] by {
        assert(s[1 + (7 + m)] == np[7 + m]);
        assert(np[7 + m] == ("\"name\":"@ + qn)[7 + m]);
        assert(("\"name\":"@ + qn)[7 + m] == qn[m]);
    }
    lemma_sub_from_points(s, o_qn, qn);
    lemma_parse_string_round(s, o_qn, n);
    assert(s[o_qn + 0] == qn[0]);
    assert(s[o_comma] == ',') by {
        assert(s[1 + (o_comma - 1)] == np[o_comma - 1]);
        assert(np[o_comma - 1] == ","@[0]);
    }
}

/// How the ingredients member sits in a recipe's text, given where its
/// key begins.
#[verifier::rlimit(100)]
#[verifier::spinoff_prover]
proof fn lemma_recipe_ings_member(p: RecipePayloadView, o_ki: int)
    requires
        recipe_payload_wf(p),
        o_ki == (match p.name {
            Some(n) => 9 + spec_quoted(n).len() as int,
            None => 1,
        }),
    ensures
        spec_parse_string(spec_recipe_json(p), o_ki) == Some(("ingredients"@, o_ki + 13)),
        spec_recipe_json(p)[o_ki] == '"',
        spec_recipe_json(p)[o_ki + 13] == ':',
        spec_recipe_json(p)[o_ki + 14] == '[',
        spec_parse_ingredients(spec_recipe_json(p), o_ki + 14) == Some(
            (
                p.ingredients,
                o_ki + 15 + spec_ingredients_json(p.ingredients).len() as int + 1,
            ),
        ),
        spec_recipe_json(p)[o_ki + 15 + spec_ingredients_json(p.ingredients).len() as int + 1]
            == '}',
        spec_recipe_json(p).len() == o_ki + 15 + spec_ingredients_json(p.ingredients).len()
            as int + 2,
{
    let s = spec_recipe_json(p);
    let ps = p.ingredients;
    let it = spec_ingredients_json(ps);
    {
        reveal_strlit("{");
        reveal_strlit("\"name\":");
        reveal_strlit(",");
        reveal_strlit("\"ingredients\":[");
        reveal_strlit("]}");
        reveal_strlit("ingredients");
    }
    let np = match p.name {
        Some(n) => "\"name\":"@ + spec_quoted(n) + ","@,
        None => Seq::<char>::empty(),
    };
    assert(s == "{"@ + np + "\"ingredients\":["@ + it + "]}"@);
    assert(np.len() == o_ki - 1);
    let o_items: int = o_ki + 15;
    let o_close: int = o_items + it.len();
    assert(s.len() == o_close + 2);
    assert forall|m: int| 0 <= m < 15 implies #[trigger] s[o_ki + m] == "\"ingredients\":["@[m]
        by {
        assert(s[o_ki + m] == (("{"@ + np + "\"ingredients\":["@) + it)[o_ki + m]);
        assert((("{"@ + np) + "\"ingredients\":["@)[o_ki + m] == "\"ingredients\":["@[m]);
    }
    lemma_escape_plain("ingredients"@);
    let q_ing = spec_quoted("ingredients"@);
    assert(q_ing.len() == 13);
    assert forall|m: int| 0 <= m < 13 implies #[trigger] s[o_ki + m] == q_ing[m] by {
        assert(q_ing[m] == "\"ingredients\":["@[m]);
    }
    lemma_sub_from_points(s, o_ki, q_ing);
    lemma_parse_string_round(s, o_ki, "ingredients"@);
    assert(s[o_ki + 0] == q_ing[0]);
    assert(s[o_ki + 13] == ':');
    assert(s[o_ki + 14] == '[');
    assert(s[o_close] == ']' && s[o_close + 1] == '}') by {
        assert(s[o_close] == "]}"@[0] && s[o_close + 1] == "]}"@[1]);
    }
    if ps.len() == 0 {
        assert(it =~= Seq::<char>::empty());
        assert(o_items == o_close);
        assert(ws_end(s, o_ki + 15) == o_items);
        assert(spec_parse_ingredients(s, o_ki + 14) == Some(
            (Seq::<IngredientPayloadView>::empty(), o_close + 1),
        ));
        assert(ps =~= Seq::<IngredientPayloadView>::empty());
    } else {
        assert forall|m: int| 0 <= m < it.len() implies #[trigger] s[o_items + m] == it[m] by {
            assert(s[o_items + m] == (("{"@ + np + "\"ingredients\":["@) + it)[o_items + m]);
        }
        lemma_sub_from_points(s, o_items, it);
        lemma_elements_round(s, o_items, ps, Seq::<IngredientPayloadView>::empty());
        assert(ws_end(s, o_items) == o_items);
        assert(Seq::<IngredientPayloadView>::empty() + ps =~= ps);
        assert(spec_parse_ingredients(s, o_ki + 14) == Some((ps, o_close + 1)));
    }
}

/// Parsing an encoded recipe that carries a name.
#[verifier::rlimit(100)]
#[verifier::spinoff_prover]
proof fn lemma_recipe_round_named(p: RecipePayloadView)
    requires
        recipe_payload_wf(p),
        p.name is Some,
    ensures
        spec_parse_recipe_json(spec_recipe_json(p)) == Some(p),
{
    lemma_recipe_name_member(p);
    let o_ki: int = 9 + spec_quoted(p.name.unwrap()).len() as int;
    lemma_recipe_ings_member(p, o_ki);
    let s = spec_recipe_json(p);
    let n = p.name.unwrap();
    let ps = p.ingredients;
    let o_comma: int = 8 + spec_quoted(n).len() as int;
    let o_close: int = o_ki + 15 + spec_ingredients_json(ps).len() as int;
    {
        reveal_strlit("name");
        reveal_strlit("ingredients");
    }
    let acc0 = PartialRecipe { name: None, ingredients: None };
    let acc1 = PartialRecipe { name: Some(Some(n)), ingredients: None };
    let acc2 = PartialRecipe { name: Some(Some(n)), ingredients: Some(ps) };
    assert(!null_at(s, 8));
    assert(spec_recipe_member_value(s, 8, "name"@, acc0) == Some((acc1, o_comma)));
    lemma_recipe_member_unfold(s, 1, "name"@, 7, o_comma, acc0, acc1, true);
    assert("ingredients"@.len() == 11 && "name"@.len() == 4);
    assert("ingredients"@ != "name"@);
    assert(spec_recipe_member_value(s, o_ki + 14, "ingredients"@, acc1) == Some(
        (acc2, o_close + 1),
    ));
    lemma_recipe_member_unfold(
        s,
        o_ki,
        "ingredients"@,
        o_ki + 13,
        o_close + 1,
        acc1,
        acc2,
        false,
    );
    assert(complete_recipe(acc2) == Some(p));
    assert(ws_end(s, 0) == 0);
    assert(spec_recipe_members(s, 1, acc0) == Some((p, o_close + 2)));
    assert(ws_end(s, o_close + 2) == s.len());
}

/// Parsing an encoded recipe without a name.
#[verifier::rlimit(100)]
#[verifier::spinoff_prover]
proof fn lemma_recipe_round_unnamed(p: RecipePayloadView)
    requires
        recipe_payload_wf(p),
        p.name is None,
    ensures
        spec_parse_recipe_json(spec_recipe_json(p)) == Some(p),
{
    lemma_recipe_ings_member(p, 1);
    let s = spec_recipe_json(p);
    let ps = p.ingredients;
    let o_close: int = 16 + spec_ingredients_json(ps).len() as int;
    {
        reveal_strlit("{");
        reveal_strlit("\"ingredients\":[");
        reveal_strlit("name");
        reveal_strlit("ingredients");
    }
    assert(s[0] == '{') by {
        let np = Seq::<char>::empty();
        let it = spec_ingredients_json(ps);
        assert(s == "{"@ + np + "\"ingredients\":["@ + it + "]}"@);
        assert(s[0] == (("{"@ + np + "\"ingredients\":["@) + it)[0]);
        assert(("{"@ + np)[0] == "{"@[0]);
    }
    let acc0 = PartialRecipe { name: None, ingredients: None };
    let acc2 = PartialRecipe { name: None, ingredients: Some(ps) };
    assert("ingredients"@.len() == 11 && "name"@.len() == 4);
    assert("ingredients"@ != "name"@);
    assert(spec_recipe_member_value(s, 15, "ingredients"@, acc0) == Some((acc2, o_close + 1)));
    lemma_recipe_member_unfold(s, 1, "ingredients"@, 14, o_close + 1, acc0, acc2, false);
    assert(complete_recipe(acc2) == Some(p));
    assert(ws_end(s, 0) == 0);
    assert(spec_recipe_members(s, 1, acc0) == Some((p, o_close + 2)));
    assert(ws_end(s, o_close + 2) == s.len());
}

/// The codec's written form reads back as what was written: parsing the
/// canonical JSON text of any representable recipe payload recovers that
/// payload exactly.
pub proof fn lemma_recipe_json_round_trip(p: RecipePayloadView)
    requires
        recipe_payload_wf(p),
    ensures
        spec_parse_recipe_json(spec_recipe_json(p)) == Some(p),
{
    match p.name {
        Some(_) => lemma_recipe_round_named(p),
        None => lemma_recipe_round_unnamed(p),
    }
}

} // verus!
