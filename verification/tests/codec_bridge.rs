//! The recipe codec and the sync bridge: tokens, round trips, fallbacks,
//! and compatibility with ordinary JSON writers.

use base64::Engine;
use pedietcalc::bridge::{desired_fragment, fragment_token, load_from_fragment, should_replace};
use pedietcalc::codec::{decode_recipe, encode_recipe, format_input_value, payload_to_rows};
use pedietcalc::ledger::Ingredient;

fn row(id: u64, name: &str, protein: &str, fat: &str, carbs: &str, servings: &str) -> Ingredient {
    Ingredient {
        id,
        name: name.to_owned(),
        protein: protein.to_owned(),
        fat: fat.to_owned(),
        net_carbs: carbs.to_owned(),
        servings: servings.to_owned(),
    }
}

fn token_of(json: &str) -> String {
    base64::engine::general_purpose::URL_SAFE_NO_PAD.encode(json.as_bytes())
}

#[test]
fn round_trip_numeric_content() {
    let items = vec![row(0, "beef", "20", "5", "2", "1"), row(1, "oil", "0", "13.5", "0", "0.5")];
    let token = encode_recipe(&items, "chili");
    let payload = decode_recipe(&token).expect("token decodes");
    assert_eq!(payload.name.as_deref(), Some("chili"));
    assert_eq!(payload.ingredients.len(), 2);
    assert_eq!(payload.ingredients[0].id, 0);
    assert_eq!(payload.ingredients[0].name, "beef");
    assert_eq!(payload.ingredients[0].protein, 200_000);
    assert_eq!(payload.ingredients[0].fat, 50_000);
    assert_eq!(payload.ingredients[0].net_carbs, 20_000);
    assert_eq!(payload.ingredients[0].servings, 10_000);
    assert_eq!(payload.ingredients[1].fat, 135_000);
    assert_eq!(payload.ingredients[1].servings, 5_000);
}

#[test]
fn round_trip_renders_editable_text() {
    let items = vec![row(3, "x", "20", "5.25", "bad", "2")];
    let token = encode_recipe(&items, "");
    let payload = decode_recipe(&token).expect("token decodes");
    let (rows, name) = payload_to_rows(payload);
    assert_eq!(name, "");
    assert_eq!(rows.len(), 1);
    assert_eq!(rows[0].id, 3);
    assert_eq!(rows[0].name, "x");
    assert_eq!(rows[0].protein, "20.00");
    assert_eq!(rows[0].fat, "5.25");
    assert_eq!(rows[0].net_carbs, "");
    assert_eq!(rows[0].servings, "2.00");
}

#[test]
fn round_trip_name_with_escapes_and_unicode() {
    let name = "s\u{00fc}\u{00df} \"quoted\" back\\slash\nnewline \u{1f604}";
    let items = vec![row(0, name, "1", "0", "0", "1")];
    let token = encode_recipe(&items, name);
    let payload = decode_recipe(&token).expect("token decodes");
    assert_eq!(payload.name.as_deref(), Some(name));
    assert_eq!(payload.ingredients[0].name, name);
}

#[test]
fn whitespace_name_is_omitted_and_comes_back_empty() {
    let items = vec![row(0, "", "1", "0", "0", "1")];
    let token = encode_recipe(&items, "  ");
    // the encoded JSON has no name member at all
    let bytes = base64::engine::general_purpose::URL_SAFE_NO_PAD
        .decode(token.as_bytes())
        .expect("token is base64");
    let v: serde_json::Value = serde_json::from_slice(&bytes).expect("token holds JSON");
    assert!(v.get("name").is_none());
    let payload = decode_recipe(&token).expect("token decodes");
    assert!(payload.name.is_none());
    let (_, name) = payload_to_rows(payload);
    assert_eq!(name, "");
}

#[test]
fn encoded_json_is_plain_json() {
    let items = vec![row(2, "rice", "2.5", "0.3", "28", "1.5")];
    let token = encode_recipe(&items, "bowl");
    let bytes = base64::engine::general_purpose::URL_SAFE_NO_PAD
        .decode(token.as_bytes())
        .expect("token is base64");
    let v: serde_json::Value = serde_json::from_slice(&bytes).expect("token holds JSON");
    assert_eq!(v["name"], serde_json::Value::String("bowl".to_owned()));
    let ing = &v["ingredients"][0];
    assert_eq!(ing["id"], serde_json::Value::from(2u64));
    assert_eq!(ing["name"], serde_json::Value::String("rice".to_owned()));
    assert_eq!(ing["protein"].as_f64(), Some(2.5));
    assert_eq!(ing["fat"].as_f64(), Some(0.3));
    assert_eq!(ing["net_carbs"].as_f64(), Some(28.0));
    assert_eq!(ing["servings"].as_f64(), Some(1.5));
}

#[test]
fn decode_rejects_bad_base64() {
    assert!(decode_recipe("not-valid-base64!!").is_none());
}

#[test]
fn decode_rejects_bad_payloads() {
    assert!(decode_recipe(&token_of("")).is_none());
    assert!(decode_recipe(&token_of("[]")).is_none());
    assert!(decode_recipe(&token_of("{}")).is_none());
    assert!(decode_recipe(&token_of("{\"ingredients\":[{}]}")).is_none());
    assert!(decode_recipe(&token_of("{\"ingredients\":[],\"extra\":1}")).is_none());
    assert!(decode_recipe(&token_of("{\"ingredients\":[],\"ingredients\":[]}")).is_none());
    assert!(decode_recipe(&token_of("{\"ingredients\":[] trailing")).is_none());
    // out-of-range and malformed numbers
    assert!(decode_recipe(&token_of(
        "{\"ingredients\":[{\"id\":0,\"name\":\"\",\"protein\":1e30,\"fat\":0,\"net_carbs\":0,\"servings\":1}]}"
    ))
    .is_none());
    assert!(decode_recipe(&token_of(
        "{\"ingredients\":[{\"id\":0.5,\"name\":\"\",\"protein\":0,\"fat\":0,\"net_carbs\":0,\"servings\":1}]}"
    ))
    .is_none());
}

#[test]
fn decode_accepts_ordinary_json_shapes() {
    // whitespace, reordered members, a null name, escapes, exponents
    let json = " { \"ingredients\" : [ { \"servings\" : 1.5e0 , \"name\" : \"caf\\u00e9 \\u2014 \\\"x\\\"\" , \"net_carbs\" : 2 , \"id\" : 7 , \"protein\" : 2e1 , \"fat\" : 0.5 } ] , \"name\" : null } ";
    let payload = decode_recipe(&token_of(json)).expect("token decodes");
    assert!(payload.name.is_none());
    let ing = &payload.ingredients[0];
    assert_eq!(ing.id, 7);
    assert_eq!(ing.name, "caf\u{00e9} \u{2014} \"x\"");
    assert_eq!(ing.protein, 200_000);
    assert_eq!(ing.fat, 5_000);
    assert_eq!(ing.net_carbs, 20_000);
    assert_eq!(ing.servings, 15_000);
}

#[test]
fn decode_accepts_surrogate_pair_escapes() {
    let json = "{\"name\":\"\\ud83d\\ude04\",\"ingredients\":[]}";
    let payload = decode_recipe(&token_of(json)).expect("token decodes");
    assert_eq!(payload.name.as_deref(), Some("\u{1f604}"));
    // an empty list decodes to one fresh row
    let (rows, _) = payload_to_rows(payload);
    assert_eq!(rows.len(), 1);
    assert_eq!(rows[0].id, 0);
    assert_eq!(rows[0].servings, "1");
}

#[test]
fn decode_rejects_lone_surrogates() {
    let json = "{\"name\":\"\\ud83d\",\"ingredients\":[]}";
    assert!(decode_recipe(&token_of(json)).is_none());
}

#[test]
fn tiny_quantities_come_back_blank() {
    let items = vec![row(0, "", "0.001", "0", "0", "1")];
    let token = encode_recipe(&items, "");
    let payload = decode_recipe(&token).expect("token decodes");
    // the numeric content survives the codec exactly...
    assert_eq!(payload.ingredients[0].protein, 10);
    // ...but redisplays as an empty editable field
    let (rows, _) = payload_to_rows(payload);
    assert_eq!(rows[0].protein, "");
    // while the pre-decode text still contributes to totals
    let original = vec![row(0, "", "0.001", "0", "0", "1")];
    let (p, _, _) = pedietcalc::totals::compute_grand_totals(&original);
    assert_eq!(p, 10);
}

#[test]
fn format_input_value_signs_and_snaps() {
    assert_eq!(format_input_value(0), "");
    assert_eq!(format_input_value(49), "");
    assert_eq!(format_input_value(-49), "");
    assert_eq!(format_input_value(50), "0.01");
    assert_eq!(format_input_value(-30_000), "-3.00");
    assert_eq!(format_input_value(200_000), "20.00");
}

#[test]
fn fragment_token_extraction() {
    assert_eq!(fragment_token("#recipe=abc").as_deref(), Some("abc"));
    assert_eq!(fragment_token("recipe=abc").as_deref(), Some("abc"));
    assert_eq!(fragment_token("#recipe=").as_deref(), Some(""));
    assert!(fragment_token("#other=abc").is_none());
    assert!(fragment_token("").is_none());
    assert!(fragment_token("#").is_none());
}

#[test]
fn desired_fragment_round_trips_through_load() {
    let items = vec![row(0, "beef", "20", "5", "2", "1"), row(4, "oil", "0", "13.5", "0", "1")];
    let frag = desired_fragment(&items, "chili");
    assert!(frag.starts_with("#recipe="));
    let (ledger, name) = load_from_fragment(&frag);
    assert_eq!(name, "chili");
    assert_eq!(ledger.items.len(), 2);
    assert_eq!(ledger.items[0].id, 0);
    assert_eq!(ledger.items[0].name, "beef");
    assert_eq!(ledger.items[0].protein, "20.00");
    assert_eq!(ledger.items[1].id, 4);
    assert_eq!(ledger.items[1].fat, "13.50");
    assert_eq!(ledger.next_id, 5);
}

#[test]
fn load_falls_back_to_default_on_failure() {
    for bad in ["", "#x", "#recipe=not-valid-base64!!", "#recipe=AAAA"] {
        let (ledger, name) = load_from_fragment(bad);
        assert_eq!(name, "");
        assert_eq!(ledger.items.len(), 1);
        assert_eq!(ledger.items[0].id, 0);
        assert_eq!(ledger.items[0].servings, "1");
        assert_eq!(ledger.next_id, 1);
    }
}

#[test]
fn load_falls_back_on_duplicate_ids() {
    let json = "{\"ingredients\":[{\"id\":1,\"name\":\"a\",\"protein\":1,\"fat\":0,\"net_carbs\":0,\"servings\":1},{\"id\":1,\"name\":\"b\",\"protein\":2,\"fat\":0,\"net_carbs\":0,\"servings\":1}]}";
    let mut frag = "#recipe=".to_owned();
    frag.push_str(&token_of(json));
    let (ledger, name) = load_from_fragment(&frag);
    assert_eq!(name, "");
    assert_eq!(ledger.items.len(), 1);
    assert_eq!(ledger.items[0].id, 0);
}

#[test]
fn should_replace_compares_fragments() {
    assert!(!should_replace("#recipe=abc", "#recipe=abc"));
    assert!(should_replace("#recipe=abc", "#recipe=abd"));
    assert!(should_replace("", "#recipe=abc"));
}

#[test]
fn display_text_near_the_cap_reparses_close() {
    // a quantity within half a hundredth of the representable cap
    let v: i64 = 9_999_999_999_999_990;
    let text = format_input_value(v);
    assert_eq!(text, "1000000000000.00");
    let back = pedietcalc::quantity::parse_quantity(&text);
    let diff = (v - back as i64).abs();
    assert!(diff <= 50);
}

#[test]
fn tokens_use_only_url_safe_characters() {
    for name in ["", "chili", "s\u{00fc}\u{00df} \u{1f604}", ">>> ?? && =="] {
        let items = vec![row(0, name, "251", "63.75", "0.999", "2")];
        let token = encode_recipe(&items, name);
        assert!(token.chars().all(|c| {
            c.is_ascii_alphanumeric() || c == '-' || c == '_'
        }));
    }
}
