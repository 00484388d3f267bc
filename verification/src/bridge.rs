//! The sync bridge's decision logic: which fragment the address bar
//! should hold, whether it needs rewriting, and how a fragment seeds the
//! ledger on load.
//!
//! The host environment's address-bar reads and writes stay outside this
//! crate; these functions take and return plain strings.

use vstd::prelude::*;
use vstd::string::StrSliceExecFns;
use vstd::string::StringExecFns;
use crate::codec::{
    base64url_of, decode_recipe, encode_recipe, payload_to_rows, spec_decode_payload_bytes,
    spec_encode_token, spec_row_of_payload,
};
use crate::json::{recipe_payload_wf, IngredientPayloadView, RecipePayloadView};
use crate::decimal::QUANTITY_LIMIT;
use crate::json::chars_eq_str;
use crate::ledger::{is_fresh_row, Ingredient, Ledger};
use crate::text::str_to_chars;

verus! {

/// The fragment that the address bar should hold for a snapshot.
pub open spec fn spec_desired_fragment(items: Seq<Ingredient>, name: Seq<char>) -> Seq<char> {
    "#recipe="@ + spec_encode_token(items, name)
}

/// Build the address-bar fragment for a ledger snapshot and recipe name.
pub fn desired_fragment(items: &Vec<Ingredient>, name: &str) -> (r: String)
    requires
        forall|i: int| 0 <= i < items@.len() ==> (#[trigger] items@[i]).id < u64::MAX,
    ensures
        r@ == spec_desired_fragment(items@, name@),
{
    let token = encode_recipe(items, name);
    let mut out = "#recipe=".to_owned();
    out.append(token.as_str());
    out
}

/// Whether the address bar needs rewriting: only when the fragment
/// actually differs, so history is not polluted by redundant writes.
pub fn should_replace(current: &str, target: &str) -> (r: bool)
    ensures
        r == (current@ != target@),
{
    let cv = str_to_chars(current);
    !chars_eq_str(&cv, target)
}

/// The token inside an address-bar fragment, if the fragment carries one:
/// an optional leading `#`, the word `recipe=`, then the token.
pub open spec fn spec_fragment_token(h: Seq<char>) -> Option<Seq<char>> {
    let t = if h.len() > 0 && h[0] == '#' {
        h.skip(1)
    } else {
        h
    };
    if t.len() >= 7 && t.subrange(0, 7) == "recipe="@ {
        Some(t.skip(7))
    } else {
        None
    }
}

/// Extract the token from an address-bar fragment.
pub fn fragment_token(hash: &str) -> (r: Option<String>)
    ensures
        ({
            let t = spec_fragment_token(hash@);
            match r {
                None => t is None,
                Some(s) => t == Some(s@),
            }
        }),
{
    proof {
        reveal_strlit("recipe=");
    }
    let hv = str_to_chars(hash);
    let start: usize = if hv.len() > 0 && hv[0] == '#' {
        1
    } else {
        0
    };
    let ghost t: Seq<char> = hv@.skip(start as int);
    proof {
        if start == 1 {
            assert(t =~= hv@.skip(1));
        } else {
            assert(t =~= hv@);
        }
    }
    if hv.len() - start < 7 {
        return None;
    }
    if !(hv[start] == 'r' && hv[start + 1] == 'e' && hv[start + 2] == 'c' && hv[start + 3] == 'i'
        && hv[start + 4] == 'p' && hv[start + 5] == 'e' && hv[start + 6] == '=') {
        proof {
            assert(t.subrange(0, 7) != "recipe="@) by {
                reveal_strlit("recipe=");
                if t.subrange(0, 7) == "recipe="@ {
                    assert forall|k: int| 0 <= k < 7 implies t[k] == "recipe="@[k] by {
                        assert(t.subrange(0, 7)[k] == t[k]);
                    }
                    assert(t[0] == 'r' && t[1] == 'e' && t[2] == 'c' && t[3] == 'i' && t[4]
                        == 'p' && t[5] == 'e' && t[6] == '=');
                }
            }
        }
        return None;
    }
    proof {
        assert(t.subrange(0, 7) =~= "recipe="@) by {
            assert(forall|k: int| 0 <= k < 7 ==> #[trigger] t.subrange(0, 7)[k] == t[k]);
        }
    }
    let n = hv.len();
    let mut token: Vec<char> = Vec::new();
    let mut i: usize = start + 7;
    while i < n
        invariant
            n == hv@.len(),
            start + 7 <= i <= n,
            token@ == hv@.subrange(start + 7, i as int),
        decreases n - i,
    {
        token.push(hv[i]);
        proof {
            assert(hv@.subrange(start + 7, i + 1) =~= hv@.subrange(start + 7, i as int).push(
                hv@[i as int],
            ));
        }
        i = i + 1;
    }
    proof {
        assert(token@ =~= t.skip(7));
    }
    Some(crate::text::chars_to_string(&token))
}

/// A freshly seeded default state: one empty row under id 0, no name.
pub open spec fn is_default_seed(l: Ledger, name: Seq<char>) -> bool {
    &&& l.items@.len() == 1
    &&& is_fresh_row(l.items@[0], 0)
    &&& l.next_id == 1
    &&& name == Seq::<char>::empty()
}

/// Payload records with pairwise distinct ids.
pub open spec fn distinct_payload_ids(ings: Seq<IngredientPayloadView>) -> bool {
    forall|x: int, y: int| 0 <= x < y < ings.len() ==> ings[x].id != ings[y].id
}

/// A payload the ledger can hold: every record in range and no two
/// records sharing an id.
pub open spec fn spec_loadable(v: RecipePayloadView) -> bool {
    recipe_payload_wf(v) && distinct_payload_ids(v.ingredients)
}

/// The state a loadable payload seeds: its name (or the empty name), its
/// records rendered back to rows in order — or one fresh row under id 0
/// when it has none — and the counter resumed just above the largest id.
pub open spec fn seeded_from(v: RecipePayloadView, l: Ledger, name: Seq<char>) -> bool {
    &&& name == (match v.name {
        Some(n) => n,
        None => Seq::<char>::empty(),
    })
    &&& (v.ingredients.len() == 0 ==> l.items@.len() == 1 && is_fresh_row(l.items@[0], 0)
        && l.next_id == 1)
    &&& (v.ingredients.len() > 0 ==> {
        &&& l.items@.len() == v.ingredients.len()
        &&& (forall|i: int|
            0 <= i < v.ingredients.len() ==> spec_row_of_payload(
                #[trigger] v.ingredients[i],
                l.items@[i],
            ))
        &&& (exists|i: int|
            0 <= i < v.ingredients.len() && #[trigger] v.ingredients[i].id + 1 == l.next_id)
    })
}

/// What loading the bytes behind a token leaves behind: a loadable
/// payload seeds exactly its rows and name, anything else seeds the
/// default state.
pub open spec fn loaded_outcome(bs: Seq<u8>, l: Ledger, name: Seq<char>) -> bool {
    match spec_decode_payload_bytes(bs) {
        Some(v) => if spec_loadable(v) {
            seeded_from(v, l, name)
        } else {
            is_default_seed(l, name)
        },
        None => is_default_seed(l, name),
    }
}

/// Seed a ledger and recipe name from an address-bar fragment, read once
/// at load.  A fragment with no token, a token that is not an encoding,
/// a payload that does not decode, or one the ledger cannot hold all
/// fall back to the default single empty row; a loadable payload seeds
/// exactly its rows and name.
#[verifier::rlimit(100)]
pub fn load_from_fragment(hash: &str) -> (r: (Ledger, String))
    ensures
        r.0.wf(),
        spec_fragment_token(hash@) is None ==> is_default_seed(r.0, r.1@),
        spec_fragment_token(hash@) matches Some(tok) ==> {
            &&& ((forall|bs: Seq<u8>| tok != #[trigger] base64url_of(bs)) ==> is_default_seed(
                r.0,
                r.1@,
            ))
            &&& (forall|bs: Seq<u8>|
                tok == #[trigger] base64url_of(bs) ==> loaded_outcome(bs, r.0, r.1@))
        },
{
    let token = match fragment_token(hash) {
        None => {
            return (Ledger::new(), String::new());
        },
        Some(t) => t,
    };
    let ghost tok: Seq<char> = token@;
    let payload = match decode_recipe(token.as_str()) {
        None => {
            let d = (Ledger::new(), String::new());
            proof {
                assert forall|bs: Seq<u8>|
                    tok == #[trigger] base64url_of(bs) implies loaded_outcome(bs, d.0, d.1@) by {
                    assert(spec_decode_payload_bytes(bs) is None);
                }
            }
            return d;
        },
        Some(p) => p,
    };
    let ghost pv: RecipePayloadView = payload@;
    proof {
        assert forall|bs: Seq<u8>|
            tok == #[trigger] base64url_of(bs) implies spec_decode_payload_bytes(bs) == Some(
            pv,
        ) by {
            assert(spec_decode_payload_bytes(bs) == spec_decode_payload_bytes(bs));
        }
    }
    // the ledger can hold the payload only if its records are in range
    let m = payload.ingredients.len();
    let mut k: usize = 0;
    while k < m
        invariant
            m == payload.ingredients@.len(),
            k <= m,
            pv == payload@,
            spec_fragment_token(hash@) == Some(tok),
            forall|bs: Seq<u8>|
                tok == #[trigger] base64url_of(bs) ==> spec_decode_payload_bytes(bs) == Some(pv),
            forall|j: int|
                0 <= j < k ==> crate::json::ingredient_payload_wf(
                    #[trigger] payload.ingredients@[j]@,
                ),
        decreases m - k,
    {
        let row = &payload.ingredients[k];
        if !(row.id < u64::MAX && -(QUANTITY_LIMIT as i64) < row.protein && row.protein
            < QUANTITY_LIMIT as i64 && -(QUANTITY_LIMIT as i64) < row.fat && row.fat
            < QUANTITY_LIMIT as i64 && -(QUANTITY_LIMIT as i64) < row.net_carbs && row.net_carbs
            < QUANTITY_LIMIT as i64 && -(QUANTITY_LIMIT as i64) < row.servings && row.servings
            < QUANTITY_LIMIT as i64) {
            let d = (Ledger::new(), String::new());
            proof {
                assert(pv.ingredients[k as int] == payload.ingredients@[k as int]@);
                assert(!crate::json::ingredient_payload_wf(pv.ingredients[k as int]));
                assert(!recipe_payload_wf(pv));
                assert forall|bs: Seq<u8>|
                    tok == #[trigger] base64url_of(bs) implies loaded_outcome(bs, d.0, d.1@) by {
                }
            }
            return d;
        }
        k = k + 1;
    }
    proof {
        assert(recipe_payload_wf(pv)) by {
            assert(forall|j: int|
                0 <= j < pv.ingredients.len() ==> #[trigger] pv.ingredients[j]
                    == payload.ingredients@[j]@);
        }
    }
    // and only if no two records share an id
    let mut a: usize = 0;
    while a < m
        invariant
            m == payload.ingredients@.len(),
            a <= m,
            pv == payload@,
            spec_fragment_token(hash@) == Some(tok),
            forall|bs: Seq<u8>|
                tok == #[trigger] base64url_of(bs) ==> spec_decode_payload_bytes(bs) == Some(pv),
            forall|x: int, y: int|
                0 <= x < y < m && x < a ==> payload.ingredients@[x]@.id
                    != payload.ingredients@[y]@.id,
        decreases m - a,
    {
        let mut b: usize = a + 1;
        while b < m
            invariant
                m == payload.ingredients@.len(),
                a < m,
                a + 1 <= b <= m,
                pv == payload@,
                spec_fragment_token(hash@) == Some(tok),
                forall|bs: Seq<u8>|
                    tok == #[trigger] base64url_of(bs) ==> spec_decode_payload_bytes(bs)
                        == Some(pv),
                forall|y: int|
                    a < y < b ==> payload.ingredients@[a as int]@.id
                        != payload.ingredients@[y]@.id,
            decreases m - b,
        {
            if payload.ingredients[a].id == payload.ingredients[b].id {
                let d = (Ledger::new(), String::new());
                proof {
                    assert(pv.ingredients[a as int].id == pv.ingredients[b as int].id);
                    assert(!distinct_payload_ids(pv.ingredients));
                    assert forall|bs: Seq<u8>|
                        tok == #[trigger] base64url_of(bs) implies loaded_outcome(
                        bs,
                        d.0,
                        d.1@,
                    ) by {
                    }
                }
                return d;
            }
            b = b + 1;
        }
        a = a + 1;
    }
    proof {
        assert(distinct_payload_ids(pv.ingredients)) by {
            assert(forall|j: int|
                0 <= j < pv.ingredients.len() ==> #[trigger] pv.ingredients[j]
                    == payload.ingredients@[j]@);
        }
        assert(spec_loadable(pv));
    }
    let (rows, name) = payload_to_rows(payload);
    proof {
        if pv.ingredients.len() > 0 {
            assert(forall|i: int|
                0 <= i < rows@.len() ==> (#[trigger] rows@[i]).id == pv.ingredients[i].id);
        }
    }
    let ledger = Ledger::from_rows(rows);
    proof {
        if pv.ingredients.len() > 0 {
            let w = choose|i: int|
                0 <= i < ledger.items@.len() && ledger.items@[i].id + 1 == ledger.next_id;
            assert(pv.ingredients[w].id + 1 == ledger.next_id);
        }
        assert(seeded_from(pv, ledger, name@));
        assert forall|bs: Seq<u8>|
            tok == #[trigger] base64url_of(bs) implies loaded_outcome(bs, ledger, name@) by {
        }
    }
    (ledger, name)
}

} // verus!
