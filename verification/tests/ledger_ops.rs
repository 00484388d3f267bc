//! The ingredient ledger: stable identities, updates, and the
//! minimum-one-row rule.

use pedietcalc::ledger::{Ingredient, IngredientField, Ledger};

#[test]
fn new_ledger_has_one_fresh_row() {
    let l = Ledger::new();
    assert_eq!(l.items.len(), 1);
    assert_eq!(l.items[0].id, 0);
    assert_eq!(l.items[0].name, "");
    assert_eq!(l.items[0].servings, "1");
    assert_eq!(l.next_id, 1);
}

#[test]
fn add_appends_fresh_rows_with_new_ids() {
    let mut l = Ledger::new();
    l.add_ingredient();
    l.add_ingredient();
    assert_eq!(l.items.len(), 3);
    assert_eq!(l.items[1].id, 1);
    assert_eq!(l.items[2].id, 2);
    assert_eq!(l.next_id, 3);
}

#[test]
fn update_changes_only_the_addressed_row() {
    let mut l = Ledger::new();
    l.add_ingredient();
    l.update_ingredient(1, IngredientField::Protein, &"12".to_owned());
    l.update_ingredient(1, IngredientField::Name, &"beef".to_owned());
    assert_eq!(l.items[0].protein, "");
    assert_eq!(l.items[1].protein, "12");
    assert_eq!(l.items[1].name, "beef");
    assert_eq!(l.items[1].servings, "1");
}

#[test]
fn update_with_stale_id_is_ignored() {
    let mut l = Ledger::new();
    l.update_ingredient(99, IngredientField::Protein, &"12".to_owned());
    assert_eq!(l.items.len(), 1);
    assert_eq!(l.items[0].protein, "");
}

#[test]
fn remove_keeps_other_rows_and_their_ids() {
    let mut l = Ledger::new();
    l.add_ingredient();
    l.add_ingredient();
    l.remove_ingredient(1);
    assert_eq!(l.items.len(), 2);
    assert_eq!(l.items[0].id, 0);
    assert_eq!(l.items[1].id, 2);
    assert_eq!(l.next_id, 3);
}

#[test]
fn remove_with_stale_id_is_ignored() {
    let mut l = Ledger::new();
    l.add_ingredient();
    l.remove_ingredient(77);
    assert_eq!(l.items.len(), 2);
}

#[test]
fn removing_the_only_row_mints_a_fresh_one() {
    let mut l = Ledger::new();
    l.update_ingredient(0, IngredientField::Protein, &"12".to_owned());
    l.remove_ingredient(0);
    assert_eq!(l.items.len(), 1);
    assert_eq!(l.items[0].id, 1);
    assert_eq!(l.items[0].protein, "");
    assert_eq!(l.items[0].servings, "1");
    assert_eq!(l.next_id, 2);
}

#[test]
fn fresh_id_after_removal_was_never_used() {
    let mut l = Ledger::new();
    l.add_ingredient();
    l.remove_ingredient(0);
    l.remove_ingredient(1);
    // both original ids are gone; the replacement id is brand new
    assert_eq!(l.items.len(), 1);
    assert_eq!(l.items[0].id, 2);
}

#[test]
fn from_rows_resumes_the_counter_above_the_largest_id() {
    let rows = vec![
        Ingredient {
            id: 4,
            name: "a".to_owned(),
            protein: String::new(),
            fat: String::new(),
            net_carbs: String::new(),
            servings: "1".to_owned(),
        },
        Ingredient {
            id: 9,
            name: "b".to_owned(),
            protein: String::new(),
            fat: String::new(),
            net_carbs: String::new(),
            servings: "1".to_owned(),
        },
    ];
    let l = Ledger::from_rows(rows);
    assert_eq!(l.next_id, 10);
    let mut l = l;
    l.add_ingredient();
    assert_eq!(l.items[2].id, 10);
}
