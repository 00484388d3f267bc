//! The ingredient ledger: an ordered list of ingredient rows with stable
//! identities, plus the counter that mints them.
//!
//! Rows are addressed by their `id`, never by position, so removing or
//! reordering rows cannot bind edits to the wrong record.  The ledger is
//! never empty: removing the last row immediately re-inserts a fresh empty
//! row under a newly minted id.

use vstd::prelude::*;

verus! {

/// One row of the ledger.  The macro fields hold the raw text the user
/// typed; they are parsed on every read so that transient input such as
/// `"1."` is preserved while being edited.
pub struct Ingredient {
    /// Stable identity, unique within the ledger, minted by the ledger's
    /// counter and never reused while the row exists.
    pub id: u64,
    /// Free-text label; may be empty.
    pub name: String,
    /// Protein grams per serving, as entered.
    pub protein: String,
    /// Fat grams per serving, as entered.
    pub fat: String,
    /// Net carbohydrate grams per serving, as entered.
    pub net_carbs: String,
    /// Servings of this ingredient used in the recipe, as entered.
    pub servings: String,
}

/// One editable field of an ingredient row.
pub enum IngredientField {
    Name,
    Protein,
    Fat,
    NetCarbs,
    Servings,
}

/// A fresh empty row: no name, no macros, one serving.
pub open spec fn is_fresh_row(ing: Ingredient, id: u64) -> bool {
    &&& ing.id == id
    &&& ing.name@ == Seq::<char>::empty()
    &&& ing.protein@ == Seq::<char>::empty()
    &&& ing.fat@ == Seq::<char>::empty()
    &&& ing.net_carbs@ == Seq::<char>::empty()
    &&& ing.servings@ == "1"@
}

/// The row with one field replaced.
pub open spec fn spec_with_field(ing: Ingredient, field: IngredientField, value: String) -> Ingredient {
    match field {
        IngredientField::Name => Ingredient {
            id: ing.id,
            name: value,
            protein: ing.protein,
            fat: ing.fat,
            net_carbs: ing.net_carbs,
            servings: ing.servings,
        },
        IngredientField::Protein => Ingredient {
            id: ing.id,
            name: ing.name,
            protein: value,
            fat: ing.fat,
            net_carbs: ing.net_carbs,
            servings: ing.servings,
        },
        IngredientField::Fat => Ingredient {
            id: ing.id,
            name: ing.name,
            protein: ing.protein,
            fat: value,
            net_carbs: ing.net_carbs,
            servings: ing.servings,
        },
        IngredientField::NetCarbs => Ingredient {
            id: ing.id,
            name: ing.name,
            protein: ing.protein,
            fat: ing.fat,
            net_carbs: value,
            servings: ing.servings,
        },
        IngredientField::Servings => Ingredient {
            id: ing.id,
            name: ing.name,
            protein: ing.protein,
            fat: ing.fat,
            net_carbs: ing.net_carbs,
            servings: value,
        },
    }
}

/// The rows that survive removing `id`.
pub open spec fn spec_retain_others(items: Seq<Ingredient>, id: u64) -> Seq<Ingredient> {
    items.filter(|ing: Ingredient| ing.id != id)
}

impl Ingredient {
    /// A fresh empty row under the given id, with one serving.
    pub fn empty(id: u64) -> (r: Ingredient)
        ensures
            is_fresh_row(r, id),
    {
        Ingredient {
            id,
            name: String::new(),
            protein: String::new(),
            fat: String::new(),
            net_carbs: String::new(),
            servings: "1".to_owned(),
        }
    }
}

/// The ledger: the ordered rows and the id counter.
pub struct Ledger {
    /// The rows, in display order.
    pub items: Vec<Ingredient>,
    /// The next id to mint; strictly above every id in the ledger.
    pub next_id: u64,
}

impl Ledger {
    /// The ledger's invariant: at least one row, every id below the
    /// counter, and no two rows sharing an id.
    pub open spec fn wf(self) -> bool {
        &&& self.items@.len() >= 1
        &&& forall|i: int| 0 <= i < self.items@.len() ==> self.items@[i].id < self.next_id
        &&& forall|i: int, j: int|
            0 <= i < j < self.items@.len() ==> self.items@[i].id != self.items@[j].id
    }

    /// A new ledger with one fresh empty row under id 0.
    pub fn new() -> (r: Ledger)
        ensures
            r.wf(),
            r.items@.len() == 1,
            is_fresh_row(r.items@[0], 0),
            r.next_id == 1,
    {
        let mut items: Vec<Ingredient> = Vec::new();
        items.push(Ingredient::empty(0));
        Ledger { items, next_id: 1 }
    }

    /// A ledger seeded from decoded rows; the counter resumes just above
    /// the largest id present.
    pub fn from_rows(items: Vec<Ingredient>) -> (r: Ledger)
        requires
            items@.len() >= 1,
            forall|i: int| 0 <= i < items@.len() ==> items@[i].id < u64::MAX,
            forall|i: int, j: int|
                0 <= i < j < items@.len() ==> items@[i].id != items@[j].id,
        ensures
            r.wf(),
            r.items@ == items@,
            exists|i: int| 0 <= i < items@.len() && items@[i].id + 1 == r.next_id,
    {
        let mut max_id: u64 = 0;
        let mut i: usize = 0;
        let n = items.len();
        while i < n
            invariant
                n == items@.len(),
                n >= 1,
                i <= n,
                forall|j: int| 0 <= j < items@.len() ==> items@[j].id < u64::MAX,
                forall|j: int| 0 <= j < i ==> items@[j].id <= max_id,
                i == 0 ==> max_id == 0,
                i > 0 ==> exists|j: int| 0 <= j < i && items@[j].id == max_id,
            decreases n - i,
        {
            if items[i].id > max_id || i == 0 {
                max_id = items[i].id;
            }
            i = i + 1;
        }
        Ledger { items, next_id: max_id + 1 }
    }

    /// Append a fresh empty row under a newly minted id.
    pub fn add_ingredient(&mut self)
        requires
            old(self).wf(),
            old(self).next_id < u64::MAX,
        ensures
            final(self).wf(),
            final(self).items@.len() == old(self).items@.len() + 1,
            final(self).items@.subrange(0, old(self).items@.len() as int) == old(self).items@,
            is_fresh_row(final(self).items@.last(), old(self).next_id),
            final(self).next_id == old(self).next_id + 1,
    {
        let id = self.next_id;
        self.next_id = self.next_id + 1;
        let row = Ingredient::empty(id);
        self.items.push(row);
        proof {
            assert(self.items@.subrange(0, old(self).items@.len() as int) =~= old(self).items@);
        }
    }

    /// Replace one field of the row with the given id; a stale id is
    /// silently ignored.
    pub fn update_ingredient(&mut self, id: u64, field: IngredientField, value: &String)
        ensures
            final(self).items@.len() == old(self).items@.len(),
            forall|i: int|
                0 <= i < old(self).items@.len() ==> final(self).items@[i] == (
                if old(self).items@[i].id == id {
                    spec_with_field(old(self).items@[i], field, *value)
                } else {
                    old(self).items@[i]
                }),
            final(self).next_id == old(self).next_id,
            old(self).wf() ==> final(self).wf(),
    {
        let n = self.items.len();
        let mut i: usize = 0;
        while i < n
            invariant
                n == self.items@.len(),
                n == old(self).items@.len(),
                i <= n,
                self.next_id == old(self).next_id,
                forall|j: int| i <= j < n ==> self.items@[j] == old(self).items@[j],
                forall|j: int|
                    0 <= j < i ==> self.items@[j] == (
                    if old(self).items@[j].id == id {
                        spec_with_field(old(self).items@[j], field, *value)
                    } else {
                        old(self).items@[j]
                    }),
            decreases n - i,
        {
            if self.items[i].id == id {
                let new_row = {
                    let row = &self.items[i];
                    match field {
                        IngredientField::Name => Ingredient {
                            id: row.id,
                            name: value.clone(),
                            protein: row.protein.clone(),
                            fat: row.fat.clone(),
                            net_carbs: row.net_carbs.clone(),
                            servings: row.servings.clone(),
                        },
                        IngredientField::Protein => Ingredient {
                            id: row.id,
                            name: row.name.clone(),
                            protein: value.clone(),
                            fat: row.fat.clone(),
                            net_carbs: row.net_carbs.clone(),
                            servings: row.servings.clone(),
                        },
                        IngredientField::Fat => Ingredient {
                            id: row.id,
                            name: row.name.clone(),
                            protein: row.protein.clone(),
                            fat: value.clone(),
                            net_carbs: row.net_carbs.clone(),
                            servings: row.servings.clone(),
                        },
                        IngredientField::NetCarbs => Ingredient {
                            id: row.id,
                            name: row.name.clone(),
                            protein: row.protein.clone(),
                            fat: row.fat.clone(),
                            net_carbs: value.clone(),
                            servings: row.servings.clone(),
                        },
                        IngredientField::Servings => Ingredient {
                            id: row.id,
                            name: row.name.clone(),
                            protein: row.protein.clone(),
                            fat: row.fat.clone(),
                            net_carbs: row.net_carbs.clone(),
                            servings: value.clone(),
                        },
                    }
                };
                self.items.set(i, new_row);
            }
            i = i + 1;
        }
        proof {
            if old(self).wf() {
                assert(forall|i: int|
                    0 <= i < self.items@.len() ==> self.items@[i].id == old(self).items@[i].id);
            }
        }
    }

    /// Delete the row with the given id.  If that empties the ledger, a
    /// fresh empty row is minted at once, under an id no earlier row ever
    /// had, so downstream consumers never see zero rows.
    pub fn remove_ingredient(&mut self, id: u64)
        requires
            old(self).wf(),
            old(self).next_id < u64::MAX,
        ensures
            final(self).wf(),
            spec_retain_others(old(self).items@, id).len() == 0 ==> {
                &&& final(self).items@.len() == 1
                &&& is_fresh_row(final(self).items@[0], old(self).next_id)
                &&& (forall|j: int|
                    0 <= j < old(self).items@.len() ==> old(self).items@[j].id != final(self).items@[0].id)
                &&& final(self).next_id == old(self).next_id + 1
            },
            spec_retain_others(old(self).items@, id).len() > 0 ==> {
                &&& final(self).items@ == spec_retain_others(old(self).items@, id)
                &&& final(self).next_id == old(self).next_id
            },
    {
        let ghost orig: Seq<Ingredient> = self.items@;
        let n = self.items.len();
        let mut kept: Vec<Ingredient> = Vec::new();
        let mut i: usize = 0;
        proof {
            assert(orig.take(0) =~= Seq::<Ingredient>::empty());
            assert(spec_retain_others(orig.take(0), id) =~= Seq::<Ingredient>::empty());
        }
        while i < n
            invariant
                n == self.items@.len(),
                self.items@ == orig,
                i <= n,
                kept@ == spec_retain_others(orig.take(i as int), id),
            decreases n - i,
        {
            proof {
                reveal_with_fuel(Seq::<Ingredient>::filter, 2);
                assert(orig.take(i + 1) =~= orig.take(i as int) + seq![orig[i as int]]);
                vstd::seq::Seq::filter_distributes_over_add(
                    orig.take(i as int),
                    seq![orig[i as int]],
                    |ing: Ingredient| ing.id != id,
                );
                assert(seq![orig[i as int]].drop_last() =~= Seq::<Ingredient>::empty());
            }
            if self.items[i].id != id {
                let row = clone_row(&self.items[i]);
                kept.push(row);
                proof {
                    assert(kept@ =~= spec_retain_others(orig.take(i + 1), id));
                }
            } else {
                proof {
                    assert(kept@ =~= spec_retain_others(orig.take(i + 1), id));
                }
            }
            i = i + 1;
        }
        proof {
            assert(orig.take(n as int) =~= orig);
            lemma_retain_others_props(orig, id);
        }
        self.items = kept;
        if self.items.len() == 0 {
            let row = Ingredient::empty(self.next_id);
            self.items.push(row);
            self.next_id = self.next_id + 1;
        }
    }
}

/// A copy of a row, field by field.
fn clone_row(row: &Ingredient) -> (r: Ingredient)
    ensures
        r == *row,
{
    Ingredient {
        id: row.id,
        name: row.name.clone(),
        protein: row.protein.clone(),
        fat: row.fat.clone(),
        net_carbs: row.net_carbs.clone(),
        servings: row.servings.clone(),
    }
}

/// What surviving rows look like: none carries the removed id, each is one
/// of the original rows, and distinct ids stay distinct.
pub proof fn lemma_retain_others_props(items: Seq<Ingredient>, id: u64)
    ensures
        forall|i: int|
            0 <= i < spec_retain_others(items, id).len() ==> spec_retain_others(items, id)[i].id
                != id,
        forall|i: int|
            0 <= i < spec_retain_others(items, id).len() ==> exists|j: int|
                0 <= j < items.len() && items[j] == #[trigger] spec_retain_others(items, id)[i],
        (forall|i: int, j: int| 0 <= i < j < items.len() ==> items[i].id != items[j].id)
            ==> (forall|i: int, j: int|
            0 <= i < j < spec_retain_others(items, id).len() ==> spec_retain_others(items, id)[i].id
                != spec_retain_others(items, id)[j].id),
    decreases items.len(),
{
    reveal_with_fuel(Seq::<Ingredient>::filter, 1);
    let pred = |ing: Ingredient| ing.id != id;
    let ret = spec_retain_others(items, id);
    if items.len() == 0 {
    } else {
        let dl = items.drop_last();
        lemma_retain_others_props(dl, id);
        let ret_dl = spec_retain_others(dl, id);
        assert(forall|i: int, j: int| 0 <= i < j < dl.len() ==> dl[i] == items[i] && dl[j]
            == items[j]);
        assert forall|i: int| 0 <= i < ret_dl.len() implies exists|j: int|
            0 <= j < items.len() && items[j] == #[trigger] ret_dl[i] by {
            let j = choose|j: int| 0 <= j < dl.len() && dl[j] == ret_dl[i];
            assert(items[j] == ret_dl[i]);
        }
        if pred(items.last()) {
            assert(ret == ret_dl.push(items.last()));
            if forall|i: int, j: int| 0 <= i < j < items.len() ==> items[i].id != items[j].id {
                assert forall|i: int, j: int|
                    0 <= i < j < ret.len() implies ret[i].id != ret[j].id by {
                    if j < ret.len() - 1 {
                    } else {
                        let w = choose|w: int| 0 <= w < dl.len() && dl[w] == ret_dl[i];
                        assert(items[w] == ret[i]);
                        assert(items[w].id != items[items.len() - 1].id);
                    }
                }
            }
        } else {
            assert(ret == ret_dl);
        }
    }
}

} // verus!
