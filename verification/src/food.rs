//! Food records and the universes derived from a store of them.
use vstd::prelude::*;

use crate::names::contains_name;
use crate::names::distinct_names;
use crate::names::insert_name;
use crate::names::name_set;

verus! {

/// One parsed food record: a set of ingredient names and a set of allergen
/// names, with an identifier assigned in parse order.
pub struct Food {
    pub id: u32,
    pub ingredients: Vec<Vec<u8>>,
    pub allergens: Vec<Vec<u8>>,
}

impl Food {
    /// Builds a record from already-structured token lists.
    pub fn new(id: u32, ingredients: Vec<Vec<u8>>, allergens: Vec<Vec<u8>>) -> (f: Food)
        ensures
            f.id == id,
            f.ingredients == ingredients,
            f.allergens == allergens,
    {
        Food { id, ingredients, allergens }
    }
}

/// A record is well formed when its name lists hold no duplicates.
pub open spec fn wf_food(f: Food) -> bool {
    distinct_names(f.ingredients@) && distinct_names(f.allergens@)
}

/// Every record of the store is well formed.
pub open spec fn wf_store(foods: Seq<Food>) -> bool {
    forall|k: int| 0 <= k < foods.len() ==> wf_food(#[trigger] foods[k])
}

/// The record lists this ingredient.
pub open spec fn food_has_ingredient(f: Food, n: Seq<u8>) -> bool {
    name_set(f.ingredients@).contains(n)
}

/// The record declares this allergen.
pub open spec fn food_declares(f: Food, a: Seq<u8>) -> bool {
    name_set(f.allergens@).contains(a)
}

/// All ingredient names appearing in any record.
pub open spec fn ingredient_universe(foods: Seq<Food>) -> Set<Seq<u8>> {
    Set::new(
        |n: Seq<u8>| exists|k: int| 0 <= k < foods.len() && food_has_ingredient(foods[k], n),
    )
}

/// All allergen names appearing in any record.
pub open spec fn allergen_universe(foods: Seq<Food>) -> Set<Seq<u8>> {
    Set::new(|a: Seq<u8>| exists|k: int| 0 <= k < foods.len() && food_declares(foods[k], a))
}

/// Some record declares this allergen.
pub open spec fn declared(foods: Seq<Food>, a: Seq<u8>) -> bool {
    exists|k: int| 0 <= k < foods.len() && food_declares(foods[k], a)
}

/// The ingredient universe restricted to the first `upto` records.
pub open spec fn ingredient_universe_prefix(foods: Seq<Food>, upto: int) -> Set<Seq<u8>> {
    Set::new(|n: Seq<u8>| exists|k: int| 0 <= k < upto && food_has_ingredient(foods[k], n))
}

/// The allergen universe restricted to the first `upto` records.
pub open spec fn allergen_universe_prefix(foods: Seq<Food>, upto: int) -> Set<Seq<u8>> {
    Set::new(|a: Seq<u8>| exists|k: int| 0 <= k < upto && food_declares(foods[k], a))
}

/// Adds every name of `v` to `acc`, keeping the entries distinct.
pub fn add_all_names(acc: &mut Vec<Vec<u8>>, v: &Vec<Vec<u8>>)
    requires
        distinct_names(old(acc)@),
    ensures
        distinct_names(final(acc)@),
        name_set(final(acc)@) == name_set(old(acc)@).union(name_set(v@)),
{
    let mut j: usize = 0;
    while j < v.len()
        invariant
            j <= v.len(),
            distinct_names(acc@),
            name_set(acc@) == name_set(old(acc)@).union(name_set(v@.take(j as int))),
        decreases v.len() - j,
    {
        let ghost before = acc@;
        insert_name(acc, &v[j]);
        proof {
            assert(name_set(v@.take(j + 1)) =~= name_set(v@.take(j as int)).insert(v@[j as int]@))
                by {
                assert forall|n: Seq<u8>|
                    name_set(v@.take(j + 1)).contains(n) <==> name_set(
                        v@.take(j as int),
                    ).insert(v@[j as int]@).contains(n) by {
                    if name_set(v@.take(j + 1)).contains(n) {
                        let i = choose|i: int| 0 <= i < j + 1 && #[trigger] v@.take(j + 1)[i]@
                            == n;
                        if i < j {
                            assert(v@.take(j as int)[i]@ == n);
                        }
                    } else {
                        if name_set(v@.take(j as int)).insert(v@[j as int]@).contains(n) {
                            if n == v@[j as int]@ {
                                assert(v@.take(j + 1)[j as int]@ == n);
                            } else {
                                let i = choose|i: int|
                                    0 <= i < j && v@.take(j as int)[i]@ == n;
                                assert(v@.take(j + 1)[i]@ == n);
                            }
                        }
                    }
                }
            }
            assert(name_set(acc@) =~= name_set(old(acc)@).union(name_set(v@.take(j + 1))));
        }
        j = j + 1;
    }
    proof {
        assert(v@.take(v@.len() as int) =~= v@);
    }
}

/// Collects the distinct ingredient names of the whole store.
pub fn all_ingredients(foods: &Vec<Food>) -> (r: Vec<Vec<u8>>)
    ensures
        distinct_names(r@),
        name_set(r@) == ingredient_universe(foods@),
{
    let mut r: Vec<Vec<u8>> = Vec::new();
    let mut k: usize = 0;
    proof {
        assert(name_set(r@) =~= ingredient_universe_prefix(foods@, 0));
    }
    while k < foods.len()
        invariant
            k <= foods.len(),
            distinct_names(r@),
            name_set(r@) == ingredient_universe_prefix(foods@, k as int),
        decreases foods.len() - k,
    {
        add_all_names(&mut r, &foods[k].ingredients);
        proof {
            assert(name_set(r@) =~= ingredient_universe_prefix(foods@, k + 1)) by {
                assert forall|n: Seq<u8>|
                    ingredient_universe_prefix(foods@, k as int).union(
                        name_set(foods@[k as int].ingredients@),
                    ).contains(n) <==> ingredient_universe_prefix(foods@, k + 1).contains(n) by {
                    if ingredient_universe_prefix(foods@, k + 1).contains(n) {
                        let i = choose|i: int|
                            0 <= i < k + 1 && food_has_ingredient(foods@[i], n);
                        if i < k {
                            assert(ingredient_universe_prefix(foods@, k as int).contains(n));
                        }
                    }
                }
            }
        }
        k = k + 1;
    }
    proof {
        assert(ingredient_universe_prefix(foods@, foods@.len() as int) =~= ingredient_universe(
            foods@,
        ));
    }
    r
}

/// Collects the distinct allergen names of the whole store.
pub fn all_allergens(foods: &Vec<Food>) -> (r: Vec<Vec<u8>>)
    ensures
        distinct_names(r@),
        name_set(r@) == allergen_universe(foods@),
{
    let mut r: Vec<Vec<u8>> = Vec::new();
    let mut k: usize = 0;
    proof {
        assert(name_set(r@) =~= allergen_universe_prefix(foods@, 0));
    }
    while k < foods.len()
        invariant
            k <= foods.len(),
            distinct_names(r@),
            name_set(r@) == allergen_universe_prefix(foods@, k as int),
        decreases foods.len() - k,
    {
        add_all_names(&mut r, &foods[k].allergens);
        proof {
            assert(name_set(r@) =~= allergen_universe_prefix(foods@, k + 1)) by {
                assert forall|a: Seq<u8>|
                    allergen_universe_prefix(foods@, k as int).union(
                        name_set(foods@[k as int].allergens@),
                    ).contains(a) <==> allergen_universe_prefix(foods@, k + 1).contains(a) by {
                    if allergen_universe_prefix(foods@, k + 1).contains(a) {
                        let i = choose|i: int| 0 <= i < k + 1 && food_declares(foods@[i], a);
                        if i < k {
                            assert(allergen_universe_prefix(foods@, k as int).contains(a));
                        }
                    }
                }
            }
        }
        k = k + 1;
    }
    proof {
        assert(allergen_universe_prefix(foods@, foods@.len() as int) =~= allergen_universe(
            foods@,
        ));
    }
    r
}

/// Index of the first record declaring the allergen; the store must hold one.
pub fn first_with_allergen(foods: &Vec<Food>, allergen: &Vec<u8>) -> (idx: usize)
    requires
        declared(foods@, allergen@),
    ensures
        idx < foods@.len(),
        food_declares(foods@[idx as int], allergen@),
        forall|k: int| 0 <= k < idx ==> !food_declares(#[trigger] foods@[k], allergen@),
{
    let mut k: usize = 0;
    while k < foods.len()
        invariant
            k <= foods.len(),
            forall|j: int| 0 <= j < k ==> !food_declares(#[trigger] foods@[j], allergen@),
        decreases foods.len() - k,
    {
        if contains_name(&foods[k].allergens, allergen) {
            return k;
        }
        k = k + 1;
    }
    proof {
        assert(false);
    }
    0
}

} // verus!
