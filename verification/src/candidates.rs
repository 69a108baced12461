//! Candidate sets: for each allergen, the ingredients that could carry it,
//! obtained by intersecting the ingredient sets of every record declaring it.
use vstd::prelude::*;

use crate::food::Food;
use crate::food::allergen_universe;
use crate::food::all_allergens;
use crate::food::declared;
use crate::food::first_with_allergen;
use crate::food::food_declares;
use crate::food::food_has_ingredient;
use crate::food::wf_food;
use crate::food::wf_store;
use crate::names::contains_name;
use crate::names::copy_name;
use crate::names::copy_names;
use crate::names::distinct_names;
use crate::names::name_set;

verus! {

/// The ingredients that could carry allergen `a`: those present in every
/// record declaring `a`. Empty when no record declares `a`.
pub open spec fn candidate_set(foods: Seq<Food>, a: Seq<u8>) -> Set<Seq<u8>> {
    Set::new(
        |n: Seq<u8>|
            declared(foods, a) && forall|k: int|
                0 <= k < foods.len() && food_declares(#[trigger] foods[k], a)
                    ==> food_has_ingredient(foods[k], n),
    )
}

/// The intersection of two name lists, in the order of the first.
pub fn intersect_names(a: &Vec<Vec<u8>>, b: &Vec<Vec<u8>>) -> (r: Vec<Vec<u8>>)
    requires
        distinct_names(a@),
    ensures
        distinct_names(r@),
        name_set(r@) == name_set(a@).intersect(name_set(b@)),
{
    let mut r: Vec<Vec<u8>> = Vec::new();
    let mut i: usize = 0;
    while i < a.len()
        invariant
            i <= a.len(),
            distinct_names(a@),
            forall|m: int| 0 <= m < r@.len() ==> exists|j: int|
                0 <= j < i && #[trigger] r@[m]@ == a@[j]@,
            forall|n: Seq<u8>| #[trigger] name_set(r@).contains(n) ==> name_set(a@).contains(n)
                && name_set(b@).contains(n),
            forall|j: int| 0 <= j < i && name_set(b@).contains(#[trigger] a@[j]@) ==> name_set(
                r@,
            ).contains(a@[j]@),
            distinct_names(r@),
        decreases a.len() - i,
    {
        if contains_name(b, &a[i]) {
            let ghost before = r@;
            proof {
                assert forall|m: int| 0 <= m < before.len() implies before[m]@ != a@[i as int]@ by {
                    let j = choose|j: int| 0 <= j < i && #[trigger] before[m]@ == a@[j]@;
                }
            }
            r.push(copy_name(&a[i]));
            proof {
                assert forall|n: Seq<u8>| #[trigger] name_set(r@).contains(n) implies name_set(
                    a@,
                ).contains(n) && name_set(b@).contains(n) by {
                    let m = choose|m: int| 0 <= m < r@.len() && r@[m]@ == n;
                    if m < before.len() {
                        assert(name_set(before).contains(n));
                    } else {
                        assert(n == a@[i as int]@);
                        assert(name_set(a@).contains(n));
                    }
                }
                assert forall|j: int| 0 <= j < i + 1 && name_set(b@).contains(
                    #[trigger] a@[j]@,
                ) implies name_set(r@).contains(a@[j]@) by {
                    if j < i {
                        assert(name_set(before).contains(a@[j]@));
                        let m = choose|m: int| 0 <= m < before.len() && before[m]@ == a@[j]@;
                        assert(r@[m]@ == a@[j]@);
                    } else {
                        assert(r@[before.len() as int]@ == a@[j]@);
                    }
                }
            }
        }
        i = i + 1;
    }
    proof {
        assert(name_set(r@) =~= name_set(a@).intersect(name_set(b@))) by {
            assert forall|n: Seq<u8>|
                name_set(a@).contains(n) && name_set(b@).contains(n) implies name_set(
                r@,
            ).contains(n) by {
                let j = choose|j: int| 0 <= j < a@.len() && a@[j]@ == n;
                assert(name_set(b@).contains(a@[j]@));
            }
        }
    }
    r
}

/// The candidate ingredients for one allergen, which some record must declare.
pub fn potential_allergen_ingredients(foods: &Vec<Food>, allergen: &Vec<u8>) -> (r: Vec<Vec<u8>>)
    requires
        wf_store(foods@),
        declared(foods@, allergen@),
    ensures
        distinct_names(r@),
        name_set(r@) == candidate_set(foods@, allergen@),
{
    let first = first_with_allergen(foods, allergen);
    let mut cur = copy_names(&foods[first].ingredients);
    proof {
        assert(distinct_names(cur@)) by {
            assert(wf_food(foods@[first as int]));
        }
        assert(name_set(cur@) =~= name_set(foods@[first as int].ingredients@));
    }
    let mut k: usize = 0;
    while k < foods.len()
        invariant
            k <= foods.len(),
            wf_store(foods@),
            first < foods@.len(),
            food_declares(foods@[first as int], allergen@),
            distinct_names(cur@),
            name_set(cur@) == Set::new(
                |n: Seq<u8>|
                    food_has_ingredient(foods@[first as int], n) && forall|k2: int|
                        0 <= k2 < k && k2 != first && food_declares(#[trigger] foods@[k2], allergen@)
                            ==> food_has_ingredient(foods@[k2], n),
            ),
        decreases foods.len() - k,
    {
        if k != first && contains_name(&foods[k].allergens, allergen) {
            let ghost before = name_set(cur@);
            let next = intersect_names(&cur, &foods[k].ingredients);
            cur = next;
            proof {
                assert(name_set(cur@) =~= Set::new(
                    |n: Seq<u8>|
                        food_has_ingredient(foods@[first as int], n) && forall|k2: int|
                            0 <= k2 < k + 1 && k2 != first && food_declares(
                                #[trigger] foods@[k2],
                                allergen@,
                            ) ==> food_has_ingredient(foods@[k2], n),
                ));
            }
        } else {
            proof {
                assert(name_set(cur@) =~= Set::new(
                    |n: Seq<u8>|
                        food_has_ingredient(foods@[first as int], n) && forall|k2: int|
                            0 <= k2 < k + 1 && k2 != first && food_declares(
                                #[trigger] foods@[k2],
                                allergen@,
                            ) ==> food_has_ingredient(foods@[k2], n),
                ));
            }
        }
        k = k + 1;
    }
    proof {
        assert(name_set(cur@) =~= candidate_set(foods@, allergen@)) by {
            assert forall|n: Seq<u8>| candidate_set(foods@, allergen@).contains(n) implies
                name_set(cur@).contains(n) by {
                assert(food_has_ingredient(foods@[first as int], n));
            }
        }
    }
    cur
}

/// One entry per allergen of the store, each with its candidate set.
pub fn all_potential_allergen_ingredients(foods: &Vec<Food>) -> (r: Vec<(Vec<u8>, Vec<Vec<u8>>)>)
    requires
        wf_store(foods@),
    ensures
        forall|i: int, j: int| 0 <= i < j < r@.len() ==> r@[i].0@ != r@[j].0@,
        forall|i: int| 0 <= i < r@.len() ==> allergen_universe(foods@).contains(
            #[trigger] r@[i].0@,
        ),
        forall|a: Seq<u8>| allergen_universe(foods@).contains(a) ==> exists|i: int|
            0 <= i < r@.len() && #[trigger] r@[i].0@ == a,
        forall|i: int| 0 <= i < r@.len() ==> distinct_names(#[trigger] r@[i].1@) && name_set(
            r@[i].1@,
        ) == candidate_set(foods@, r@[i].0@),
{
    let als = all_allergens(foods);
    let mut r: Vec<(Vec<u8>, Vec<Vec<u8>>)> = Vec::new();
    let mut i: usize = 0;
    while i < als.len()
        invariant
            i <= als.len(),
            wf_store(foods@),
            distinct_names(als@),
            name_set(als@) == allergen_universe(foods@),
            r@.len() == i,
            forall|m: int| 0 <= m < i ==> #[trigger] r@[m].0@ == als@[m]@,
            forall|m: int| 0 <= m < i ==> distinct_names(#[trigger] r@[m].1@) && name_set(
                r@[m].1@,
            ) == candidate_set(foods@, r@[m].0@),
        decreases als.len() - i,
    {
        proof {
            assert(name_set(als@).contains(als@[i as int]@));
        }
        let key = copy_name(&als[i]);
        let cand = potential_allergen_ingredients(foods, &als[i]);
        r.push((key, cand));
        i = i + 1;
    }
    proof {
        assert forall|a: Seq<u8>| allergen_universe(foods@).contains(a) implies exists|i2: int|
            0 <= i2 < r@.len() && #[trigger] r@[i2].0@ == a by {
            let j = choose|j: int| 0 <= j < als@.len() && als@[j]@ == a;
            assert(r@[j].0@ == a);
        }
        assert forall|i2: int| 0 <= i2 < r@.len() implies allergen_universe(foods@).contains(
            #[trigger] r@[i2].0@,
        ) by {
            assert(name_set(als@).contains(als@[i2]@));
        }
    }
    r
}

} // verus!
