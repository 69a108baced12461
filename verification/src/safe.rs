//! Safe ingredients: those in no allergen's candidate set, and the count of
//! their appearances across all records.
use vstd::prelude::*;

use crate::candidates::all_potential_allergen_ingredients;
use crate::candidates::candidate_set;
use crate::food::Food;
use crate::food::all_ingredients;
use crate::food::allergen_universe;
use crate::food::ingredient_universe;
use crate::food::wf_store;
use crate::names::contains_name;
use crate::names::copy_name;
use crate::names::distinct_names;
use crate::names::name_set;

verus! {

/// Ingredients that appear in some allergen's candidate set.
pub open spec fn dangerous_set(foods: Seq<Food>) -> Set<Seq<u8>> {
    Set::new(
        |n: Seq<u8>| exists|a: Seq<u8>| #[trigger]
            allergen_universe(foods).contains(a) && candidate_set(foods, a).contains(n),
    )
}

/// Ingredients that cannot carry any allergen.
pub open spec fn safe_set(foods: Seq<Food>) -> Set<Seq<u8>> {
    ingredient_universe(foods).difference(dangerous_set(foods))
}

/// The distinct ingredients of the store that no candidate set holds.
pub fn get_safe(foods: &Vec<Food>) -> (r: Vec<Vec<u8>>)
    requires
        wf_store(foods@),
    ensures
        distinct_names(r@),
        name_set(r@) == safe_set(foods@),
{
    let ing = all_ingredients(foods);
    let cands = all_potential_allergen_ingredients(foods);
    let mut danger: Vec<Vec<u8>> = Vec::new();
    let mut m: usize = 0;
    while m < cands.len()
        invariant
            m <= cands.len(),
            forall|i: int, j: int| 0 <= i < j < cands@.len() ==> cands@[i].0@ != cands@[j].0@,
            forall|i: int| 0 <= i < cands@.len() ==> allergen_universe(foods@).contains(
                #[trigger] cands@[i].0@,
            ),
            forall|a: Seq<u8>| allergen_universe(foods@).contains(a) ==> exists|i: int|
                0 <= i < cands@.len() && #[trigger] cands@[i].0@ == a,
            forall|i: int| 0 <= i < cands@.len() ==> distinct_names(#[trigger] cands@[i].1@)
                && name_set(cands@[i].1@) == candidate_set(foods@, cands@[i].0@),
            distinct_names(danger@),
            name_set(danger@) == Set::new(
                |n: Seq<u8>| exists|i: int|
                    0 <= i < m && #[trigger] name_set(cands@[i].1@).contains(n),
            ),
        decreases cands.len() - m,
    {
        let ghost before = name_set(danger@);
        crate::food::add_all_names(&mut danger, &cands[m].1);
        proof {
            assert(name_set(danger@) =~= Set::new(
                |n: Seq<u8>| exists|i: int|
                    0 <= i < m + 1 && #[trigger] name_set(cands@[i].1@).contains(n),
            )) by {
                assert forall|n: Seq<u8>|
                    before.union(name_set(cands@[m as int].1@)).contains(n) implies exists|i: int|
                    0 <= i < m + 1 && #[trigger] name_set(cands@[i].1@).contains(n) by {
                    if before.contains(n) {
                        let i = choose|i: int|
                            0 <= i < m && #[trigger] name_set(cands@[i].1@).contains(n);
                        assert(name_set(cands@[i].1@).contains(n));
                    } else {
                        assert(name_set(cands@[m as int].1@).contains(n));
                    }
                }
            }
        }
        m = m + 1;
    }
    proof {
        assert(name_set(danger@) =~= dangerous_set(foods@)) by {
            assert forall|n: Seq<u8>| name_set(danger@).contains(n) implies dangerous_set(
                foods@,
            ).contains(n) by {
                let i = choose|i: int|
                    0 <= i < cands@.len() && #[trigger] name_set(cands@[i].1@).contains(n);
                assert(allergen_universe(foods@).contains(cands@[i].0@) && candidate_set(
                    foods@,
                    cands@[i].0@,
                ).contains(n));
            }
            assert forall|n: Seq<u8>| dangerous_set(foods@).contains(n) implies name_set(
                danger@,
            ).contains(n) by {
                let a = choose|a: Seq<u8>| #[trigger]
                    allergen_universe(foods@).contains(a) && candidate_set(foods@, a).contains(n);
                let i = choose|i: int|
                    0 <= i < cands@.len() && #[trigger] cands@[i].0@ == a;
                assert(name_set(cands@[i].1@).contains(n));
            }
        }
    }
    let mut r: Vec<Vec<u8>> = Vec::new();
    let mut i: usize = 0;
    while i < ing.len()
        invariant
            i <= ing.len(),
            distinct_names(ing@),
            name_set(ing@) == ingredient_universe(foods@),
            name_set(danger@) == dangerous_set(foods@),
            forall|m2: int| 0 <= m2 < r@.len() ==> exists|j: int|
                0 <= j < i && #[trigger] r@[m2]@ == ing@[j]@,
            forall|n: Seq<u8>| #[trigger] name_set(r@).contains(n) ==> name_set(ing@).contains(n)
                && !name_set(danger@).contains(n),
            forall|j: int| 0 <= j < i && !name_set(danger@).contains(#[trigger] ing@[j]@)
                ==> name_set(r@).contains(ing@[j]@),
            distinct_names(r@),
        decreases ing.len() - i,
    {
        if !contains_name(&danger, &ing[i]) {
            let ghost before = r@;
            proof {
                assert forall|m2: int| 0 <= m2 < before.len() implies before[m2]@
                    != ing@[i as int]@ by {
                    let j = choose|j: int| 0 <= j < i && #[trigger] before[m2]@ == ing@[j]@;
                }
            }
            r.push(copy_name(&ing[i]));
            proof {
                assert forall|n: Seq<u8>| #[trigger] name_set(r@).contains(n) implies name_set(
                    ing@,
                ).contains(n) && !name_set(danger@).contains(n) by {
                    let m2 = choose|m2: int| 0 <= m2 < r@.len() && r@[m2]@ == n;
                    if m2 < before.len() {
                        assert(name_set(before).contains(n));
                    } else {
                        assert(n == ing@[i as int]@);
                        assert(name_set(ing@).contains(n));
                    }
                }
                assert forall|j: int| 0 <= j < i + 1 && !name_set(danger@).contains(
                    #[trigger] ing@[j]@,
                ) implies name_set(r@).contains(ing@[j]@) by {
                    if j < i {
                        let m2 = choose|m2: int| 0 <= m2 < before.len() && before[m2]@ == ing@[j]@;
                        assert(r@[m2]@ == ing@[j]@);
                    } else {
                        assert(r@[before.len() as int]@ == ing@[j]@);
                    }
                }
            }
        }
        i = i + 1;
    }
    proof {
        assert(name_set(r@) =~= safe_set(foods@)) by {
            assert forall|n: Seq<u8>| safe_set(foods@).contains(n) implies name_set(r@).contains(
                n,
            ) by {
                let j = choose|j: int| 0 <= j < ing@.len() && ing@[j]@ == n;
                assert(!name_set(danger@).contains(ing@[j]@));
            }
        }
    }
    r
}

/// How many of the ingredients of `s` are safe for the store.
pub open spec fn count_safe_names(foods: Seq<Food>, s: Seq<Vec<u8>>) -> nat
    decreases s.len(),
{
    if s.len() == 0 {
        0
    } else {
        count_safe_names(foods, s.drop_last()) + if safe_set(foods).contains(s.last()@) {
            1nat
        } else {
            0nat
        }
    }
}

/// Safe-ingredient appearances within the first `k` records.
pub open spec fn appearance_prefix(foods: Seq<Food>, k: int) -> nat
    decreases k,
{
    if k <= 0 {
        0
    } else {
        appearance_prefix(foods, k - 1) + count_safe_names(foods, foods[k - 1].ingredients@)
    }
}

/// Total appearances of safe ingredients across all records: a record that
/// lists a safe ingredient contributes one for it.
pub open spec fn appearance_count(foods: Seq<Food>) -> nat {
    appearance_prefix(foods, foods.len() as int)
}

proof fn lemma_count_take_le(foods: Seq<Food>, s: Seq<Vec<u8>>, j: int)
    requires
        0 <= j <= s.len(),
    ensures
        count_safe_names(foods, s.take(j)) <= count_safe_names(foods, s),
    decreases s.len(),
{
    if j < s.len() {
        if s.len() > 0 {
            assert(s.drop_last().take(j) =~= s.take(j));
            lemma_count_take_le(foods, s.drop_last(), j);
        }
    } else {
        assert(s.take(j) =~= s);
    }
}

proof fn lemma_appearance_prefix_le(foods: Seq<Food>, k1: int, k2: int)
    requires
        0 <= k1 <= k2,
    ensures
        appearance_prefix(foods, k1) <= appearance_prefix(foods, k2),
    decreases k2,
{
    if k1 < k2 {
        lemma_appearance_prefix_le(foods, k1, k2 - 1);
    }
}

/// Sums, over the safe ingredients, the number of records listing each.
pub fn part_1(foods: &Vec<Food>) -> (n: usize)
    requires
        wf_store(foods@),
        appearance_count(foods@) <= usize::MAX,
    ensures
        n == appearance_count(foods@),
{
    let safe = get_safe(foods);
    let mut n: usize = 0;
    let mut k: usize = 0;
    while k < foods.len()
        invariant
            k <= foods.len(),
            wf_store(foods@),
            appearance_count(foods@) <= usize::MAX,
            distinct_names(safe@),
            name_set(safe@) == safe_set(foods@),
            n == appearance_prefix(foods@, k as int),
        decreases foods.len() - k,
    {
        let ings = &foods[k].ingredients;
        let mut j: usize = 0;
        while j < ings.len()
            invariant
                j <= ings@.len(),
                k < foods@.len(),
                ings@ == foods@[k as int].ingredients@,
                appearance_count(foods@) <= usize::MAX,
                name_set(safe@) == safe_set(foods@),
                n == appearance_prefix(foods@, k as int) + count_safe_names(
                    foods@,
                    ings@.take(j as int),
                ),
            decreases ings.len() - j,
        {
            if contains_name(&safe, &ings[j]) {
                proof {
                    lemma_count_take_le(foods@, ings@, j + 1);
                    lemma_appearance_prefix_le(foods@, k + 1, foods@.len() as int);
                    assert(ings@.take(j + 1).drop_last() =~= ings@.take(j as int));
                    assert(ings@.take(j + 1).last() == ings@[j as int]);
                }
                n = n + 1;
            } else {
                proof {
                    assert(ings@.take(j + 1).drop_last() =~= ings@.take(j as int));
                    assert(ings@.take(j + 1).last() == ings@[j as int]);
                }
            }
            j = j + 1;
        }
        proof {
            assert(ings@.take(ings@.len() as int) =~= ings@);
        }
        k = k + 1;
    }
    n
}

} // verus!
