//! The result formatter: resolved pairs are sorted by allergen name and the
//! ingredients joined with commas.
use vstd::prelude::*;

use crate::candidates::all_potential_allergen_ingredients;
use crate::candidates::candidate_set;
use crate::food::Food;
use crate::food::allergen_universe;
use crate::food::wf_store;
use crate::names::COMMA;
use crate::names::lex_leq;
use crate::names::lemma_lex_total;
use crate::names::lemma_lex_trans;
use crate::names::name_leq;
use crate::reduce::ReduceError;
use crate::reduce::complete_resolution;
use crate::reduce::map_model;
use crate::reduce::pair_views;
use crate::reduce::reduce_allergens;
use crate::reduce::stuck_outcome;
use crate::reduce::stuck_resolution;

verus! {

broadcast use vstd::seq_lib::group_to_multiset_ensures;

/// The pairs are ordered by allergen name.
pub open spec fn sorted_pairs(p: Seq<(Seq<u8>, Seq<u8>)>) -> bool {
    forall|i: int, j: int| 0 <= i < j < p.len() ==> lex_leq(#[trigger] p[i].0, #[trigger] p[j].0)
}

/// The ingredients of the pairs, joined with a comma between neighbours.
pub open spec fn joined(p: Seq<(Seq<u8>, Seq<u8>)>) -> Seq<u8>
    decreases p.len(),
{
    if p.len() == 0 {
        Seq::empty()
    } else if p.len() == 1 {
        p[0].1
    } else {
        joined(p.drop_last()) + seq![COMMA] + p.last().1
    }
}

/// Index of a pair whose allergen name is least among `pairs`.
fn find_min_key(pairs: &Vec<(Vec<u8>, Vec<u8>)>) -> (m: usize)
    requires
        pairs@.len() > 0,
    ensures
        m < pairs@.len(),
        forall|j: int| 0 <= j < pairs@.len() ==> lex_leq(pairs@[m as int].0@, #[trigger] pairs@[j].0@),
{
    let mut m: usize = 0;
    let mut j: usize = 1;
    proof {
        lemma_lex_total(pairs@[0].0@, pairs@[0].0@);
    }
    while j < pairs.len()
        invariant
            m < j <= pairs@.len(),
            forall|j2: int| 0 <= j2 < j ==> lex_leq(pairs@[m as int].0@, #[trigger] pairs@[j2].0@),
        decreases pairs.len() - j,
    {
        if !name_leq(&pairs[m].0, &pairs[j].0) {
            proof {
                lemma_lex_total(pairs@[m as int].0@, pairs@[j as int].0@);
                assert forall|j2: int| 0 <= j2 < j + 1 implies lex_leq(
                    pairs@[j as int].0@,
                    #[trigger] pairs@[j2].0@,
                ) by {
                    if j2 < j {
                        lemma_lex_trans(pairs@[j as int].0@, pairs@[m as int].0@, pairs@[j2].0@);
                    } else {
                        lemma_lex_total(pairs@[j as int].0@, pairs@[j as int].0@);
                    }
                }
            }
            m = j;
        }
        j = j + 1;
    }
    m
}

/// Sorts the pairs by allergen name, keeping exactly the same pairs.
pub fn sort_pairs(pairs: &mut Vec<(Vec<u8>, Vec<u8>)>)
    ensures
        sorted_pairs(pair_views(final(pairs)@)),
        pair_views(final(pairs)@).to_multiset() == pair_views(old(pairs)@).to_multiset(),
{
    let ghost orig = pairs@;
    let mut out: Vec<(Vec<u8>, Vec<u8>)> = Vec::new();
    proof {
        assert(pair_views(out@) =~= Seq::<(Seq<u8>, Seq<u8>)>::empty());
        assert(pair_views(out@).to_multiset().add(pair_views(pairs@).to_multiset())
            =~= pair_views(orig).to_multiset());
    }
    while pairs.len() > 0
        invariant
            pair_views(out@).to_multiset().add(pair_views(pairs@).to_multiset()) == pair_views(
                orig,
            ).to_multiset(),
            sorted_pairs(pair_views(out@)),
            forall|m2: int, j: int|
                0 <= m2 < out@.len() && 0 <= j < pairs@.len() ==> lex_leq(
                    #[trigger] out@[m2].0@,
                    #[trigger] pairs@[j].0@,
                ),
        decreases pairs.len(),
    {
        let m = find_min_key(pairs);
        let ghost before = pairs@;
        let ghost out_before = out@;
        let p = pairs.remove(m);
        out.push(p);
        proof {
            assert(pair_views(before)[m as int] == (p.0@, p.1@));
            assert(pair_views(pairs@) =~= pair_views(before).remove(m as int));
            assert(pair_views(out@) =~= pair_views(out_before).push((p.0@, p.1@)));
            let ms_before = pair_views(before).to_multiset();
            assert(ms_before.contains((p.0@, p.1@)));
            assert(pair_views(out@).to_multiset().add(pair_views(pairs@).to_multiset())
                =~= pair_views(orig).to_multiset()) by {
                assert(pair_views(pairs@).to_multiset() =~= ms_before.remove((p.0@, p.1@)));
                assert(pair_views(out@).to_multiset() =~= pair_views(
                    out_before,
                ).to_multiset().insert((p.0@, p.1@)));
            }
            assert forall|m2: int, j: int|
                0 <= m2 < out@.len() && 0 <= j < pairs@.len() implies lex_leq(
                #[trigger] out@[m2].0@,
                #[trigger] pairs@[j].0@,
            ) by {
                if m2 < out_before.len() {
                    if j < m {
                        assert(pairs@[j] == before[j]);
                    } else {
                        assert(pairs@[j] == before[j + 1]);
                    }
                } else {
                    assert(out@[m2] == before[m as int]);
                    if j < m {
                        assert(pairs@[j] == before[j]);
                    } else {
                        assert(pairs@[j] == before[j + 1]);
                    }
                }
            }
            assert forall|i: int, j: int|
                0 <= i < j < pair_views(out@).len() implies lex_leq(
                #[trigger] pair_views(out@)[i].0,
                #[trigger] pair_views(out@)[j].0,
            ) by {
                if j < out_before.len() {
                    assert(lex_leq(pair_views(out_before)[i].0, pair_views(out_before)[j].0));
                } else {
                    assert(lex_leq(out_before[i].0@, before[m as int].0@));
                }
            }
        }
    }
    *pairs = out;
}

/// Joins the pairs' ingredients with commas, in their current order.
pub fn join_ingredients(pairs: &Vec<(Vec<u8>, Vec<u8>)>) -> (r: Vec<u8>)
    ensures
        r@ == joined(pair_views(pairs@)),
{
    let mut r: Vec<u8> = Vec::new();
    let mut i: usize = 0;
    while i < pairs.len()
        invariant
            i <= pairs@.len(),
            r@ == joined(pair_views(pairs@).take(i as int)),
        decreases pairs.len() - i,
    {
        if i > 0 {
            r.push(COMMA);
        }
        let ing = &pairs[i].1;
        let mut j: usize = 0;
        let ghost with_comma = r@;
        while j < ing.len()
            invariant
                j <= ing@.len(),
                i < pairs@.len(),
                ing@ == pairs@[i as int].1@,
                r@ == with_comma + ing@.take(j as int),
            decreases ing.len() - j,
        {
            r.push(ing[j]);
            proof {
                assert(with_comma + ing@.take(j + 1) =~= (with_comma + ing@.take(j as int)).push(
                    ing@[j as int],
                ));
            }
            j = j + 1;
        }
        proof {
            let pv = pair_views(pairs@);
            assert(ing@.take(ing@.len() as int) =~= ing@);
            assert(pv.take(i + 1).drop_last() =~= pv.take(i as int));
            assert(pv.take(i + 1).last() == pv[i as int]);
            if i == 0 {
                assert(joined(pv.take(1)) == pv[0].1);
                assert(r@ =~= pv[0].1);
            } else {
                assert(r@ =~= joined(pv.take(i as int)) + seq![COMMA] + pv[i as int].1);
            }
        }
        i = i + 1;
    }
    proof {
        assert(pair_views(pairs@).take(pairs@.len() as int) =~= pair_views(pairs@));
    }
    r
}

/// The candidate map `cm` is the one this store determines: one entry per
/// allergen of the store, holding its candidate set.
pub open spec fn is_candidate_map(foods: Seq<Food>, cm: Seq<(Seq<u8>, Set<Seq<u8>>)>) -> bool {
    &&& forall|i: int, j: int| 0 <= i < j < cm.len() ==> cm[i].0 != cm[j].0
    &&& forall|i: int| 0 <= i < cm.len() ==> allergen_universe(foods).contains(#[trigger] cm[i].0)
        && cm[i].1 == candidate_set(foods, cm[i].0)
    &&& forall|a: Seq<u8>| allergen_universe(foods).contains(a) ==> exists|i: int|
        0 <= i < cm.len() && #[trigger] cm[i].0 == a
}

/// Resolves the store's allergens and renders the dangerous ingredients,
/// sorted by allergen name and joined with commas.
pub fn part_2(foods: &Vec<Food>) -> (res: Result<Vec<u8>, ReduceError>)
    requires
        wf_store(foods@),
    ensures
        match res {
            Ok(out) => (exists|
                cm: Seq<(Seq<u8>, Set<Seq<u8>>)>,
                pairs: Seq<(Seq<u8>, Seq<u8>)>,
                ordered: Seq<(Seq<u8>, Seq<u8>)>,
            |
                #![trigger complete_resolution(cm, pairs), joined(ordered)]
                {
                    &&& is_candidate_map(foods@, cm)
                    &&& complete_resolution(cm, pairs)
                    &&& ordered.to_multiset() == pairs.to_multiset()
                    &&& sorted_pairs(ordered)
                    &&& out@ == joined(ordered)
                }),
            Err(_) => (exists|cm: Seq<(Seq<u8>, Set<Seq<u8>>)>, gp: Seq<(Seq<u8>, Seq<u8>)>|
                {
                    &&& is_candidate_map(foods@, cm)
                    &&& #[trigger] stuck_resolution(cm, gp)
                    &&& forall|pr: Seq<(Seq<u8>, Seq<u8>)>| !complete_resolution(cm, pr)
                }),
        },
{
    let mut potentials = all_potential_allergen_ingredients(foods);
    let ghost cm = map_model(potentials@);
    proof {
        assert(is_candidate_map(foods@, cm)) by {
            assert forall|a: Seq<u8>| allergen_universe(foods@).contains(a) implies exists|i: int|
                0 <= i < cm.len() && #[trigger] cm[i].0 == a by {
                let i = choose|i: int| 0 <= i < potentials@.len() && #[trigger] potentials@[i].0@
                    == a;
                assert(cm[i].0 == a);
            }
        }
    }
    let ghost pre = potentials@;
    match reduce_allergens(&mut potentials) {
        Ok(mut pairs) => {
            let ghost resolution = pair_views(pairs@);
            sort_pairs(&mut pairs);
            let out = join_ingredients(&pairs);
            proof {
                assert(is_candidate_map(foods@, cm) && complete_resolution(cm, resolution)
                    && pair_views(pairs@).to_multiset() == resolution.to_multiset()
                    && sorted_pairs(pair_views(pairs@)) && out@ == joined(pair_views(pairs@)));
            }
            Ok(out)
        },
        Err(e) => {
            proof {
                assert(stuck_outcome(pre, potentials@));
                assert(exists|gp: Seq<(Seq<u8>, Seq<u8>)>| #[trigger] stuck_resolution(cm, gp));
                let gp = choose|gp: Seq<(Seq<u8>, Seq<u8>)>| #[trigger] stuck_resolution(cm, gp);
                assert forall|pr: Seq<(Seq<u8>, Seq<u8>)>| !complete_resolution(cm, pr) by {
                    crate::laws::lemma_stuck_excludes_complete(cm, gp, pr);
                }
                assert(is_candidate_map(foods@, cm) && stuck_resolution(cm, gp) && forall|
                    pr: Seq<(Seq<u8>, Seq<u8>)>,
                | !complete_resolution(cm, pr));
            }
            Err(e)
        },
    }
}

} // verus!
