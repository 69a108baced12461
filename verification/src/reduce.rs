//! The allergen reducer: repeatedly eliminates already-resolved ingredients
//! from the remaining candidate sets and resolves every allergen whose set
//! shrinks to a single ingredient, failing when a full pass makes no progress.
use vstd::prelude::*;
use vstd::pervasive::VecAdditionalExecFns;

use crate::names::contains_name;
use crate::names::copy_name;
use crate::names::distinct_names;
use crate::names::name_set;

verus! {

/// The reduction failed: no allergen's candidate set could be narrowed to a
/// single ingredient, so the input does not determine a unique solution.
#[derive(Debug)]
pub enum ReduceError {
    Unsolvable,
}

/// Views of a list of (allergen, ingredient) pairs.
pub open spec fn pair_views(pairs: Seq<(Vec<u8>, Vec<u8>)>) -> Seq<(Seq<u8>, Seq<u8>)> {
    pairs.map_values(|p: (Vec<u8>, Vec<u8>)| (p.0@, p.1@))
}

/// The mathematical model of a candidate map: each allergen name with the set
/// of ingredient names still possible for it.
pub open spec fn map_model(m: Seq<(Vec<u8>, Vec<Vec<u8>>)>) -> Seq<(Seq<u8>, Set<Seq<u8>>)> {
    m.map_values(|e: (Vec<u8>, Vec<Vec<u8>>)| (e.0@, name_set(e.1@)))
}

/// The ingredients already claimed by a sequence of resolved pairs.
pub open spec fn ings_of(pairs: Seq<(Seq<u8>, Seq<u8>)>) -> Set<Seq<u8>> {
    Set::new(|n: Seq<u8>| exists|k: int| 0 <= k < pairs.len() && pairs[k].1 == n)
}

/// The set holds `x` and nothing else.
pub open spec fn is_singleton_of(s: Set<Seq<u8>>, x: Seq<u8>) -> bool {
    s.contains(x) && forall|y: Seq<u8>| s.contains(y) ==> y == x
}

/// Some pair resolves this allergen name.
pub open spec fn resolves_key(pairs: Seq<(Seq<u8>, Seq<u8>)>, a: Seq<u8>) -> bool {
    exists|k: int| 0 <= k < pairs.len() && pairs[k].0 == a
}

/// Pair `k` is a sound deduction: its allergen stands in the map, and after
/// removing the ingredients of the earlier pairs its candidate set holds
/// exactly the pair's ingredient.
pub open spec fn resolved_at(
    cm: Seq<(Seq<u8>, Set<Seq<u8>>)>,
    pairs: Seq<(Seq<u8>, Seq<u8>)>,
    k: int,
) -> bool {
    exists|i: int|
        0 <= i < cm.len() && cm[i].0 == pairs[k].0 && is_singleton_of(
            cm[i].1.difference(ings_of(pairs.take(k))),
            pairs[k].1,
        )
}

/// Every pair is a sound deduction and no allergen is resolved twice.
pub open spec fn valid_resolution(
    cm: Seq<(Seq<u8>, Set<Seq<u8>>)>,
    pairs: Seq<(Seq<u8>, Seq<u8>)>,
) -> bool {
    &&& forall|k1: int, k2: int| 0 <= k1 < k2 < pairs.len() ==> pairs[k1].0 != pairs[k2].0
    &&& forall|k: int| 0 <= k < pairs.len() ==> #[trigger] resolved_at(cm, pairs, k)
}

/// A valid resolution that covers every allergen of the map.
pub open spec fn complete_resolution(
    cm: Seq<(Seq<u8>, Set<Seq<u8>>)>,
    pairs: Seq<(Seq<u8>, Seq<u8>)>,
) -> bool {
    &&& valid_resolution(cm, pairs)
    &&& pairs.len() == cm.len()
    &&& forall|i: int| 0 <= i < cm.len() ==> resolves_key(pairs, #[trigger] cm[i].0)
}

/// A valid resolution that cannot grow: some allergens are unresolved, and
/// none of their candidate sets is a singleton after elimination.
pub open spec fn stuck_resolution(
    cm: Seq<(Seq<u8>, Set<Seq<u8>>)>,
    pairs: Seq<(Seq<u8>, Seq<u8>)>,
) -> bool {
    &&& valid_resolution(cm, pairs)
    &&& pairs.len() < cm.len()
    &&& forall|i: int|
        0 <= i < cm.len() && !resolves_key(pairs, #[trigger] cm[i].0) ==> forall|x: Seq<u8>|
            !is_singleton_of(cm[i].1.difference(ings_of(pairs)), x)
}

/// The reducer succeeded: `pairs` is a complete resolution of the map as it
/// stood on entry (`orig`), and every entry of the map as left behind (`now`)
/// holds exactly the ingredient its pair resolved it to.
pub open spec fn resolved_outcome(
    orig: Seq<(Vec<u8>, Vec<Vec<u8>>)>,
    now: Seq<(Vec<u8>, Vec<Vec<u8>>)>,
    pairs: Seq<(Seq<u8>, Seq<u8>)>,
) -> bool {
    &&& complete_resolution(map_model(orig), pairs)
    &&& forall|i: int|
        #![trigger orig[i]]
        0 <= i < orig.len() ==> exists|k: int|
            0 <= k < pairs.len() && #[trigger] pairs[k].0 == orig[i].0@ && is_singleton_of(
                name_set(now[i].1@),
                pairs[k].1,
            )
}

/// The reducer failed: some valid partial resolution of the entry map
/// (`orig`) is stuck, resolved entries of the map left behind (`now`) hold
/// exactly their pair's ingredient, and unresolved ones hold their original
/// candidates minus every resolved ingredient.
pub open spec fn stuck_outcome(
    orig: Seq<(Vec<u8>, Vec<Vec<u8>>)>,
    now: Seq<(Vec<u8>, Vec<Vec<u8>>)>,
) -> bool {
    exists|gp: Seq<(Seq<u8>, Seq<u8>)>|
        {
            &&& #[trigger] stuck_resolution(map_model(orig), gp)
            &&& forall|i: int|
                #![trigger orig[i]]
                0 <= i < orig.len() ==> if resolves_key(gp, orig[i].0@) {
                    exists|k: int|
                        0 <= k < gp.len() && #[trigger] gp[k].0 == orig[i].0@ && is_singleton_of(
                            name_set(now[i].1@),
                            gp[k].1,
                        )
                } else {
                    name_set(now[i].1@) == name_set(orig[i].1@).difference(ings_of(gp))
                }
        }
}

/// How many entries of the flag list are set.
pub open spec fn count_true(s: Seq<bool>) -> nat
    decreases s.len(),
{
    if s.len() == 0 {
        0
    } else {
        count_true(s.drop_last()) + if s.last() {
            1nat
        } else {
            0nat
        }
    }
}

proof fn lemma_count_true_le(s: Seq<bool>)
    ensures
        count_true(s) <= s.len(),
    decreases s.len(),
{
    if s.len() > 0 {
        lemma_count_true_le(s.drop_last());
    }
}

proof fn lemma_count_true_update(s: Seq<bool>, i: int)
    requires
        0 <= i < s.len(),
        !s[i],
    ensures
        count_true(s.update(i, true)) == count_true(s) + 1,
    decreases s.len(),
{
    if i == s.len() - 1 {
        assert(s.update(i, true).drop_last() =~= s.drop_last());
    } else {
        assert(s.update(i, true).drop_last() =~= s.drop_last().update(i, true));
        lemma_count_true_update(s.drop_last(), i);
    }
}

proof fn lemma_count_true_full(s: Seq<bool>)
    requires
        count_true(s) == s.len(),
    ensures
        forall|i: int| 0 <= i < s.len() ==> s[i],
    decreases s.len(),
{
    if s.len() > 0 {
        lemma_count_true_le(s.drop_last());
        lemma_count_true_full(s.drop_last());
        assert forall|i: int| 0 <= i < s.len() implies s[i] by {
            if i < s.len() - 1 {
                assert(s.drop_last()[i]);
            }
        }
    }
}

/// A distinct name list of length one holds exactly its first name; any other
/// length holds no singleton set.
proof fn lemma_distinct_singleton(s: Seq<Vec<u8>>)
    requires
        distinct_names(s),
    ensures
        s.len() == 1 ==> is_singleton_of(name_set(s), s[0]@),
        s.len() != 1 ==> forall|x: Seq<u8>| !is_singleton_of(name_set(s), x),
{
    if s.len() == 1 {
        assert(name_set(s).contains(s[0]@));
        assert forall|y: Seq<u8>| name_set(s).contains(y) implies y == s[0]@ by {
            let i = choose|i: int| 0 <= i < s.len() && s[i]@ == y;
        }
    } else if s.len() == 0 {
        assert forall|x: Seq<u8>| !is_singleton_of(name_set(s), x) by {
            assert(!name_set(s).contains(x));
        }
    } else {
        assert forall|x: Seq<u8>| !is_singleton_of(name_set(s), x) by {
            assert(name_set(s).contains(s[0]@));
            assert(name_set(s).contains(s[1]@));
            assert(s[0]@ != s[1]@);
        }
    }
}

/// The names of `set` that are not in `resolved`, in order.
fn remove_resolved(set: &Vec<Vec<u8>>, resolved: &Vec<Vec<u8>>) -> (r: Vec<Vec<u8>>)
    requires
        distinct_names(set@),
    ensures
        distinct_names(r@),
        name_set(r@) == name_set(set@).difference(name_set(resolved@)),
{
    let mut r: Vec<Vec<u8>> = Vec::new();
    let mut i: usize = 0;
    while i < set.len()
        invariant
            i <= set.len(),
            distinct_names(set@),
            forall|m: int| 0 <= m < r@.len() ==> exists|j: int|
                0 <= j < i && #[trigger] r@[m]@ == set@[j]@,
            forall|n: Seq<u8>| #[trigger] name_set(r@).contains(n) ==> name_set(set@).contains(n)
                && !name_set(resolved@).contains(n),
            forall|j: int| 0 <= j < i && !name_set(resolved@).contains(#[trigger] set@[j]@)
                ==> name_set(r@).contains(set@[j]@),
            distinct_names(r@),
        decreases set.len() - i,
    {
        if !contains_name(resolved, &set[i]) {
            let ghost before = r@;
            proof {
                assert forall|m: int| 0 <= m < before.len() implies before[m]@
                    != set@[i as int]@ by {
                    let j = choose|j: int| 0 <= j < i && #[trigger] before[m]@ == set@[j]@;
                }
            }
            r.push(copy_name(&set[i]));
            proof {
                assert forall|n: Seq<u8>| #[trigger] name_set(r@).contains(n) implies name_set(
                    set@,
                ).contains(n) && !name_set(resolved@).contains(n) by {
                    let m = choose|m: int| 0 <= m < r@.len() && r@[m]@ == n;
                    if m < before.len() {
                        assert(name_set(before).contains(n));
                    } else {
                        assert(n == set@[i as int]@);
                        assert(name_set(set@).contains(n));
                    }
                }
                assert forall|j: int| 0 <= j < i + 1 && !name_set(resolved@).contains(
                    #[trigger] set@[j]@,
                ) implies name_set(r@).contains(set@[j]@) by {
                    if j < i {
                        let m = choose|m: int| 0 <= m < before.len() && before[m]@ == set@[j]@;
                        assert(r@[m]@ == set@[j]@);
                    } else {
                        assert(r@[before.len() as int]@ == set@[j]@);
                    }
                }
            }
        }
        i = i + 1;
    }
    proof {
        assert(name_set(r@) =~= name_set(set@).difference(name_set(resolved@))) by {
            assert forall|n: Seq<u8>|
                name_set(set@).contains(n) && !name_set(resolved@).contains(n) implies name_set(
                r@,
            ).contains(n) by {
                let j = choose|j: int| 0 <= j < set@.len() && set@[j]@ == n;
                assert(!name_set(resolved@).contains(set@[j]@));
            }
        }
    }
    r
}

/// Resolves every allergen of the candidate map to a single ingredient by
/// repeated elimination, or reports the input unsolvable when a full pass
/// narrows nothing.
#[verifier::loop_isolation(false)]
#[verifier::rlimit(60)]
#[verifier::spinoff_prover]
pub fn reduce_allergens(potentials: &mut Vec<(Vec<u8>, Vec<Vec<u8>>)>) -> (res: Result<
    Vec<(Vec<u8>, Vec<u8>)>,
    ReduceError,
>)
    requires
        forall|i: int, j: int|
            0 <= i < j < old(potentials)@.len() ==> old(potentials)@[i].0@ != old(
                potentials,
            )@[j].0@,
        forall|i: int| 0 <= i < old(potentials)@.len() ==> distinct_names(
            #[trigger] old(potentials)@[i].1@,
        ),
    ensures
        final(potentials)@.len() == old(potentials)@.len(),
        forall|i: int| 0 <= i < old(potentials)@.len() ==> #[trigger] final(potentials)@[i].0@
            == old(potentials)@[i].0@,
        forall|i: int| 0 <= i < final(potentials)@.len() ==> distinct_names(
            #[trigger] final(potentials)@[i].1@,
        ),
        match res {
            Ok(pairs) => resolved_outcome(
                old(potentials)@,
                final(potentials)@,
                pair_views(pairs@),
            ),
            Err(_) => stuck_outcome(old(potentials)@, final(potentials)@),
        },
{
    let ghost orig = potentials@;
    let ghost cm = map_model(orig);
    let n = potentials.len();
    let mut paired: Vec<(Vec<u8>, Vec<u8>)> = Vec::new();
    let mut resolved_ings: Vec<Vec<u8>> = Vec::new();
    let mut flags: Vec<bool> = Vec::new();
    while flags.len() < n
        invariant
            flags@.len() <= n,
            forall|i: int| 0 <= i < flags@.len() ==> !flags@[i],
            count_true(flags@) == 0,
        decreases n - flags.len(),
    {
        let ghost before = flags@;
        flags.push(false);
        proof {
            assert(flags@.drop_last() =~= before);
        }
    }
    proof {
        assert(cm.len() == orig.len());
        assert(pair_views(paired@) =~= Seq::<(Seq<u8>, Seq<u8>)>::empty());
        assert(name_set(resolved_ings@) =~= ings_of(pair_views(paired@)));
        assert forall|i: int| 0 <= i < n implies name_set(orig[i].1@).difference(
            name_set(resolved_ings@),
        ) =~= name_set(potentials@[i].1@) by {}
    }
    while paired.len() < n
        invariant
            n == orig.len(),
            cm == map_model(orig),
            forall|i: int, j: int| 0 <= i < j < orig.len() ==> orig[i].0@ != orig[j].0@,
            forall|i: int| 0 <= i < orig.len() ==> distinct_names(#[trigger] orig[i].1@),
            potentials@.len() == n,
            forall|i: int| 0 <= i < n ==> #[trigger] potentials@[i].0@ == orig[i].0@,
            forall|i: int| 0 <= i < n ==> distinct_names(#[trigger] potentials@[i].1@),
            flags@.len() == n,
            resolved_ings@.len() == paired@.len(),
            forall|k: int| 0 <= k < paired@.len() ==> #[trigger] resolved_ings@[k]@
                == paired@[k].1@,
            name_set(resolved_ings@) == ings_of(pair_views(paired@)),
            valid_resolution(cm, pair_views(paired@)),
            forall|i: int| 0 <= i < n ==> (#[trigger] flags@[i] <==> resolves_key(
                pair_views(paired@),
                orig[i].0@,
            )),
            forall|i: int| 0 <= i < n && #[trigger] flags@[i] ==> exists|k: int|
                0 <= k < pair_views(paired@).len() && #[trigger] pair_views(paired@)[k].0
                    == orig[i].0@ && is_singleton_of(
                    name_set(potentials@[i].1@),
                    pair_views(paired@)[k].1,
                ),
            forall|i: int| 0 <= i < n && !(#[trigger] flags@[i]) ==> name_set(
                orig[i].1@,
            ).difference(name_set(resolved_ings@)).subset_of(name_set(potentials@[i].1@))
                && name_set(potentials@[i].1@).subset_of(name_set(orig[i].1@)),
            paired@.len() == count_true(flags@),
        decreases n - paired.len(),
    {
        let ghost pass_start = paired@;
        let mut progress: bool = false;
        let mut i: usize = 0;
        while i < n
            invariant
                i <= n,
                n == orig.len(),
                cm == map_model(orig),
                forall|i2: int, j2: int| 0 <= i2 < j2 < orig.len() ==> orig[i2].0@ != orig[j2].0@,
                forall|i2: int| 0 <= i2 < orig.len() ==> distinct_names(#[trigger] orig[i2].1@),
                potentials@.len() == n,
                forall|i2: int| 0 <= i2 < n ==> #[trigger] potentials@[i2].0@ == orig[i2].0@,
                forall|i2: int| 0 <= i2 < n ==> distinct_names(#[trigger] potentials@[i2].1@),
                flags@.len() == n,
                resolved_ings@.len() == paired@.len(),
                forall|k: int| 0 <= k < paired@.len() ==> #[trigger] resolved_ings@[k]@
                    == paired@[k].1@,
                name_set(resolved_ings@) == ings_of(pair_views(paired@)),
                valid_resolution(cm, pair_views(paired@)),
                forall|i2: int| 0 <= i2 < n ==> (#[trigger] flags@[i2] <==> resolves_key(
                    pair_views(paired@),
                    orig[i2].0@,
                )),
                forall|i2: int| 0 <= i2 < n && #[trigger] flags@[i2] ==> exists|k: int|
                    0 <= k < pair_views(paired@).len() && #[trigger] pair_views(paired@)[k].0
                        == orig[i2].0@ && is_singleton_of(
                        name_set(potentials@[i2].1@),
                        pair_views(paired@)[k].1,
                    ),
                forall|i2: int| 0 <= i2 < n && !(#[trigger] flags@[i2]) ==> name_set(
                    orig[i2].1@,
                ).difference(name_set(resolved_ings@)).subset_of(name_set(potentials@[i2].1@))
                    && name_set(potentials@[i2].1@).subset_of(name_set(orig[i2].1@)),
                paired@.len() == count_true(flags@),
                pass_start.len() < n,
                pass_start.len() <= paired@.len(),
                progress <==> paired@.len() > pass_start.len(),
                !progress ==> paired@ == pass_start,
                !progress ==> forall|i2: int|
                    0 <= i2 < i && !(#[trigger] flags@[i2]) ==> (forall|x: Seq<u8>|
                        !is_singleton_of(
                            name_set(orig[i2].1@).difference(name_set(resolved_ings@)),
                            x,
                        )) && name_set(potentials@[i2].1@) == name_set(orig[i2].1@).difference(
                        name_set(resolved_ings@),
                    ),
            decreases n - i,
        {
            if !flags[i] {
                let keyp = copy_name(&potentials[i].0);
                let filtered = remove_resolved(&potentials[i].1, &resolved_ings);
                proof {
                    assert(name_set(filtered@) =~= name_set(orig[i as int].1@).difference(
                        name_set(resolved_ings@),
                    )) by {
                        assert forall|x: Seq<u8>|
                            name_set(orig[i as int].1@).difference(
                                name_set(resolved_ings@),
                            ).contains(x) implies name_set(filtered@).contains(x) by {
                            assert(name_set(potentials@[i as int].1@).contains(x));
                        }
                    }
                    lemma_distinct_singleton(filtered@);
                }
                if filtered.len() == 1 {
                    let key_for_pair = copy_name(&keyp);
                    let ing = copy_name(&filtered[0]);
                    let ghost old_paired = paired@;
                    let ghost old_flags = flags@;
                    let ghost old_pots = potentials@;
                    potentials.set(i, (keyp, filtered));
                    paired.push((key_for_pair, ing));
                    resolved_ings.push(copy_name(&paired[paired.len() - 1].1));
                    flags.set(i, true);
                    progress = true;
                    proof {
                        let kstar = old_paired.len() as int;
                        let npv = pair_views(paired@);
                        let opv = pair_views(old_paired);
                        assert(npv =~= opv.push((orig[i as int].0@, npv[kstar].1)));
                        assert(npv.take(kstar) =~= opv);
                        // the new pair is a sound deduction
                        assert(cm[i as int].0 == orig[i as int].0@);
                        assert(cm[i as int].1 == name_set(orig[i as int].1@));
                        assert(is_singleton_of(
                            cm[i as int].1.difference(ings_of(npv.take(kstar))),
                            npv[kstar].1,
                        ));
                        assert(resolved_at(cm, npv, kstar));
                        // earlier pairs stay sound deductions
                        assert forall|k: int| 0 <= k < npv.len() implies #[trigger] resolved_at(
                            cm,
                            npv,
                            k,
                        ) by {
                            if k < kstar {
                                assert(resolved_at(cm, opv, k));
                                assert(npv.take(k) =~= opv.take(k));
                                let w = choose|w: int|
                                    0 <= w < cm.len() && cm[w].0 == opv[k].0 && is_singleton_of(
                                        cm[w].1.difference(ings_of(opv.take(k))),
                                        opv[k].1,
                                    );
                                assert(cm[w].0 == npv[k].0);
                            }
                        }
                        // no allergen is resolved twice
                        assert forall|k1: int, k2: int|
                            0 <= k1 < k2 < npv.len() implies npv[k1].0 != npv[k2].0 by {
                            if k2 == kstar {
                                assert(!resolves_key(opv, orig[i as int].0@));
                            }
                        }
                        // claimed ingredients follow the pairs
                        assert(name_set(resolved_ings@) =~= ings_of(npv)) by {
                            assert forall|x: Seq<u8>| name_set(resolved_ings@).contains(
                                x,
                            ) implies ings_of(npv).contains(x) by {
                                let m = choose|m: int|
                                    0 <= m < resolved_ings@.len() && resolved_ings@[m]@ == x;
                                assert(npv[m].1 == x);
                            }
                            assert forall|x: Seq<u8>| ings_of(npv).contains(x) implies name_set(
                                resolved_ings@,
                            ).contains(x) by {
                                let k = choose|k: int| 0 <= k < npv.len() && npv[k].1 == x;
                                assert(resolved_ings@[k]@ == x);
                            }
                        }
                        // flag bookkeeping
                        lemma_count_true_update(old_flags, i as int);
                        assert forall|i2: int| 0 <= i2 < n implies (#[trigger] flags@[i2]
                            <==> resolves_key(npv, orig[i2].0@)) by {
                            if i2 == i as int {
                                assert(npv[kstar].0 == orig[i2].0@);
                            } else {
                                if resolves_key(npv, orig[i2].0@) {
                                    let k = choose|k: int|
                                        0 <= k < npv.len() && npv[k].0 == orig[i2].0@;
                                    if k == kstar {
                                        assert(orig[i2].0@ == orig[i as int].0@);
                                        assert(false);
                                    } else {
                                        assert(resolves_key(opv, orig[i2].0@));
                                    }
                                }
                                if resolves_key(opv, orig[i2].0@) {
                                    let k = choose|k: int|
                                        0 <= k < opv.len() && opv[k].0 == orig[i2].0@;
                                    assert(npv[k].0 == orig[i2].0@);
                                }
                            }
                        }
                        // resolved entries hold exactly their pair's ingredient
                        assert forall|i2: int| 0 <= i2 < n && #[trigger] flags@[i2] implies exists|
                            k: int,
                        |
                            0 <= k < npv.len() && #[trigger] npv[k].0 == orig[i2].0@
                                && is_singleton_of(name_set(potentials@[i2].1@), npv[k].1) by {
                            if i2 == i as int {
                                assert(npv[kstar].0 == orig[i2].0@ && is_singleton_of(
                                    name_set(potentials@[i2].1@),
                                    npv[kstar].1,
                                ));
                            } else {
                                assert(old_flags[i2]);
                                let k = choose|k: int|
                                    0 <= k < opv.len() && #[trigger] opv[k].0 == orig[i2].0@
                                        && is_singleton_of(
                                        name_set(old_pots[i2].1@),
                                        opv[k].1,
                                    );
                                assert(npv[k].0 == orig[i2].0@ && is_singleton_of(
                                    name_set(potentials@[i2].1@),
                                    npv[k].1,
                                ));
                            }
                        }
                        // unresolved entries keep the elimination bounds
                        assert forall|i2: int|
                            0 <= i2 < n && !(#[trigger] flags@[i2]) implies name_set(
                            orig[i2].1@,
                        ).difference(name_set(resolved_ings@)).subset_of(
                            name_set(potentials@[i2].1@),
                        ) && name_set(potentials@[i2].1@).subset_of(name_set(orig[i2].1@)) by {
                            assert(i2 != i as int);
                            assert(!old_flags[i2]);
                            assert(potentials@[i2] == old_pots[i2]);
                            assert forall|x: Seq<u8>|
                                name_set(orig[i2].1@).difference(
                                    name_set(resolved_ings@),
                                ).contains(x) implies name_set(potentials@[i2].1@).contains(
                                x,
                            ) by {
                                assert(ings_of(opv).subset_of(ings_of(npv))) by {
                                    assert forall|y: Seq<u8>| ings_of(opv).contains(
                                        y,
                                    ) implies ings_of(npv).contains(y) by {
                                        let k = choose|k: int|
                                            0 <= k < opv.len() && opv[k].1 == y;
                                        assert(npv[k].1 == y);
                                    }
                                }
                            }
                        }
                    }
                } else {
                    let ghost old_pots = potentials@;
                    potentials.set(i, (keyp, filtered));
                    proof {
                        assert forall|i2: int| 0 <= i2 < n && #[trigger] flags@[i2] implies exists|
                            k: int,
                        |
                            0 <= k < pair_views(paired@).len() && #[trigger] pair_views(
                                paired@,
                            )[k].0 == orig[i2].0@ && is_singleton_of(
                                name_set(potentials@[i2].1@),
                                pair_views(paired@)[k].1,
                            ) by {
                            assert(i2 != i as int);
                            assert(potentials@[i2] == old_pots[i2]);
                        }
                    }
                }
            }
            i = i + 1;
        }
        if !progress {
            proof {
                let gp = pair_views(paired@);
                assert(stuck_resolution(cm, gp)) by {
                    assert(paired@.len() == pass_start.len());
                    assert forall|i2: int|
                        0 <= i2 < cm.len() && !resolves_key(gp, #[trigger] cm[i2].0) implies forall|
                        x: Seq<u8>,
                    | !is_singleton_of(cm[i2].1.difference(ings_of(gp)), x) by {
                        assert(cm[i2].0 == orig[i2].0@);
                        assert(!flags@[i2]);
                        assert(cm[i2].1 == name_set(orig[i2].1@));
                    }
                }
                assert forall|i2: int| 0 <= i2 < orig.len() implies (if resolves_key(
                    gp,
                    orig[i2].0@,
                ) {
                    exists|k: int|
                        0 <= k < gp.len() && #[trigger] gp[k].0 == orig[i2].0@ && is_singleton_of(
                            name_set(potentials@[i2].1@),
                            gp[k].1,
                        )
                } else {
                    name_set(potentials@[i2].1@) == name_set(orig[i2].1@).difference(ings_of(gp))
                }) by {
                    if resolves_key(gp, orig[i2].0@) {
                        assert(flags@[i2]);
                    } else {
                        assert(!flags@[i2]);
                        assert(name_set(potentials@[i2].1@) =~= name_set(orig[i2].1@).difference(
                            ings_of(gp),
                        ));
                    }
                }
                assert(stuck_outcome(orig, potentials@));
            }
            return Err(ReduceError::Unsolvable);
        }
        proof {
            lemma_count_true_le(flags@);
        }
    }
    proof {
        let pv = pair_views(paired@);
        lemma_count_true_le(flags@);
        assert(paired@.len() == n);
        lemma_count_true_full(flags@);
        assert(complete_resolution(cm, pv)) by {
            assert forall|i2: int| 0 <= i2 < cm.len() implies resolves_key(
                pv,
                #[trigger] cm[i2].0,
            ) by {
                assert(flags@[i2]);
                assert(cm[i2].0 == orig[i2].0@);
            }
        }
        assert forall|i2: int|
            #![trigger orig[i2]]
            0 <= i2 < orig.len() implies exists|k: int|
            0 <= k < pv.len() && #[trigger] pv[k].0 == orig[i2].0@ && is_singleton_of(
                name_set(potentials@[i2].1@),
                pv[k].1,
            ) by {
            assert(flags@[i2]);
        }
        assert(resolved_outcome(orig, potentials@, pair_views(paired@)));
    }
    Ok(paired)
}

} // verus!
